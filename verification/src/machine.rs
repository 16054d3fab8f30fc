//! The machine as a mathematical object: a program, its jump table, a tape
//! of byte cells, a data pointer and a program counter, with the effect of
//! one instruction and of a bounded run.
//!
//! The machine never performs input or output itself. It reports what the
//! host has to do as an [`Event`] and is resumed afterwards.

use crate::matcher::{balanced, jump_table, lemma_jump_table_mutual, lemma_jump_table_total, CLOSE, OPEN};
use vstd::prelude::*;

verus! {

/// `>`: move the data pointer one cell to the right.
pub const RIGHT: u8 = 0x3e;

/// `<`: move the data pointer one cell to the left.
pub const LEFT: u8 = 0x3c;

/// `+`: add one to the current cell.
pub const PLUS: u8 = 0x2b;

/// `-`: subtract one from the current cell.
pub const MINUS: u8 = 0x2d;

/// `.`: write the current cell.
pub const PUT: u8 = 0x2e;

/// `,`: read one byte into the current cell.
pub const GET: u8 = 0x2c;

/// The line feed, which is stored as zero on input and flushes on output.
pub const NEWLINE: u8 = 0x0a;

/// What the machine reports to its host when it stops stepping.
#[derive(Clone, Copy, Debug, PartialEq, Eq)]
pub enum Event {
    /// Nothing to do for the host: the machine can go on.
    Running,
    /// The program wrote `byte`; the sink is to be flushed if `flush` is set.
    Output { byte: u8, flush: bool },
    /// The program waits for one byte of input and has not moved.
    Input,
    /// The program counter has reached the end of the program.
    Finished,
    /// A move to the left of the first cell ended the run.
    Halted,
}

/// The state of one run.
pub struct Machine {
    /// The program, byte by byte.
    pub code: Seq<u8>,
    /// The partner of every bracket position.
    pub jumps: Map<usize, usize>,
    /// The cells.
    pub tape: Seq<u8>,
    /// The index of the current cell.
    pub ptr: int,
    /// The index of the next instruction.
    pub pc: int,
}

/// A cell value after `+`: one more, modulo 256.
pub open spec fn incremented(b: u8) -> u8 {
    ((b + 1) % 256) as u8
}

/// A cell value after `-`: one less, modulo 256.
pub open spec fn decremented(b: u8) -> u8 {
    ((b - 1) % 256) as u8
}

/// What `,` stores for the byte it read: a line feed becomes zero.
pub open spec fn stored(byte: u8) -> u8 {
    if byte == NEWLINE {
        0
    } else {
        byte
    }
}

impl Machine {
    /// The machine before anything was loaded: one zero cell, no program.
    pub open spec fn blank() -> Machine {
        Machine { code: Seq::empty(), jumps: Map::empty(), tape: seq![0u8], ptr: 0, pc: 0 }
    }

    /// The machine at the start of a run of `code`: the program with its
    /// jump table, and everything else as in [`Machine::blank`].
    pub open spec fn fresh(code: Seq<u8>) -> Machine {
        Machine { code, jumps: jump_table(code), ..Machine::blank() }
    }

    /// The data pointer names a cell of the tape.
    pub open spec fn tape_ok(self) -> bool {
        0 <= self.ptr < self.tape.len()
    }

    /// The jump table is the one of the program, which is balanced.
    pub open spec fn linked(self) -> bool {
        &&& self.code.len() <= usize::MAX
        &&& balanced(self.code)
        &&& self.jumps == jump_table(self.code)
    }

    /// The machine can execute: tape and jump table are in order and the
    /// program counter is inside the program or at its end.
    pub open spec fn ready(self) -> bool {
        &&& self.tape_ok()
        &&& self.linked()
        &&& 0 <= self.pc <= self.code.len()
    }

    /// The value of the current cell.
    pub open spec fn cell(self) -> u8 {
        self.tape[self.ptr]
    }

    /// The same machine with `value` in the current cell.
    pub open spec fn with_cell(self, value: u8) -> Machine {
        Machine { tape: self.tape.update(self.ptr, value), ..self }
    }

    /// `>`: the pointer moves right; past the last cell, a zero cell is appended.
    pub open spec fn right(self) -> Machine {
        Machine {
            tape: if self.ptr + 1 == self.tape.len() {
                self.tape.push(0u8)
            } else {
                self.tape
            },
            ptr: self.ptr + 1,
            ..self
        }
    }

    /// `<`: the pointer moves left, unless it is at the first cell.
    pub open spec fn left(self) -> Machine {
        if self.ptr == 0 {
            self
        } else {
            Machine { ptr: self.ptr - 1, ..self }
        }
    }

    /// `+` on the current cell.
    pub open spec fn increment(self) -> Machine {
        self.with_cell(incremented(self.cell()))
    }

    /// `-` on the current cell.
    pub open spec fn decrement(self) -> Machine {
        self.with_cell(decremented(self.cell()))
    }

    /// `,` with the byte that was read.
    pub open spec fn store(self, byte: u8) -> Machine {
        self.with_cell(stored(byte))
    }

    /// The program counter moves to the next instruction.
    pub open spec fn advance(self) -> Machine {
        Machine { pc: self.pc + 1, ..self }
    }

    /// The program counter moves to the partner of the bracket it is at.
    pub open spec fn jump(self) -> Machine {
        Machine { pc: self.jumps[self.pc as usize] as int, ..self }
    }

    /// One instruction. `input` is the byte offered to a `,`; every other
    /// instruction ignores it.
    pub open spec fn step(self, input: Option<u8>) -> (Machine, Event) {
        if self.pc >= self.code.len() {
            (self, Event::Finished)
        } else {
            let c = self.code[self.pc];
            if c == RIGHT {
                (self.right().advance(), Event::Running)
            } else if c == LEFT {
                if self.ptr == 0 {
                    (self, Event::Halted)
                } else {
                    (self.left().advance(), Event::Running)
                }
            } else if c == PLUS {
                (self.increment().advance(), Event::Running)
            } else if c == MINUS {
                (self.decrement().advance(), Event::Running)
            } else if c == PUT {
                (
                    self.advance(),
                    Event::Output { byte: self.cell(), flush: self.cell() == NEWLINE },
                )
            } else if c == GET {
                match input {
                    Some(byte) => (self.store(byte).advance(), Event::Running),
                    None => (self, Event::Input),
                }
            } else if c == OPEN {
                if self.cell() == 0 {
                    (self.jump(), Event::Running)
                } else {
                    (self.advance(), Event::Running)
                }
            } else if c == CLOSE {
                if self.cell() != 0 {
                    (self.jump(), Event::Running)
                } else {
                    (self.advance(), Event::Running)
                }
            } else {
                (self.advance(), Event::Running)
            }
        }
    }

    /// At most `budget` instructions, stopping at the first event that is
    /// not [`Event::Running`]. `input` is offered to the first instruction
    /// only.
    pub open spec fn run(self, input: Option<u8>, budget: nat) -> (Machine, Event)
        decreases budget,
    {
        if budget == 0 {
            (self, Event::Running)
        } else {
            let (next, event) = self.step(input);
            if event is Running {
                next.run(None, (budget - 1) as nat)
            } else {
                (next, event)
            }
        }
    }
}

/// A step leaves a ready machine ready and never touches program or jump table.
pub proof fn lemma_step_keeps_ready(m: Machine, input: Option<u8>)
    requires
        m.ready(),
    ensures
        m.step(input).0.ready(),
        m.step(input).0.code == m.code,
        m.step(input).0.jumps == m.jumps,
{
    if m.pc < m.code.len() {
        let c = m.code[m.pc];
        if c == OPEN || c == CLOSE {
            lemma_jump_table_total(m.code, m.pc as usize);
            lemma_jump_table_mutual(m.code, m.pc as usize);
        }
    }
}

/// The tape only ever grows, and only by zero cells at its right end: a
/// step may change the current cell and append one zero cell, nothing else.
pub proof fn lemma_tape_grows_right(m: Machine, input: Option<u8>)
    requires
        m.tape_ok(),
    ensures
        m.tape.len() <= m.step(input).0.tape.len() <= m.tape.len() + 1,
        forall|i: int|
            0 <= i < m.tape.len() && i != m.ptr ==> m.step(input).0.tape[i] == m.tape[i],
        forall|i: int|
            m.tape.len() <= i < m.step(input).0.tape.len() ==> m.step(input).0.tape[i] == 0,
{
}

/// A machine that waits for input waits at a `,`, untouched, and goes on as
/// soon as it is resumed with a byte: the byte is stored and not lost.
pub proof fn lemma_input_is_consumed(m: Machine, input: Option<u8>, byte: u8)
    requires
        0 <= m.pc,
        m.step(input).1 is Input,
    ensures
        m.step(input).0 == m,
        0 <= m.pc < m.code.len() && m.code[m.pc] == GET,
        m.step(Some(byte)) == (m.store(byte).advance(), Event::Running),
{
}

/// A run leaves a ready machine ready and never touches program or jump table.
pub proof fn lemma_run_keeps_ready(m: Machine, input: Option<u8>, budget: nat)
    requires
        m.ready(),
    ensures
        m.run(input, budget).0.ready(),
        m.run(input, budget).0.code == m.code,
        m.run(input, budget).0.jumps == m.jumps,
    decreases budget,
{
    if budget > 0 {
        lemma_step_keeps_ready(m, input);
        let (next, event) = m.step(input);
        if event is Running {
            lemma_run_keeps_ready(next, None, (budget - 1) as nat);
        }
    }
}

/// Cell arithmetic wraps: one more than 255 is 0, one less than 0 is 255,
/// and `-` undoes `+` on every value.
pub proof fn lemma_cell_wraps(b: u8)
    ensures
        incremented(255) == 0,
        decremented(0) == 255,
        b < 255 ==> incremented(b) == b + 1,
        b > 0 ==> decremented(b) == b - 1,
        decremented(incremented(b)) == b,
        incremented(decremented(b)) == b,
{
}

/// Moving right from the last cell yields a fresh zero cell and changes no
/// other cell.
pub proof fn lemma_right_past_end(m: Machine)
    requires
        m.tape_ok(),
        m.ptr == m.tape.len() - 1,
    ensures
        m.right().tape_ok(),
        m.right().cell() == 0,
        m.right().tape == m.tape.push(0u8),
{
}

/// Moving right and immediately left brings the pointer back to the cell it
/// was at, with the value that cell had, and no earlier cell has changed.
pub proof fn lemma_right_then_left(m: Machine)
    requires
        m.tape_ok(),
    ensures
        m.right().left().tape_ok(),
        m.right().left().ptr == m.ptr,
        m.right().left().cell() == m.cell(),
        forall|i: int| 0 <= i < m.tape.len() ==> m.right().left().tape[i] == m.tape[i],
{
}

/// A `<` at the first cell halts the run on the spot: whatever follows in
/// the program and however large the budget, the state stays as it is.
pub proof fn lemma_left_edge_halts(m: Machine, input: Option<u8>, budget: nat)
    requires
        0 <= m.pc < m.code.len(),
        m.code[m.pc] == LEFT,
        m.ptr == 0,
        budget > 0,
    ensures
        m.step(input) == (m, Event::Halted),
        m.run(input, budget) == (m, Event::Halted),
{
}

/// Pausing changes nothing: a run of `a + b` instructions is a run of `a`
/// followed, if the machine is still running, by a run of `b`.
pub proof fn lemma_run_resumes(m: Machine, input: Option<u8>, a: nat, b: nat)
    requires
        a > 0,
    ensures
        m.run(input, a + b) == if m.run(input, a).1 is Running {
            m.run(input, a).0.run(None, b)
        } else {
            m.run(input, a)
        },
    decreases a,
{
    let (next, event) = m.step(input);
    if event is Running {
        if a > 1 {
            lemma_run_resumes(next, None, (a - 1) as nat, b);
        } else {
            assert(next.run(None, 0) == (next, Event::Running));
        }
        assert(m.run(input, a + b) == next.run(None, (a + b - 1) as nat));
    }
}

} // verus!
