//! The executable machine: the tape primitives, the loading of a program
//! and its execution, each proved against the model of [`crate::machine`].

use crate::machine::{
    lemma_step_keeps_ready, Event, Machine, GET, LEFT, MINUS, NEWLINE, PLUS, PUT, RIGHT,
};
use crate::matcher::{
    balanced, jump_table, lemma_balanced_has_no_error, lemma_jump_table_mutual,
    lemma_jump_table_total, match_brackets, SyntaxError, CLOSE, OPEN,
};
use std::collections::HashMap;
use vstd::prelude::*;
use vstd::string::*;
use vstd::utf8::encode_utf8;

verus! {

/// A machine for one run: tape, program, jump table, data pointer and
/// program counter.
pub struct BF {
    /// The tape. It grows to the right on demand and is never empty.
    pub mem: Vec<u8>,
    /// The program text. Instructions are addressed by byte position.
    pub cmds_str: String,
    /// The partner position of every bracket of the program.
    pub jumps: HashMap<usize, usize>,
    /// The index of the current cell.
    pub ptr: usize,
    /// The position of the next instruction.
    pub pc: usize,
}

impl View for BF {
    type V = Machine;

    /// The machine as a mathematical state. The program is the text in its
    /// UTF-8 encoding, so that a character outside ASCII is a run of bytes
    /// that are no instructions.
    open spec fn view(&self) -> Machine {
        Machine {
            code: encode_utf8(self.cmds_str@),
            jumps: self.jumps@,
            tape: self.mem@,
            ptr: self.ptr as int,
            pc: self.pc as int,
        }
    }
}

/// Whether two jump tables hold the same entries, given that `b` has no key
/// from `limit` on.
fn same_table(a: &HashMap<usize, usize>, b: &HashMap<usize, usize>, limit: usize) -> (same: bool)
    requires
        forall|p: usize| b@.contains_key(p) ==> p < limit,
    ensures
        same == (a@ == b@),
{
    broadcast use vstd::std_specs::hash::group_hash_axioms;

    if a.len() != b.len() {
        return false;
    }
    let mut p: usize = 0;
    while p < limit
        invariant
            p <= limit,
            forall|k: usize| k < p ==> a@.contains_key(k) == b@.contains_key(k),
            forall|k: usize| k < p && b@.contains_key(k) ==> a@[k] == b@[k],
        decreases limit - p,
    {
        match (a.get(&p), b.get(&p)) {
            (Some(x), Some(y)) => {
                if *x != *y {
                    return false;
                }
            },
            (None, None) => {},
            _ => {
                return false;
            },
        }
        p += 1;
    }
    proof {
        assert(b@.dom().subset_of(a@.dom()));
        vstd::set_lib::lemma_subset_equality(b@.dom(), a@.dom());
        assert(a@ =~= b@);
    }
    true
}

impl BF {
    /// The data pointer names a cell of the tape.
    pub open spec fn tape_ok(&self) -> bool {
        self@.tape_ok()
    }

    /// The machine can execute: see [`Machine::ready`].
    pub open spec fn ready(&self) -> bool {
        self@.ready()
    }

    /// A machine with one zero cell and no program.
    pub fn new() -> (bf: BF)
        ensures
            bf@ == Machine::blank(),
            bf.cmds_str@ == Seq::<char>::empty(),
            bf.ready(),
    {
        let bf = BF {
            mem: vec![0u8],
            cmds_str: String::new(),
            jumps: HashMap::new(),
            ptr: 0,
            pc: 0,
        };
        proof {
            assert(bf.mem@ =~= seq![0u8]);
            assert(encode_utf8(bf.cmds_str@) =~= Seq::<u8>::empty());
            assert(jump_table(bf@.code) =~= Map::<usize, usize>::empty());
        }
        bf
    }

    /// Moves the pointer one cell to the left. At the first cell nothing
    /// moves and the result is `true`.
    pub fn left(&mut self) -> (at_edge: bool)
        requires
            old(self).tape_ok(),
        ensures
            at_edge == (old(self).ptr == 0),
            final(self)@ == old(self)@.left(),
            final(self).cmds_str@ == old(self).cmds_str@,
            final(self).tape_ok(),
    {
        if self.ptr == 0 {
            true
        } else {
            self.ptr -= 1;
            false
        }
    }

    /// Moves the pointer one cell to the right, appending a zero cell when
    /// it leaves the tape.
    pub fn right(&mut self)
        requires
            old(self).tape_ok(),
        ensures
            final(self)@ == old(self)@.right(),
            final(self).cmds_str@ == old(self).cmds_str@,
            final(self).tape_ok(),
    {
        if self.mem.len() - 1 == self.ptr {
            self.mem.push(0);
        }
        self.ptr += 1;
    }

    /// Adds one to the current cell, modulo 256.
    pub fn add(&mut self)
        requires
            old(self).tape_ok(),
        ensures
            final(self)@ == old(self)@.increment(),
            final(self).cmds_str@ == old(self).cmds_str@,
            final(self).tape_ok(),
    {
        let value = self.mem[self.ptr];
        self.mem[self.ptr] = if value == 255 {
            0
        } else {
            value + 1
        };
    }

    /// Subtracts one from the current cell, modulo 256.
    pub fn sub(&mut self)
        requires
            old(self).tape_ok(),
        ensures
            final(self)@ == old(self)@.decrement(),
            final(self).cmds_str@ == old(self).cmds_str@,
            final(self).tape_ok(),
    {
        let value = self.mem[self.ptr];
        self.mem[self.ptr] = if value == 0 {
            255
        } else {
            value - 1
        };
    }

    /// The index of the current cell.
    pub fn get_ptr(&self) -> (ptr: usize)
        ensures
            ptr == self.ptr,
    {
        self.ptr
    }

    /// The value of the current cell.
    pub fn get_pointed_val(&self) -> (value: u8)
        requires
            self.tape_ok(),
        ensures
            value == self@.cell(),
    {
        self.mem[self.ptr]
    }

    /// The byte that `.` writes: the current cell, unchanged.
    pub fn output(&self) -> (byte: u8)
        requires
            self.tape_ok(),
        ensures
            byte == self@.cell(),
    {
        self.mem[self.ptr]
    }

    /// Stores a byte that was read for `,` in the current cell. A line feed
    /// is stored as zero.
    pub fn input(&mut self, byte: u8)
        requires
            old(self).tape_ok(),
        ensures
            final(self)@ == old(self)@.store(byte),
            final(self).cmds_str@ == old(self).cmds_str@,
            final(self).tape_ok(),
    {
        self.mem[self.ptr] = if byte == NEWLINE {
            0
        } else {
            byte
        };
    }

    /// Whether the current cell is zero.
    pub fn point_zero(&self) -> (zero: bool)
        requires
            self.tape_ok(),
        ensures
            zero == (self@.cell() == 0),
    {
        self.mem[self.ptr] == 0
    }

    /// Builds the jump table of the program in `cmds_str`.
    ///
    /// A balanced program gets its jump table, which replaces whatever
    /// `jumps` held, and the machine is linked. Any other program leaves
    /// `jumps` alone and is answered with the message of the one error it
    /// has. Nothing else changes.
    pub fn parse_cmd(&mut self) -> (r: Result<(), String>)
        ensures
            final(self).cmds_str@ == old(self).cmds_str@,
            final(self).mem == old(self).mem,
            final(self).ptr == old(self).ptr,
            final(self).pc == old(self).pc,
            match r {
                Ok(_) => final(self)@.linked(),
                Err(msg) => final(self).jumps@ == old(self).jumps@ && exists|e: SyntaxError|
                    #[trigger] e.diagnoses(old(self)@.code) && msg@ == e.text(),
            },
            balanced(old(self)@.code) ==> r is Ok,
            forall|e: SyntaxError| #[trigger]
                e.diagnoses(old(self)@.code) ==> (r matches Err(msg) && msg@ == e.text()),
    {
        let code = self.cmds_str.as_str().as_bytes();
        assert(code@ == self@.code && code@.len() == code.len());
        match match_brackets(code) {
            Ok(table) => {
                self.jumps = table;
                Ok(())
            },
            Err(e) => Err(e.message()),
        }
    }

    /// Executes the instruction at the program counter.
    ///
    /// `input` is the byte that answers a pending [`Event::Input`]; a `,`
    /// without it changes nothing and asks for it.
    pub fn step(&mut self, input: Option<u8>) -> (event: Event)
        requires
            old(self).ready(),
        ensures
            (final(self)@, event) == old(self)@.step(input),
            final(self).cmds_str@ == old(self).cmds_str@,
            final(self).ready(),
    {
        broadcast use vstd::std_specs::hash::group_hash_axioms;

        proof {
            lemma_step_keeps_ready(self@, input);
        }
        if self.pc >= self.cmds_str.as_str().len() {
            return Event::Finished;
        }
        let c = self.cmds_str.as_str().as_bytes()[self.pc];
        if c == RIGHT {
            self.right();
            self.pc += 1;
            Event::Running
        } else if c == LEFT {
            if self.left() {
                Event::Halted
            } else {
                self.pc += 1;
                Event::Running
            }
        } else if c == PLUS {
            self.add();
            self.pc += 1;
            Event::Running
        } else if c == MINUS {
            self.sub();
            self.pc += 1;
            Event::Running
        } else if c == PUT {
            let byte = self.output();
            self.pc += 1;
            Event::Output { byte, flush: byte == NEWLINE }
        } else if c == GET {
            match input {
                Some(byte) => {
                    self.input(byte);
                    self.pc += 1;
                    Event::Running
                },
                None => Event::Input,
            }
        } else if c == OPEN || c == CLOSE {
            if self.point_zero() == (c == OPEN) {
                proof {
                    lemma_jump_table_total(self@.code, self.pc);
                }
                // The table has an entry for every bracket, so the lookup hits.
                if let Some(target) = self.jumps.get(&self.pc) {
                    self.pc = *target;
                }
            } else {
                self.pc += 1;
            }
            Event::Running
        } else {
            self.pc += 1;
            Event::Running
        }
    }

    /// Executes up to `budget` instructions and stops early at the first
    /// event that needs the host: output, a wait for input, the end of the
    /// program, or a halt. [`Event::Running`] means the budget is used up.
    ///
    /// `input` answers a pending [`Event::Input`] and is offered to the
    /// first instruction only.
    pub fn run(&mut self, input: Option<u8>, budget: usize) -> (event: Event)
        requires
            old(self).ready(),
        ensures
            (final(self)@, event) == old(self)@.run(input, budget as nat),
            final(self).cmds_str@ == old(self).cmds_str@,
            final(self).ready(),
    {
        let mut offered = input;
        let mut remaining = budget;
        while remaining > 0
            invariant
                self.ready(),
                self.cmds_str@ == old(self).cmds_str@,
                self@.run(offered, remaining as nat) == old(self)@.run(input, budget as nat),
            decreases remaining,
        {
            let event = self.step(offered);
            match event {
                Event::Running => {},
                _ => {
                    return event;
                },
            }
            offered = None;
            remaining -= 1;
        }
        Event::Running
    }

    /// Starts a run of `cmd`: loads it, builds its jump table and executes it
    /// from its first instruction on a fresh tape of one zero cell.
    ///
    /// A program with a syntax error is answered with the error's message
    /// and not run at all: tape, pointer, program counter and jump table
    /// stay as they were. A balanced program runs as [`BF::run`] describes,
    /// with no input offered; nothing of an earlier run is left but the
    /// machine itself.
    pub fn run_cmd(&mut self, cmd: String, budget: usize) -> (r: Result<Event, String>)
        ensures
            final(self).cmds_str@ == cmd@,
            match r {
                Ok(event) => {
                    &&& balanced(encode_utf8(cmd@))
                    &&& (final(self)@, event) == Machine::fresh(encode_utf8(cmd@)).run(
                        None,
                        budget as nat,
                    )
                    &&& final(self).ready()
                },
                Err(msg) => {
                    &&& final(self).mem == old(self).mem
                    &&& final(self).ptr == old(self).ptr
                    &&& final(self).pc == old(self).pc
                    &&& final(self).jumps@ == old(self).jumps@
                    &&& exists|e: SyntaxError| #[trigger]
                        e.diagnoses(encode_utf8(cmd@)) && msg@ == e.text()
                },
            },
            balanced(encode_utf8(cmd@)) ==> r is Ok,
            forall|e: SyntaxError| #[trigger]
                e.diagnoses(encode_utf8(cmd@)) ==> (r matches Err(msg) && msg@ == e.text()),
    {
        self.cmds_str = cmd;
        match self.parse_cmd() {
            Ok(_) => {
                self.mem = vec![0u8];
                self.ptr = 0;
                self.pc = 0;
                proof {
                    lemma_balanced_has_no_error(self@.code);
                    assert(self.mem@ =~= seq![0u8]);
                    assert(self@ == Machine::fresh(self@.code));
                }
                Ok(self.run(None, budget))
            },
            Err(msg) => Err(msg),
        }
    }

    /// Tests at run time whether the machine can execute. A host that put
    /// the fields together by hand learns here whether [`BF::step`] and
    /// [`BF::run`] accept the machine.
    pub fn is_ready(&self) -> (ok: bool)
        ensures
            ok == self.ready(),
    {
        if self.ptr >= self.mem.len() {
            return false;
        }
        let code = self.cmds_str.as_str().as_bytes();
        assert(code@ == self@.code && code@.len() == code.len());
        if self.pc > code.len() {
            return false;
        }
        match match_brackets(code) {
            Ok(table) => {
                proof {
                    assert forall|p: usize| table@.contains_key(p) implies p < code.len() by {
                        lemma_jump_table_mutual(code@, p);
                    }
                }
                same_table(&self.jumps, &table, code.len())
            },
            Err(_) => false,
        }
    }
}

} // verus!
