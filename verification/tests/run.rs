use brainfuck::{Event, BF};

const PLENTY: usize = 1_000_000;

fn start(code: &str, budget: usize) -> (BF, Event) {
    let mut bf = BF::new();
    match bf.run_cmd(String::from(code), budget) {
        Ok(event) => (bf, event),
        Err(msg) => panic!("unexpected syntax error: {}", msg),
    }
}

/// Runs `code` to its end, feeding `input` and collecting what it writes.
fn drive(code: &str, input: &[u8]) -> (BF, Vec<u8>, Event) {
    let (mut bf, mut event) = start(code, PLENTY);
    let mut fed = 0;
    let mut written = Vec::new();
    loop {
        match event {
            Event::Finished | Event::Halted => return (bf, written, event),
            Event::Output { byte, .. } => {
                written.push(byte);
                event = bf.run(None, PLENTY);
            }
            Event::Input => {
                let byte = input[fed];
                fed += 1;
                event = bf.run(Some(byte), PLENTY);
            }
            Event::Running => panic!("budget used up"),
        }
    }
}

#[test]
fn empty_program_finishes_at_once() {
    let (bf, event) = start("", PLENTY);
    assert_eq!(event, Event::Finished);
    assert_eq!(bf.mem, vec![0]);
    assert_eq!(bf.ptr, 0);
    assert_eq!(bf.pc, 0);
}

#[test]
fn multiplication_loop_sets_cell_one_to_eight_and_writes_it() {
    let (mut bf, event) = start("++[>++++<-]>.", PLENTY);
    assert_eq!(event, Event::Output { byte: 8, flush: false });
    assert_eq!(bf.mem, vec![0, 8]);
    assert_eq!(bf.ptr, 1);
    assert_eq!(bf.pc, 13);
    assert_eq!(bf.run(None, PLENTY), Event::Finished);
    assert_eq!(bf.mem, vec![0, 8]);
    assert_eq!(bf.get_pointed_val(), 8);
}

#[test]
fn multiplication_loop_output_is_one_raw_byte() {
    let (bf, written, event) = drive("++[>++++<-]>.", &[]);
    assert_eq!(written, vec![0x08]);
    assert_eq!(event, Event::Finished);
    assert_eq!(bf.mem, vec![0, 8]);
}

#[test]
fn echo_waits_for_input_first() {
    let (mut bf, event) = start(",.", PLENTY);
    assert_eq!(event, Event::Input);
    assert_eq!(bf.pc, 0);
    assert_eq!(bf.mem, vec![0]);
    assert_eq!(bf.run(Some(b'a'), PLENTY), Event::Output { byte: b'a', flush: false });
    assert_eq!(bf.mem, vec![b'a']);
    assert_eq!(bf.pc, 2);
    assert_eq!(bf.run(None, PLENTY), Event::Finished);
}

#[test]
fn echo_returns_the_byte_unchanged() {
    for byte in [0u8, 1, 9, 11, 13, b' ', b'a', 127, 128, 255] {
        let (_, written, event) = drive(",.", &[byte]);
        assert_eq!(written, vec![byte]);
        assert_eq!(event, Event::Finished);
    }
}

#[test]
fn echo_turns_newline_into_zero() {
    let (mut bf, event) = start(",.", PLENTY);
    assert_eq!(event, Event::Input);
    assert_eq!(bf.run(Some(b'\n'), PLENTY), Event::Output { byte: 0, flush: false });
    assert_eq!(bf.mem, vec![0]);
    let (_, written, _) = drive(",.", &[b'\n']);
    assert_eq!(written, vec![0]);
}

#[test]
fn waiting_for_input_again_changes_nothing() {
    let (mut bf, event) = start("+>,", PLENTY);
    assert_eq!(event, Event::Input);
    assert_eq!(bf.run(None, PLENTY), Event::Input);
    assert_eq!(bf.run(None, 1), Event::Input);
    assert_eq!(bf.pc, 2);
    assert_eq!(bf.mem, vec![1, 0]);
    assert_eq!(bf.ptr, 1);
}

#[test]
fn input_offered_to_another_instruction_is_ignored() {
    let mut bf = BF::new();
    assert_eq!(bf.run_cmd(String::from("+,"), 0), Ok(Event::Running));
    assert_eq!(bf.step(Some(b'x')), Event::Running);
    assert_eq!(bf.mem, vec![1]);
    assert_eq!(bf.pc, 1);
    assert_eq!(bf.step(None), Event::Input);
    assert_eq!(bf.step(Some(b'x')), Event::Running);
    assert_eq!(bf.mem, vec![b'x']);
    assert_eq!(bf.pc, 2);
}

#[test]
fn newline_output_asks_for_a_flush() {
    let (bf, event) = start("++++++++++.", PLENTY);
    assert_eq!(event, Event::Output { byte: 10, flush: true });
    assert_eq!(bf.mem, vec![10]);
    let (_, event) = start("+++++++++.", PLENTY);
    assert_eq!(event, Event::Output { byte: 9, flush: false });
    let (_, event) = start("+++++++++++.", PLENTY);
    assert_eq!(event, Event::Output { byte: 11, flush: false });
}

#[test]
fn empty_loop_on_zero_cell_passes_through() {
    let (bf, event) = start("[]", PLENTY);
    assert_eq!(event, Event::Finished);
    assert_eq!(bf.mem, vec![0]);
    assert_eq!(bf.ptr, 0);
    assert_eq!(bf.pc, 2);
}

#[test]
fn empty_loop_after_cleared_cell_passes_through() {
    let (bf, event) = start("+-[]+", PLENTY);
    assert_eq!(event, Event::Finished);
    assert_eq!(bf.mem, vec![1]);
}

#[test]
fn empty_loop_on_nonzero_cell_never_ends() {
    let (mut bf, event) = start("+[]", 1000);
    assert_eq!(event, Event::Running);
    assert_eq!(bf.mem, vec![1]);
    assert!(bf.pc == 1 || bf.pc == 2);
    assert_eq!(bf.run(None, 1001), Event::Running);
    assert_eq!(bf.mem, vec![1]);
    assert!(bf.pc == 1 || bf.pc == 2);
}

#[test]
fn loop_skipped_when_cell_is_zero() {
    let (bf, event) = start("[+++>+++]>", PLENTY);
    assert_eq!(event, Event::Finished);
    assert_eq!(bf.mem, vec![0, 0]);
    assert_eq!(bf.ptr, 1);
}

#[test]
fn clear_loop_zeroes_the_cell() {
    let (bf, event) = start("+++++[-]", PLENTY);
    assert_eq!(event, Event::Finished);
    assert_eq!(bf.mem, vec![0]);
}

#[test]
fn nested_loops_multiply() {
    // 2 * 3 * 4 = 24 in cell 2
    let (bf, event) = start("++[>+++[>++++<-]<-]", PLENTY);
    assert_eq!(event, Event::Finished);
    assert_eq!(bf.mem, vec![0, 0, 24]);
    assert_eq!(bf.ptr, 0);
}

#[test]
fn left_at_first_cell_halts_the_run() {
    let (mut bf, event) = start("<+++.", PLENTY);
    assert_eq!(event, Event::Halted);
    assert_eq!(bf.mem, vec![0]);
    assert_eq!(bf.ptr, 0);
    assert_eq!(bf.pc, 0);
    assert_eq!(bf.run(None, PLENTY), Event::Halted);
    assert_eq!(bf.mem, vec![0]);
    assert_eq!(bf.pc, 0);
}

#[test]
fn left_at_first_cell_halts_in_the_middle() {
    let (bf, written, event) = drive("+.><<+.", &[]);
    assert_eq!(event, Event::Halted);
    assert_eq!(written, vec![1]);
    assert_eq!(bf.mem, vec![1, 0]);
    assert_eq!(bf.ptr, 0);
    assert_eq!(bf.pc, 4);
}

#[test]
fn decrement_wraps_in_a_program() {
    let (_, event) = start("-.", PLENTY);
    assert_eq!(event, Event::Output { byte: 255, flush: false });
}

#[test]
fn increment_wraps_in_a_program() {
    let (_, event) = start("-+.", PLENTY);
    assert_eq!(event, Event::Output { byte: 0, flush: false });
}

#[test]
fn wrapping_loop_counts_down_through_255() {
    // the loop body runs 256 times before the cell is zero again
    let (bf, event) = start("-[->+<]", PLENTY);
    assert_eq!(event, Event::Finished);
    assert_eq!(bf.mem, vec![0, 255]);
}

#[test]
fn other_characters_are_skipped() {
    let (bf, event) = start("a+ b+\nc+ é!", PLENTY);
    assert_eq!(event, Event::Finished);
    assert_eq!(bf.mem, vec![3]);
    assert_eq!(bf.pc, "a+ b+\nc+ é!".len());
}

#[test]
fn right_moves_grow_the_tape_with_zero_cells() {
    let (bf, event) = start("+>>>+", PLENTY);
    assert_eq!(event, Event::Finished);
    assert_eq!(bf.mem, vec![1, 0, 0, 1]);
    assert_eq!(bf.ptr, 3);
}

#[test]
fn right_then_left_in_a_program_restores_the_cell() {
    let (bf, event) = start("+++><.", PLENTY);
    assert_eq!(event, Event::Output { byte: 3, flush: false });
    assert_eq!(bf.ptr, 0);
    assert_eq!(bf.mem, vec![3, 0]);
}

#[test]
fn hello_is_written_byte_by_byte() {
    let code = "++++++++[>+++++++++<-]>.+++++++++++++++++++++++++++++.+++++++..+++.";
    let (_, written, event) = drive(code, &[]);
    assert_eq!(event, Event::Finished);
    assert_eq!(written, b"Hello".to_vec());
}

#[test]
fn input_is_read_until_a_line_ends() {
    // read bytes until a newline (stored as zero), writing each one back
    let (_, written, event) = drive(",[.,]", b"hi!\n");
    assert_eq!(event, Event::Finished);
    assert_eq!(written, b"hi!".to_vec());
}

#[test]
fn zero_budget_does_nothing() {
    let (bf, event) = start("+++", 0);
    assert_eq!(event, Event::Running);
    assert_eq!(bf.mem, vec![0]);
    assert_eq!(bf.pc, 0);
}

#[test]
fn budget_counts_instructions() {
    let (mut bf, event) = start("+++++", 2);
    assert_eq!(event, Event::Running);
    assert_eq!(bf.mem, vec![2]);
    assert_eq!(bf.pc, 2);
    assert_eq!(bf.run(None, 3), Event::Running);
    assert_eq!(bf.mem, vec![5]);
    assert_eq!(bf.pc, 5);
    assert_eq!(bf.run(None, 1), Event::Finished);
}

#[test]
fn pausing_and_resuming_equals_one_run() {
    let code = "++[>+++[>++++<-]<-]>>.";
    let (whole, whole_event) = start(code, PLENTY);
    for first in [1usize, 2, 3, 7, 20, 50] {
        let (mut bf, mut event) = start(code, first);
        while event == Event::Running {
            event = bf.run(None, 5);
        }
        assert_eq!(event, whole_event);
        assert_eq!(bf.mem, whole.mem);
        assert_eq!(bf.ptr, whole.ptr);
        assert_eq!(bf.pc, whole.pc);
    }
    assert_eq!(whole_event, Event::Output { byte: 24, flush: false });
}

#[test]
fn step_executes_one_instruction() {
    let mut bf = BF::new();
    assert_eq!(bf.run_cmd(String::from("+>-<[.]"), 0), Ok(Event::Running));
    assert_eq!(bf.step(None), Event::Running);
    assert_eq!((bf.mem.clone(), bf.ptr, bf.pc), (vec![1], 0, 1));
    assert_eq!(bf.step(None), Event::Running);
    assert_eq!((bf.mem.clone(), bf.ptr, bf.pc), (vec![1, 0], 1, 2));
    assert_eq!(bf.step(None), Event::Running);
    assert_eq!((bf.mem.clone(), bf.ptr, bf.pc), (vec![1, 255], 1, 3));
    assert_eq!(bf.step(None), Event::Running);
    assert_eq!((bf.mem.clone(), bf.ptr, bf.pc), (vec![1, 255], 0, 4));
    assert_eq!(bf.step(None), Event::Running);
    assert_eq!(bf.pc, 5);
    assert_eq!(bf.step(None), Event::Output { byte: 1, flush: false });
    assert_eq!(bf.pc, 6);
    // the cell is not zero: `]` jumps back to its `[`
    assert_eq!(bf.step(None), Event::Running);
    assert_eq!(bf.pc, 4);
}

#[test]
fn open_bracket_jumps_to_its_close_on_zero() {
    let mut bf = BF::new();
    assert_eq!(bf.run_cmd(String::from("[++]+"), 0), Ok(Event::Running));
    assert_eq!(bf.step(None), Event::Running);
    assert_eq!(bf.pc, 3);
    assert_eq!(bf.step(None), Event::Running);
    assert_eq!(bf.pc, 4);
    assert_eq!(bf.step(None), Event::Running);
    assert_eq!(bf.pc, 5);
    assert_eq!(bf.mem, vec![1]);
    assert_eq!(bf.step(None), Event::Finished);
    assert_eq!(bf.pc, 5);
}

#[test]
fn syntax_error_stops_before_anything_runs() {
    let mut bf = BF::new();
    bf.mem = vec![4, 5];
    bf.ptr = 1;
    let r = bf.run_cmd(String::from("+++.]"), PLENTY);
    assert_eq!(r, Err(String::from("Syntax error: There is no '[' corresponding to ']' at 4")));
    assert_eq!(bf.mem, vec![4, 5]);
    assert_eq!(bf.ptr, 1);
    assert_eq!(bf.pc, 0);
    assert!(bf.jumps.is_empty());
    assert_eq!(bf.cmds_str, "+++.]");
}

#[test]
fn unmatched_open_stops_before_anything_runs() {
    let mut bf = BF::new();
    let r = bf.run_cmd(String::from("+.[+"), PLENTY);
    assert_eq!(
        r,
        Err(String::from("Syntax error: There is no ']' corresponding to '[' as the end"))
    );
    assert_eq!(bf.mem, vec![0]);
    assert_eq!(bf.ptr, 0);
    assert_eq!(bf.pc, 0);
}

#[test]
fn second_program_starts_at_its_first_instruction() {
    let (mut bf, event) = start("+++", PLENTY);
    assert_eq!(event, Event::Finished);
    assert_eq!(bf.pc, 3);
    assert_eq!(bf.run_cmd(String::from(">++"), PLENTY), Ok(Event::Finished));
    assert_eq!(bf.mem, vec![0, 2]);
    assert_eq!(bf.ptr, 1);
    assert_eq!(bf.pc, 3);
}

#[test]
fn second_program_runs_on_a_fresh_tape() {
    let mut bf = BF::new();
    assert_eq!(bf.run_cmd(String::from("+"), PLENTY), Ok(Event::Finished));
    assert_eq!(bf.mem, vec![1]);
    assert_eq!(bf.run_cmd(String::from(">+"), PLENTY), Ok(Event::Finished));
    assert_eq!(bf.mem, vec![0, 1]);
    assert_eq!(bf.ptr, 1);
    assert_eq!(bf.pc, 2);
}

#[test]
fn second_program_gets_its_own_jump_table() {
    let (mut bf, event) = start("++[-]", PLENTY);
    assert_eq!(event, Event::Finished);
    assert_eq!(bf.jumps.len(), 2);
    assert_eq!(bf.run_cmd(String::from("+"), PLENTY), Ok(Event::Finished));
    assert!(bf.jumps.is_empty());
    assert_eq!(bf.mem, vec![1]);
}

#[test]
fn new_run_starts_fresh_even_with_zero_budget() {
    let (mut bf, event) = start("+>+>+", PLENTY);
    assert_eq!(event, Event::Finished);
    assert_eq!(bf.mem, vec![1, 1, 1]);
    assert_eq!(bf.run_cmd(String::from("-"), 0), Ok(Event::Running));
    assert_eq!(bf.mem, vec![0]);
    assert_eq!(bf.ptr, 0);
    assert_eq!(bf.pc, 0);
    assert!(bf.is_ready());
}

#[test]
fn run_cmd_accepts_a_machine_in_any_state() {
    let mut bf = BF::new();
    bf.mem = vec![];
    bf.ptr = 9;
    bf.pc = 40;
    assert_eq!(bf.run_cmd(String::from("++."), PLENTY), Ok(Event::Output { byte: 2, flush: false }));
    assert_eq!(bf.mem, vec![2]);
    assert_eq!(bf.ptr, 0);
    assert_eq!(bf.pc, 3);
}

#[test]
fn syntax_error_keeps_the_tape_of_the_earlier_run() {
    let (mut bf, event) = start("+>++", PLENTY);
    assert_eq!(event, Event::Finished);
    assert!(bf.run_cmd(String::from("]"), PLENTY).is_err());
    assert_eq!(bf.mem, vec![1, 2]);
    assert_eq!(bf.ptr, 1);
    assert_eq!(bf.pc, 4);
    assert!(bf.jumps.is_empty());
    assert_eq!(bf.cmds_str, "]");
}

#[test]
fn finished_machine_stays_finished() {
    let (mut bf, event) = start("+", PLENTY);
    assert_eq!(event, Event::Finished);
    assert_eq!(bf.run(None, PLENTY), Event::Finished);
    assert_eq!(bf.run(Some(7), PLENTY), Event::Finished);
    assert_eq!(bf.mem, vec![1]);
    assert_eq!(bf.pc, 1);
}

#[test]
fn machine_stays_ready_while_it_runs() {
    let (mut bf, mut event) = start("++[>+++[>++++<-]<-]>>.", 1);
    let mut steps = 0;
    while event == Event::Running {
        assert!(bf.is_ready());
        event = bf.run(None, 1);
        steps += 1;
    }
    assert!(bf.is_ready());
    assert_eq!(event, Event::Output { byte: 24, flush: false });
    assert!(steps > 20);
}
