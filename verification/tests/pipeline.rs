use brainfuck::{Interpreter, InterpretError, RuntimeError, StructuralError};

const FUEL: u64 = u64::MAX;

#[test]
fn multiply_loop_round_trip() {
    // Source `++++[->++<]` over an 8-bit, 30000-cell tape: after the run,
    // cell 0 holds 0 and cell 1 holds 8, and nothing was emitted.
    let mut it = Interpreter::new(String::from("++++[->++<]"));
    let m = it.run(Vec::new(), FUEL).unwrap();
    assert_eq!(m.cells[0], 0);
    assert_eq!(m.cells[1], 8);
    assert_eq!(m.output, Vec::<u8>::new());
}

#[test]
fn echo_one_byte() {
    // Source `,.` with the single input byte 65 emits exactly one byte 65.
    let mut it = Interpreter::new(String::from(",."));
    let m = it.run(vec![65], FUEL).unwrap();
    assert_eq!(m.output, vec![65]);
}

#[test]
fn unmatched_opening_bracket_fails_before_execution() {
    // Source `[` alone fails structurally; `exprs` stays empty, so nothing
    // was prepared for execution.
    let mut it = Interpreter::new(String::from("["));
    let r = it.run(Vec::new(), FUEL);
    assert_eq!(
        r.unwrap_err(),
        InterpretError::Parse(StructuralError::UnmatchedOpeningBracket)
    );
    assert!(it.exprs.is_empty());
}

#[test]
fn unmatched_closing_bracket_reports_position_zero() {
    let mut it = Interpreter::new(String::from("]"));
    let r = it.run(Vec::new(), FUEL);
    assert_eq!(
        r.unwrap_err(),
        InterpretError::Parse(StructuralError::UnmatchedClosingBracket { pos: 0 })
    );
}

#[test]
fn unmatched_closing_bracket_position_counts_characters() {
    let mut it = Interpreter::new(String::from("++]"));
    let r = it.run(Vec::new(), FUEL);
    assert_eq!(
        r.unwrap_err(),
        InterpretError::Parse(StructuralError::UnmatchedClosingBracket { pos: 2 })
    );
}

#[test]
fn pointer_underflow_is_detected() {
    // One MoveLeft at pointer 0 fails with a pointer underflow, it does not
    // silently wrap.
    let mut it = Interpreter::new(String::from("<"));
    let r = it.run(Vec::new(), FUEL);
    assert_eq!(
        r.unwrap_err(),
        InterpretError::Runtime(RuntimeError::PointerUnderflow)
    );
}

#[test]
fn pointer_overflow_is_detected() {
    // Moving right to index 30000 leaves the 30000-cell tape.
    let src = ">".repeat(30000);
    let mut it = Interpreter::new(src);
    let r = it.run(Vec::new(), FUEL);
    assert_eq!(
        r.unwrap_err(),
        InterpretError::Runtime(RuntimeError::PointerOverflow)
    );
}

#[test]
fn pointer_can_reach_last_cell() {
    let src = ">".repeat(29999);
    let mut it = Interpreter::new(src);
    let m = it.run(Vec::new(), FUEL).unwrap();
    assert_eq!(m.pointer, 29999);
}

#[test]
fn input_exhausted_is_detected() {
    let mut it = Interpreter::new(String::from(","));
    let r = it.run(Vec::new(), FUEL);
    assert_eq!(
        r.unwrap_err(),
        InterpretError::Runtime(RuntimeError::InputExhausted)
    );
}

#[test]
fn empty_loop_is_a_structural_error() {
    let mut it = Interpreter::new(String::from("+[]"));
    let r = it.run(Vec::new(), FUEL);
    assert_eq!(r.unwrap_err(), InterpretError::Parse(StructuralError::EmptyLoop));
}

#[test]
fn io_only_loop_is_a_structural_error() {
    let mut it = Interpreter::new(String::from("[.]"));
    let r = it.run(Vec::new(), FUEL);
    assert_eq!(r.unwrap_err(), InterpretError::Parse(StructuralError::IoOnlyLoop));
}

#[test]
fn nonterminating_loop_exhausts_the_budget() {
    // The body `-+` leaves the gating cell at 1 forever; the iteration budget
    // reports the loop instead of spinning.
    let mut it = Interpreter::new(String::from("+[-+]"));
    let r = it.run(Vec::new(), 1000);
    assert_eq!(r.unwrap_err(), InterpretError::Runtime(RuntimeError::OutOfFuel));
}

#[test]
fn comments_are_ignored() {
    let mut it = Interpreter::new(String::from("one + and ; two + make > one more +"));
    let m = it.run(Vec::new(), FUEL).unwrap();
    assert_eq!(m.cells[0], 2);
    assert_eq!(m.cells[1], 1);
    assert_eq!(m.pointer, 1);
}

#[test]
fn wrapping_cell_arithmetic() {
    // 300 pluses wrap modulo 256 to 44.
    let src = "+".repeat(300);
    let mut it = Interpreter::new(src);
    let m = it.run(Vec::new(), FUEL).unwrap();
    assert_eq!(m.cells[0], 44);
}

#[test]
fn hello_world_program_runs() {
    let src = "++++++++[>++++[>++>+++>+++>+<<<<-]>+>+>->>+[<]<-]>>.>---.+++++++..+++.>>.<-.<.+++.------.--------.>>+.>++.";
    let mut it = Interpreter::new(String::from(src));
    let m = it.run(Vec::new(), FUEL).unwrap();
    assert_eq!(m.output, b"Hello World!\n".to_vec());
}

#[test]
fn output_longer_than_flush_threshold_is_kept_in_order() {
    // 70 outputs of the same cell: crosses the 64-byte flush threshold.
    let src = format!("{}{}", "+".repeat(65), ".".repeat(70));
    let mut it = Interpreter::new(src);
    let m = it.run(Vec::new(), FUEL).unwrap();
    assert_eq!(m.output, vec![65u8; 70]);
}

#[test]
fn parse_alone_fills_the_tree() {
    let mut it = Interpreter::new(String::from("+-<>.,"));
    it.parse().unwrap();
    assert_eq!(it.exprs.len(), 6);
}
