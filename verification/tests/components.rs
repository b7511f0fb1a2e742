use brainfuck::executor::execute;
use brainfuck::{Expr, Memory, Parser, RuntimeError, Token};

const FUEL: u64 = u64::MAX;

#[test]
fn every_command_character_maps_to_its_opcode() {
    assert_eq!(Token::from_char('+'), Token::Plus);
    assert_eq!(Token::from_char('-'), Token::Minus);
    assert_eq!(Token::from_char('<'), Token::Left);
    assert_eq!(Token::from_char('>'), Token::Right);
    assert_eq!(Token::from_char('.'), Token::Dot);
    assert_eq!(Token::from_char(','), Token::Comma);
    assert_eq!(Token::from_char('['), Token::BracketOpen);
    assert_eq!(Token::from_char(']'), Token::BracketClose);
    assert_eq!(Token::from_char('x'), Token::Ignore);
    assert_eq!(Token::from_char(' '), Token::Ignore);
    assert_eq!(Token::convert_to_token('+'), Token::Plus);
    assert_eq!(Token::convert_to_token('~'), Token::Ignore);
}

#[test]
fn tokenize_keeps_input_order_and_length() {
    let tokens = Token::tokenize("+a-]");
    assert_eq!(
        tokens,
        vec![Token::Plus, Token::Ignore, Token::Minus, Token::BracketClose]
    );
}

#[test]
fn from_tokens_folds_runs_locally_only() {
    // `+ + > +` folds the two leading pluses but not across the move.
    let exprs = Expr::from_tokens(vec![
        Token::Plus,
        Token::Plus,
        Token::Right,
        Token::Plus,
    ])
    .unwrap();
    assert_eq!(
        exprs,
        vec![
            Expr::IncrementCount(2),
            Expr::MoveRightCount(1),
            Expr::IncrementCount(1),
        ]
    );
}

#[test]
fn folding_matches_unit_execution() {
    // The folded form of `+++>++` ends in the same cells and pointer as
    // applying each unit opcode individually.
    let folded = Expr::from_tokens(vec![
        Token::Plus,
        Token::Plus,
        Token::Plus,
        Token::Right,
        Token::Plus,
        Token::Plus,
    ])
    .unwrap();
    assert_eq!(
        folded,
        vec![
            Expr::IncrementCount(3),
            Expr::MoveRightCount(1),
            Expr::IncrementCount(2),
        ]
    );
    let mut m1 = Memory::new();
    execute(&folded, &mut m1, FUEL).unwrap();

    let units = vec![
        Expr::IncrementCount(1),
        Expr::IncrementCount(1),
        Expr::IncrementCount(1),
        Expr::MoveRightCount(1),
        Expr::IncrementCount(1),
        Expr::IncrementCount(1),
    ];
    let mut m2 = Memory::new();
    execute(&units, &mut m2, FUEL).unwrap();

    assert_eq!(m1.cells[..4], m2.cells[..4]);
    assert_eq!(m1.pointer, m2.pointer);
    assert_eq!(m1.cells[0], 3);
    assert_eq!(m1.cells[1], 2);
}

#[test]
fn parser_parse_returns_the_tree() {
    let mut p = Parser::new(String::from("+[-]"));
    let exprs = p.parse().unwrap();
    assert_eq!(exprs, vec![Expr::IncrementCount(1), Expr::MakeZero]);
}

#[test]
fn memory_wraps_on_increment_and_decrement() {
    let mut m = Memory::new();
    m.increment_cell(300);
    assert_eq!(m.val(), 44);
    m.decrement_cell(45);
    assert_eq!(m.val(), 255);
}

#[test]
fn memory_moves_the_pointer() {
    let mut m = Memory::new();
    m.move_pointer_right(5);
    assert_eq!(m.pointer, 5);
    m.move_pointer_left(2);
    assert_eq!(m.pointer, 3);
}

#[test]
fn output_buffer_flushes_at_threshold() {
    let mut m = Memory::new();
    m.increment_cell(7);
    for _ in 0..63 {
        m.output_cell();
    }
    // Below the threshold: everything still buffered.
    assert_eq!(m.output.len(), 0);
    assert_eq!(m.output_buffer.len(), 63);
    m.output_cell();
    // The 64th byte forces a flush.
    assert_eq!(m.output, vec![7u8; 64]);
    assert_eq!(m.output_buffer.len(), 0);
    m.output_cell();
    m.flush();
    assert_eq!(m.output, vec![7u8; 65]);
}

#[test]
fn input_cell_consumes_bytes_in_order() {
    let mut m = Memory::new();
    m.input = vec![10, 20];
    assert_eq!(m.input_cell(), Ok(()));
    assert_eq!(m.val(), 10);
    assert_eq!(m.input_cell(), Ok(()));
    assert_eq!(m.val(), 20);
    assert_eq!(m.input_cell(), Err(RuntimeError::InputExhausted));
}

#[test]
fn jump_out_scans_to_the_next_zero_cell() {
    let mut m = Memory::new();
    m.cells[0] = 1;
    m.cells[2] = 1;
    m.cells[4] = 1;
    // Scan right two cells at a time: 0 -> 2 -> 4 -> 6 (cell 6 is zero).
    let scan = Expr::JumpOut(Box::new(Expr::MoveRightCount(2)));
    scan.run_effect(&mut m, FUEL).unwrap();
    assert_eq!(m.pointer, 6);
}

#[test]
fn jump_out_underflow_is_an_error() {
    let mut m = Memory::new();
    m.cells[1] = 1;
    m.pointer = 1;
    let scan = Expr::JumpOut(Box::new(Expr::MoveLeftCount(2)));
    assert_eq!(
        scan.run_effect(&mut m, FUEL),
        Err(RuntimeError::PointerUnderflow)
    );
}

#[test]
fn offset_op_reaches_across_the_pointer() {
    let mut m = Memory::new();
    m.pointer = 3;
    let e = Expr::OffsetOp { o: -2, v: 5 };
    e.run_effect(&mut m, FUEL).unwrap();
    assert_eq!(m.cells[1], 5);
    assert_eq!(m.pointer, 3);
    let e = Expr::OffsetOp { o: 1, v: -3 };
    e.run_effect(&mut m, FUEL).unwrap();
    assert_eq!(m.cells[4], 253);
}

#[test]
fn offset_make_zero_scatters_the_scaled_cell() {
    let mut m = Memory::new();
    m.cells[0] = 6;
    m.cells[2] = 1;
    let e = Expr::OffsetMakeZeroOp { o: 2, v: 3 };
    e.run_effect(&mut m, FUEL).unwrap();
    // Cell zeroed, 6 * 3 added at offset 2.
    assert_eq!(m.cells[0], 0);
    assert_eq!(m.cells[2], 19);
}

#[test]
fn offset_make_zero_on_a_zero_cell_does_nothing() {
    let mut m = Memory::new();
    m.cells[2] = 9;
    let e = Expr::OffsetMakeZeroOp { o: 2, v: 3 };
    e.run_effect(&mut m, FUEL).unwrap();
    assert_eq!(m.cells[2], 9);
}

#[test]
fn effect_and_run_effect_agree() {
    let mut m1 = Memory::new();
    let mut m2 = Memory::new();
    let e = Expr::IncrementCount(9);
    e.run_effect(&mut m1, FUEL).unwrap();
    e.effect(&mut m2, FUEL).unwrap();
    assert_eq!(m1.cells[0], m2.cells[0]);
}
