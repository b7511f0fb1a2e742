use brainfuck::parser::optimize;
use brainfuck::{Expr, Interpreter, Memory, StructuralError};

const FUEL: u64 = u64::MAX;

#[test]
fn single_decrement_collapses_to_make_zero() {
    let mut it = Interpreter::new(String::from("[-]"));
    it.parse().unwrap();
    assert_eq!(it.exprs, vec![Expr::MakeZero]);
}

#[test]
fn single_increment_collapses_to_make_zero() {
    let mut it = Interpreter::new(String::from("[+++]"));
    it.parse().unwrap();
    assert_eq!(it.exprs, vec![Expr::MakeZero]);
}

#[test]
fn single_move_collapses_to_jump_out() {
    let mut it = Interpreter::new(String::from("[>>]"));
    it.parse().unwrap();
    assert_eq!(
        it.exprs,
        vec![Expr::JumpOut(Box::new(Expr::MoveRightCount(2)))]
    );
}

#[test]
fn pointer_neutral_body_becomes_multiply_loop() {
    let mut it = Interpreter::new(String::from("[->++<]"));
    it.parse().unwrap();
    assert_eq!(
        it.exprs,
        vec![Expr::Loop {
            exprs: vec![
                Expr::DecrementCount(1),
                Expr::MoveRightCount(1),
                Expr::IncrementCount(2),
                Expr::MoveLeftCount(1),
            ],
            one_time: true,
        }]
    );
}

#[test]
fn offset_fusion_rewrites_a_straddled_window() {
    // The body is not pointer-neutral (net movement +1), so the fusion scan
    // runs and rewrites `> + <` into one offset operation.
    let mut it = Interpreter::new(String::from("[>+<->]"));
    it.parse().unwrap();
    assert_eq!(
        it.exprs,
        vec![Expr::Loop {
            exprs: vec![
                Expr::OffsetOp { o: 1, v: 1 },
                Expr::DecrementCount(1),
                Expr::MoveRightCount(1),
            ],
            one_time: false,
        }]
    );
}

#[test]
fn zero_and_scatter_fusion_direct() {
    // A unit decrement beside an offset operation fuses, in either order.
    let r = optimize(vec![
        Expr::DecrementCount(1),
        Expr::OffsetOp { o: 2, v: 3 },
    ]);
    assert_eq!(r, Ok(Expr::OffsetMakeZeroOp { o: 2, v: 3 }));
    let r = optimize(vec![
        Expr::OffsetOp { o: -1, v: -4 },
        Expr::DecrementCount(1),
    ]);
    assert_eq!(r, Ok(Expr::OffsetMakeZeroOp { o: -1, v: -4 }));
}

#[test]
fn non_unit_decrement_does_not_scatter() {
    let r = optimize(vec![
        Expr::DecrementCount(2),
        Expr::OffsetOp { o: 2, v: 3 },
    ]);
    assert_eq!(
        r,
        Ok(Expr::Loop {
            exprs: vec![Expr::DecrementCount(2), Expr::OffsetOp { o: 2, v: 3 }],
            one_time: false,
        })
    );
}

#[test]
fn empty_body_is_rejected() {
    assert_eq!(optimize(Vec::new()), Err(StructuralError::EmptyLoop));
}

#[test]
fn single_io_body_is_rejected() {
    assert_eq!(optimize(vec![Expr::Output]), Err(StructuralError::IoOnlyLoop));
}

#[test]
fn optimized_nodes_are_left_unchanged() {
    // Idempotence on concrete values: a body of already-optimized nodes comes
    // back untouched inside a generic loop node.
    let body = vec![
        Expr::MakeZero,
        Expr::JumpOut(Box::new(Expr::MoveLeftCount(1))),
        Expr::OffsetMakeZeroOp { o: 1, v: 1 },
    ];
    let body_again = vec![
        Expr::MakeZero,
        Expr::JumpOut(Box::new(Expr::MoveLeftCount(1))),
        Expr::OffsetMakeZeroOp { o: 1, v: 1 },
    ];
    let r = optimize(body);
    assert_eq!(r, Ok(Expr::Loop { exprs: body_again, one_time: false }));
}

#[test]
fn nested_scopes_optimize_innermost_first() {
    let mut it = Interpreter::new(String::from("[+[-]]"));
    it.parse().unwrap();
    assert_eq!(
        it.exprs,
        vec![Expr::Loop {
            exprs: vec![Expr::IncrementCount(1), Expr::MakeZero],
            one_time: false,
        }]
    );
}

#[test]
fn fused_offset_execution_matches_plain_execution() {
    // The parsed (fused) form of `[>-<->]` runs exactly like the same body
    // built by hand without fusion: one pass zeroes both cells and the new
    // gating cell stops the loop.
    let mut it = Interpreter::new(String::from(">+<+[>-<->]"));
    let m1 = it.run(Vec::new(), FUEL).unwrap();

    let unfused = vec![
        Expr::MoveRightCount(1),
        Expr::IncrementCount(1),
        Expr::MoveLeftCount(1),
        Expr::IncrementCount(1),
        Expr::Loop {
            exprs: vec![
                Expr::MoveRightCount(1),
                Expr::DecrementCount(1),
                Expr::MoveLeftCount(1),
                Expr::DecrementCount(1),
                Expr::MoveRightCount(1),
            ],
            one_time: false,
        },
    ];
    let mut m2 = Memory::new();
    for e in &unfused {
        e.run_effect(&mut m2, FUEL).unwrap();
    }
    assert_eq!(m1.cells[..10], m2.cells[..10]);
    assert_eq!(m1.pointer, m2.pointer);
}

#[test]
fn multiply_loop_against_generic_loop() {
    // The same pointer-neutral body, once as the optimizer's multiply form
    // and once forced generic, reaches the same tape.
    let body = || {
        vec![
            Expr::DecrementCount(1),
            Expr::MoveRightCount(1),
            Expr::IncrementCount(3),
            Expr::MoveLeftCount(1),
        ]
    };
    let mul = Expr::Loop { exprs: body(), one_time: true };
    let gen = Expr::Loop { exprs: body(), one_time: false };

    let mut m1 = Memory::new();
    m1.cells[0] = 7;
    mul.run_effect(&mut m1, FUEL).unwrap();

    let mut m2 = Memory::new();
    m2.cells[0] = 7;
    gen.run_effect(&mut m2, FUEL).unwrap();

    assert_eq!(m1.cells[0], 0);
    assert_eq!(m1.cells[1], 21);
    assert_eq!(m1.cells[..10], m2.cells[..10]);
    assert_eq!(m1.pointer, m2.pointer);
}

#[test]
fn generic_single_step_loop_reaches_zero_like_make_zero() {
    // A generic loop subtracting 3 (coprime to 256) from a cell holding 5
    // wraps round and still ends at 0, exactly as MakeZero leaves it.
    let gen = Expr::Loop { exprs: vec![Expr::DecrementCount(3)], one_time: false };
    let mut m1 = Memory::new();
    m1.cells[0] = 5;
    gen.run_effect(&mut m1, FUEL).unwrap();
    assert_eq!(m1.cells[0], 0);

    let mut m2 = Memory::new();
    m2.cells[0] = 5;
    Expr::MakeZero.run_effect(&mut m2, FUEL).unwrap();
    assert_eq!(m1.cells[..10], m2.cells[..10]);
}

#[test]
fn generic_increment_loop_wraps_round_to_zero() {
    // Adding 3 (coprime to 256) repeatedly also reaches 0 from any start.
    let gen = Expr::Loop { exprs: vec![Expr::IncrementCount(3)], one_time: false };
    let mut m = Memory::new();
    m.cells[0] = 5;
    gen.run_effect(&mut m, FUEL).unwrap();
    assert_eq!(m.cells[0], 0);
}

#[test]
fn even_step_loop_from_odd_start_never_ends() {
    // A step of 2 from an odd start can never reach zero modulo 256, so the
    // loop runs until its iteration budget is gone.
    let gen = Expr::Loop { exprs: vec![Expr::DecrementCount(2)], one_time: false };
    let mut m = Memory::new();
    m.cells[0] = 5;
    assert_eq!(
        gen.run_effect(&mut m, 100000),
        Err(brainfuck::RuntimeError::OutOfFuel)
    );
}

#[test]
fn single_optimized_node_body_stays_a_generic_loop() {
    // The outer scope of `[[-]]` holds one already-optimized node; it falls
    // to the generic loop instead of being rejected.
    let mut it = Interpreter::new(String::from("[[-]]"));
    it.parse().unwrap();
    assert_eq!(
        it.exprs,
        vec![Expr::Loop { exprs: vec![Expr::MakeZero], one_time: false }]
    );
}

#[test]
fn single_offset_node_body_stays_a_generic_loop() {
    let r = optimize(vec![Expr::OffsetOp { o: 1, v: 1 }]);
    assert_eq!(
        r,
        Ok(Expr::Loop {
            exprs: vec![Expr::OffsetOp { o: 1, v: 1 }],
            one_time: false,
        })
    );
}

#[test]
fn zero_offset_pair_is_not_fused() {
    // Scattering into the gating cell itself is not the zero-and-scatter
    // idiom: the pair stays a generic loop, whose execution from gate 3
    // reaches zero after one pass.
    let r = optimize(vec![
        Expr::DecrementCount(1),
        Expr::OffsetOp { o: 0, v: 254 },
    ]);
    let kept = Expr::Loop {
        exprs: vec![Expr::DecrementCount(1), Expr::OffsetOp { o: 0, v: 254 }],
        one_time: false,
    };
    assert_eq!(r, Ok(kept));

    let gen = Expr::Loop {
        exprs: vec![Expr::DecrementCount(1), Expr::OffsetOp { o: 0, v: 254 }],
        one_time: false,
    };
    let mut m = Memory::new();
    m.cells[0] = 3;
    gen.run_effect(&mut m, FUEL).unwrap();
    assert_eq!(m.cells[0], 0);
}

#[test]
fn zero_and_scatter_matches_its_generic_loop() {
    // The fused node and the generic loop it replaces reach the same state.
    let gen = Expr::Loop {
        exprs: vec![Expr::DecrementCount(1), Expr::OffsetOp { o: 2, v: 3 }],
        one_time: false,
    };
    let mut m1 = Memory::new();
    m1.cells[0] = 6;
    m1.cells[2] = 1;
    gen.run_effect(&mut m1, FUEL).unwrap();

    let fused = Expr::OffsetMakeZeroOp { o: 2, v: 3 };
    let mut m2 = Memory::new();
    m2.cells[0] = 6;
    m2.cells[2] = 1;
    fused.run_effect(&mut m2, FUEL).unwrap();

    assert_eq!(m1.cells[..10], m2.cells[..10]);
    assert_eq!(m1.pointer, m2.pointer);
    assert_eq!(m2.cells[0], 0);
    assert_eq!(m2.cells[2], 19);
}

#[test]
fn jump_out_matches_its_generic_loop() {
    let gen = Expr::Loop {
        exprs: vec![Expr::MoveRightCount(2)],
        one_time: false,
    };
    let jump = Expr::JumpOut(Box::new(Expr::MoveRightCount(2)));
    let mut m1 = Memory::new();
    m1.cells[0] = 1;
    m1.cells[2] = 5;
    gen.run_effect(&mut m1, FUEL).unwrap();
    let mut m2 = Memory::new();
    m2.cells[0] = 1;
    m2.cells[2] = 5;
    jump.run_effect(&mut m2, FUEL).unwrap();
    assert_eq!(m1.pointer, m2.pointer);
    assert_eq!(m2.pointer, 4);
    assert_eq!(m1.cells[..10], m2.cells[..10]);
}
