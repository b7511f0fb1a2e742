use vstd::prelude::*;
use crate::arith::wrap8;
use crate::expr::{is_arith, is_arith_seq, move_step, mul_shape, net_move, Expr};
use crate::parser::{build_from, fuse_from, push_tok, spec_optimize, two_node_shape, window_fuse,
    OptShape};
use crate::semantics::{sem_arith, sem_expr, sem_scaled, sem_seq, MState, Step};
use crate::token::Token;

verus! {

/// The four opcodes the run-length folding law ranges over.
pub open spec fn is_arith_token(t: Token) -> bool {
    match t {
        Token::Plus => true,
        Token::Minus => true,
        Token::Right => true,
        Token::Left => true,
        _ => false,
    }
}

/// Every token of the sequence is an arithmetic/movement opcode.
pub open spec fn arith_tokens(ts: Seq<Token>) -> bool {
    forall|i: int| 0 <= i < ts.len() ==> is_arith_token(#[trigger] ts[i])
}

/// The unit-count instruction of one opcode, before any folding.
pub open spec fn unit_node(t: Token) -> Expr {
    match t {
        Token::Plus => Expr::IncrementCount(1),
        Token::Minus => Expr::DecrementCount(1),
        Token::Right => Expr::MoveRightCount(1),
        Token::Left => Expr::MoveLeftCount(1),
        _ => Expr::Output,
    }
}

/// One unit-count instruction per opcode, in input order.
pub open spec fn units_from(ts: Seq<Token>, i: int) -> Seq<Expr> {
    Seq::new((ts.len() - i) as nat, |j: int| unit_node(ts[i + j]))
}

/// What the builder's folding accumulates over the tokens from position `i`
/// on, starting from the scope contents `cur`.
pub open spec fn fold_run(cur: Seq<Expr>, ts: Seq<Token>, i: int) -> Seq<Expr>
    decreases ts.len() - i,
{
    if i < 0 || i >= ts.len() {
        cur
    } else {
        fold_run(push_tok(cur, ts[i]), ts, i + 1)
    }
}

/// The run-length folded form of a whole token sequence.
pub open spec fn fold_tokens(ts: Seq<Token>) -> Seq<Expr> {
    fold_run(Seq::empty(), ts, 0)
}

/// Running a concatenation is running the first part, then the second from
/// wherever the first ended.
proof fn lemma_sem_seq_append(es1: Seq<Expr>, es2: Seq<Expr>, s: MState, f: nat)
    ensures
        sem_seq(es1 + es2, s, f) == (match sem_seq(es1, s, f) {
            Step::Next(t) => sem_seq(es2, t, f),
            Step::Abort(e) => Step::Abort(e),
        }),
    decreases es1.len(),
{
    if es1.len() == 0 {
        assert(es1 + es2 =~= es2);
    } else {
        assert((es1 + es2)[0] == es1[0]);
        assert((es1 + es2).drop_first() =~= es1.drop_first() + es2);
        match sem_expr(es1[0], s, f) {
            Step::Next(t) => {
                lemma_sem_seq_append(es1.drop_first(), es2, t, f);
            },
            Step::Abort(_) => {
                assert((es1 + es2).len() != 0);
            },
        }
    }
}

/// Folding one opcode onto a scope does not change what running the scope
/// means: the folded form runs exactly like the unfolded form with the unit
/// instruction appended.
proof fn lemma_push_tok_sem(cur: Seq<Expr>, t: Token, s: MState, f: nat)
    requires
        is_arith_token(t),
        s.wf(),
    ensures
        sem_seq(push_tok(cur, t), s, f) == sem_seq(cur.push(unit_node(t)), s, f),
{
    let folded = push_tok(cur, t);
    let unfolded = cur.push(unit_node(t));
    if folded == unfolded {
    } else {
        // A fold happened: the last node carries count m, and the folded form
        // replaces it with count m + 1.
        let pre = cur.drop_last();
        let last = cur.last();
        assert(cur =~= pre + seq![last]);
        assert(folded =~= pre + seq![bump(last)]);
        assert(unfolded =~= pre + seq![last, unit_node(t)]);
        lemma_sem_seq_append(pre, seq![bump(last)], s, f);
        lemma_sem_seq_append(pre, seq![last, unit_node(t)], s, f);
        crate::semantics::lemma_sem_seq_wf(pre, s, f);
        match sem_seq(pre, s, f) {
            Step::Next(u) => {
                lemma_counted_step(last, t, u, f);
            },
            Step::Abort(_) => {},
        }
    }
}

/// The same node with its run-length count one higher.
spec fn bump(e: Expr) -> Expr {
    match e {
        Expr::IncrementCount(n) => Expr::IncrementCount((n + 1) as u32),
        Expr::DecrementCount(n) => Expr::DecrementCount((n + 1) as u32),
        Expr::MoveRightCount(n) => Expr::MoveRightCount((n + 1) as u32),
        Expr::MoveLeftCount(n) => Expr::MoveLeftCount((n + 1) as u32),
        _ => e,
    }
}

/// Running a one-node sequence is running that node.
proof fn lemma_sem_seq_one(e: Expr, s: MState, f: nat)
    ensures
        sem_seq(seq![e], s, f) == (match sem_expr(e, s, f) {
            Step::Next(t) => Step::Next(t),
            Step::Abort(er) => Step::Abort(er),
        }),
{
    assert(seq![e][0] == e);
    assert(seq![e].drop_first().len() == 0);
    match sem_expr(e, s, f) {
        Step::Next(t) => {
            assert(sem_seq(seq![e].drop_first(), t, f) == Step::Next(t));
        },
        Step::Abort(_) => {},
    }
}

/// Running a two-node sequence is running the nodes one after the other.
proof fn lemma_sem_seq_two(a: Expr, b: Expr, s: MState, f: nat)
    ensures
        sem_seq(seq![a, b], s, f) == (match sem_expr(a, s, f) {
            Step::Next(t) => match sem_expr(b, t, f) {
                Step::Next(r) => Step::Next(r),
                Step::Abort(e2) => Step::Abort(e2),
            },
            Step::Abort(e1) => Step::Abort(e1),
        }),
{
    assert(seq![a, b][0] == a);
    assert(seq![a, b].drop_first() =~= seq![b]);
    match sem_expr(a, s, f) {
        Step::Next(t) => {
            lemma_sem_seq_one(b, t, f);
        },
        Step::Abort(_) => {},
    }
}

/// One node of count m + 1 runs exactly like the node of count m followed by
/// one unit node of the same opcode.
proof fn lemma_counted_step(last: Expr, t: Token, u: MState, f: nat)
    requires
        u.wf(),
        crate::parser::fold_count(last) < 0xffff_ffff,
        (last matches Expr::IncrementCount(_) && t == Token::Plus) || (
        last matches Expr::DecrementCount(_) && t == Token::Minus) || (
        last matches Expr::MoveRightCount(_) && t == Token::Right) || (
        last matches Expr::MoveLeftCount(_) && t == Token::Left),
    ensures
        sem_seq(seq![bump(last)], u, f) == sem_seq(seq![last, unit_node(t)], u, f),
{
    let one = seq![bump(last)];
    let two = seq![last, unit_node(t)];
    lemma_sem_seq_one(bump(last), u, f);
    lemma_sem_seq_two(last, unit_node(t), u, f);
    let v = u.cell() as int;
    match last {
        Expr::IncrementCount(n) => {
            assert(bump(last) == Expr::IncrementCount((n + 1) as u32));
            assert(((n + 1) as u32) as int * 1 == n + 1);
            let w1 = u.store(u.ptr, wrap8(v + (n + 1)));
            assert(sem_expr(bump(last), u, f) == Step::Next(w1));
            assert(sem_seq(one, u, f) == Step::Next(w1));
            assert((n as int) * 1 == n as int);
            let wa = u.store(u.ptr, wrap8(v + n));
            assert(sem_expr(last, u, f) == Step::Next(wa));
            assert(wa.cell() == wrap8(v + n));
            assert(wa.ptr == u.ptr);
            let wb = wa.store(wa.ptr, wrap8((wa.cell() as int) + 1 * 1));
            assert(sem_expr(unit_node(t), wa, f) == Step::Next(wb));
            assert(sem_seq(two, u, f) == Step::Next(wb));
            crate::arith::lemma_wrap8_absorb(v + n, 1);
            assert(wrap8((wa.cell() as int) + 1 * 1) == wrap8(v + (n + 1)));
            assert(wb.tape =~= w1.tape);
            assert(wb == w1);
        },
        Expr::DecrementCount(n) => {
            assert(bump(last) == Expr::DecrementCount((n + 1) as u32));
            assert(((n + 1) as u32) as int * 1 == n + 1);
            let w1 = u.store(u.ptr, wrap8(v - (n + 1)));
            assert(sem_expr(bump(last), u, f) == Step::Next(w1));
            assert(sem_seq(one, u, f) == Step::Next(w1));
            assert((n as int) * 1 == n as int);
            let wa = u.store(u.ptr, wrap8(v - n));
            assert(sem_expr(last, u, f) == Step::Next(wa));
            assert(wa.cell() == wrap8(v - n));
            assert(wa.ptr == u.ptr);
            let wb = wa.store(wa.ptr, wrap8((wa.cell() as int) - 1 * 1));
            assert(sem_expr(unit_node(t), wa, f) == Step::Next(wb));
            assert(sem_seq(two, u, f) == Step::Next(wb));
            crate::arith::lemma_wrap8_absorb(v - n, -1);
            assert(wrap8((wa.cell() as int) - 1 * 1) == wrap8(v - (n + 1)));
            assert(wb.tape =~= w1.tape);
            assert(wb == w1);
        },
        Expr::MoveRightCount(n) => {
            assert(bump(last) == Expr::MoveRightCount((n + 1) as u32));
            if u.ptr + n + 1 < u.tape.len() {
                let w1 = u.at(u.ptr + (n + 1));
                assert(sem_seq(one, u, f) == Step::Next(w1));
                let wa = u.at(u.ptr + n);
                assert(sem_expr(last, u, f) == Step::Next(wa));
                assert(wa.cell() == u.tape[u.ptr + n]);
                assert(sem_expr(unit_node(t), wa, f) == Step::Next(wa.at(wa.ptr + 1)));
                assert(wa.at(wa.ptr + 1) == w1);
                assert(sem_seq(two, u, f) == Step::Next(w1));
            } else if u.ptr + n < u.tape.len() {
                assert(sem_seq(one, u, f) == Step::Abort(
                    crate::memory::RuntimeError::PointerOverflow,
                ));
                assert(sem_seq(two, u, f) == Step::Abort(
                    crate::memory::RuntimeError::PointerOverflow,
                ));
            } else {
                assert(sem_seq(one, u, f) == Step::Abort(
                    crate::memory::RuntimeError::PointerOverflow,
                ));
                assert(sem_seq(two, u, f) == Step::Abort(
                    crate::memory::RuntimeError::PointerOverflow,
                ));
            }
        },
        Expr::MoveLeftCount(n) => {
            assert(bump(last) == Expr::MoveLeftCount((n + 1) as u32));
            if n + 1 <= u.ptr {
                let w1 = u.at(u.ptr - (n + 1));
                assert(sem_seq(one, u, f) == Step::Next(w1));
                let wa = u.at(u.ptr - n);
                assert(sem_expr(last, u, f) == Step::Next(wa));
                assert(sem_expr(unit_node(t), wa, f) == Step::Next(wa.at(wa.ptr - 1)));
                assert(wa.at(wa.ptr - 1) == w1);
                assert(sem_seq(two, u, f) == Step::Next(w1));
            } else if n <= u.ptr {
                assert(sem_seq(one, u, f) == Step::Abort(
                    crate::memory::RuntimeError::PointerUnderflow,
                ));
                assert(sem_seq(two, u, f) == Step::Abort(
                    crate::memory::RuntimeError::PointerUnderflow,
                ));
            } else {
                assert(sem_seq(one, u, f) == Step::Abort(
                    crate::memory::RuntimeError::PointerUnderflow,
                ));
                assert(sem_seq(two, u, f) == Step::Abort(
                    crate::memory::RuntimeError::PointerUnderflow,
                ));
            }
        },
        _ => {},
    }
}

/// True of exactly the node forms the peephole optimizer can hand back for a
/// closed scope: the forms an outer scope's body sees as opaque leaves.
pub open spec fn optimized_node(e: Expr) -> bool {
    match e {
        Expr::Loop { .. } => true,
        Expr::MakeZero => true,
        Expr::JumpOut(_) => true,
        Expr::OffsetMakeZeroOp { .. } => true,
        _ => false,
    }
}

/// No fusion window matches inside a body of opaque optimizer outputs.
proof fn lemma_fuse_skips_optimized(b: Seq<Expr>, i: int)
    requires
        forall|j: int| 0 <= j < b.len() ==> optimized_node(#[trigger] b[j]),
    ensures
        fuse_from(b, i) == (b, false),
    decreases b.len() - i,
{
    if i + 2 >= b.len() || i < 0 {
    } else {
        assert(window_fuse(b[i], b[i + 1], b[i + 2]) is None);
        lemma_fuse_skips_optimized(b, i + 1);
    }
}

/// Idempotence of optimization: a scope's body made of already-optimized
/// nodes, treated as opaque leaves, is not altered further — the optimizer
/// wraps it unchanged in a generic loop node.
pub proof fn optimizer_idempotent(body: Seq<Expr>)
    requires
        body.len() >= 1,
        forall|j: int| 0 <= j < body.len() ==> optimized_node(#[trigger] body[j]),
    ensures
        spec_optimize(body) == (OptShape::Loop { body, once: false }),
{
    if body.len() == 1 {
        assert(optimized_node(body[0]));
    } else if body.len() == 2 {
        assert(two_node_shape(body[0], body[1]) is None);
    } else {
        assert(!is_arith(body[0]));
        assert(!is_arith_seq(body));
        lemma_fuse_skips_optimized(body, 0);
    }
}

/// Folding the tokens from position `i` onto the scope `cur` runs exactly
/// like `cur` followed by one unit node per token.
proof fn lemma_fold_run_sem(ts: Seq<Token>, i: int, cur: Seq<Expr>, s: MState, f: nat)
    requires
        arith_tokens(ts),
        0 <= i <= ts.len(),
        s.wf(),
    ensures
        sem_seq(fold_run(cur, ts, i), s, f) == sem_seq(cur + units_from(ts, i), s, f),
    decreases ts.len() - i,
{
    if i >= ts.len() {
        assert(cur + units_from(ts, i) =~= cur);
    } else {
        let t = ts[i];
        let rest = units_from(ts, i + 1);
        lemma_fold_run_sem(ts, i + 1, push_tok(cur, t), s, f);
        lemma_sem_seq_append(push_tok(cur, t), rest, s, f);
        lemma_sem_seq_append(cur.push(unit_node(t)), rest, s, f);
        lemma_push_tok_sem(cur, t, s, f);
        assert(cur.push(unit_node(t)) + rest =~= cur + units_from(ts, i));
    }
}

/// Run-length folding is a pure throughput optimization, not a semantic
/// change: over any bracket-free sequence of arithmetic/movement opcodes, the
/// builder's folded instruction list reaches exactly the cell, pointer and
/// outcome that applying each unit opcode individually reaches.
pub proof fn folding_preserves_semantics(ts: Seq<Token>, s: MState, f: nat)
    requires
        arith_tokens(ts),
        s.wf(),
    ensures
        sem_seq(fold_tokens(ts), s, f) == sem_seq(units_from(ts, 0), s, f),
{
    lemma_fold_run_sem(ts, 0, Seq::empty(), s, f);
    assert(Seq::empty() + units_from(ts, 0) =~= units_from(ts, 0));
}

/// On a bracket-free arithmetic/movement token sequence, the structural
/// builder produces exactly the folded instruction list.
pub proof fn builder_folds_arith(ts: Seq<Token>, out: Result<Seq<Expr>, crate::parser::StructuralError>)
    requires
        arith_tokens(ts),
    ensures
        build_from(ts, 0, Seq::empty(), Seq::empty(), out) <==> out == Ok::<
            Seq<Expr>,
            crate::parser::StructuralError,
        >(fold_tokens(ts)),
{
    lemma_builder_folds_from(ts, 0, Seq::empty(), out);
}

/// The builder on arithmetic tokens never touches the scope stack: from any
/// position it just folds the rest of the tokens onto the current scope.
proof fn lemma_builder_folds_from(
    ts: Seq<Token>,
    i: int,
    cur: Seq<Expr>,
    out: Result<Seq<Expr>, crate::parser::StructuralError>,
)
    requires
        arith_tokens(ts),
        0 <= i <= ts.len(),
    ensures
        build_from(ts, i, Seq::empty(), cur, out) <==> out == Ok::<
            Seq<Expr>,
            crate::parser::StructuralError,
        >(fold_run(cur, ts, i)),
    decreases ts.len() - i,
{
    if i >= ts.len() {
    } else {
        lemma_builder_folds_from(ts, i + 1, push_tok(cur, ts[i]), out);
    }
}

/// An odd square is 1 modulo 8.
proof fn lemma_odd_square_mod8(ni: int)
    requires
        ni % 2 == 1,
    ensures
        (ni * ni) % 8 == 1,
{
    let t = (ni - 1) / 2;
    assert(ni - 1 == 2 * t) by {
        vstd::arithmetic::div_mod::lemma_fundamental_div_mod(ni - 1, 2);
        vstd::arithmetic::div_mod::lemma_sub_mod_noop(ni, 1, 2);
        vstd::arithmetic::div_mod::lemma_small_mod(1nat, 2);
    };
    let h = if t % 2 == 0 {
        (t / 2) * (t + 1)
    } else {
        t * ((t + 1) / 2)
    };
    assert(t * (t + 1) == 2 * h) by {
        if t % 2 == 0 {
            vstd::arithmetic::div_mod::lemma_fundamental_div_mod(t, 2);
            assert(t * (t + 1) == 2 * ((t / 2) * (t + 1))) by (nonlinear_arith)
                requires
                    t == 2 * (t / 2),
            ;
        } else {
            assert(t % 2 == 1) by {
                vstd::arithmetic::div_mod::lemma_mod_division_less_than_divisor(t, 2);
            };
            vstd::arithmetic::div_mod::lemma_fundamental_div_mod(t + 1, 2);
            vstd::arithmetic::div_mod::lemma_add_mod_noop(t, 1, 2);
            vstd::arithmetic::div_mod::lemma_small_mod(1nat, 2);
            assert(t * (t + 1) == 2 * (t * ((t + 1) / 2))) by (nonlinear_arith)
                requires
                    t + 1 == 2 * ((t + 1) / 2),
            ;
        }
    };
    assert(ni * ni == 8 * h + 1) by (nonlinear_arith)
        requires
            ni == 2 * t + 1,
            t * (t + 1) == 2 * h,
    ;
    vstd::arithmetic::div_mod::lemma_mod_multiples_vanish(h, 1, 8);
    vstd::arithmetic::div_mod::lemma_small_mod(1nat, 8);
}

/// Every odd byte has a multiplicative inverse modulo the cell width.
proof fn lemma_odd_has_inverse(n: u8)
    requires
        n % 2 == 1,
    ensures
        exists|m: u8| #[trigger] (((n as int) * (m as int)) % 256) == 1,
{
    let ni = n as int;
    lemma_odd_square_mod8(ni);
    assert((ni * ni) % 8 == 1);
    // Newton lifting: from an inverse modulo 2^3, two squaring steps reach an
    // inverse modulo 2^12, so modulo the cell width too.
    let d = 1 - ni * ni;
    let x1 = ni * (2 - ni * ni);
    let x2 = x1 * (2 - ni * x1);
    assert(d % 8 == 0) by {
        vstd::arithmetic::div_mod::lemma_sub_mod_noop(1, ni * ni, 8);
        vstd::arithmetic::div_mod::lemma_small_mod(1nat, 8);
        assert((1 - ni * ni) % 8 == (1 - 1) % 8);
    };
    let e = d / 8;
    assert(d == 8 * e) by {
        vstd::arithmetic::div_mod::lemma_fundamental_div_mod(d, 8);
    };
    assert(1 - ni * x2 == 256 * (16 * (e * e * e * e))) by (nonlinear_arith)
        requires
            x1 == ni * (2 - ni * ni),
            x2 == x1 * (2 - ni * x1),
            d == 1 - ni * ni,
            d == 8 * e,
    ;
    assert((ni * x2) % 256 == 1) by {
        assert(ni * x2 == 256 * (-(16 * (e * e * e * e))) + 1);
        vstd::arithmetic::div_mod::lemma_mod_multiples_vanish(-(16 * (e * e * e * e)), 1, 256);
        vstd::arithmetic::div_mod::lemma_small_mod(1nat, 256);
    };
    let mm = x2 % 256;
    assert(0 <= mm < 256) by {
        vstd::arithmetic::div_mod::lemma_mod_division_less_than_divisor(x2, 256);
    };
    let m = mm as u8;
    assert((ni * (m as int)) % 256 == 1) by {
        vstd::arithmetic::div_mod::lemma_mul_mod_noop_right(ni, x2, 256);
    };
}

/// A loop whose body is a single increment or decrement of step `n` (`sg`
/// gives the sign) drives its gating cell to zero after exactly the number of
/// passes the congruence in the precondition names, and touches nothing else.
proof fn lemma_single_step_loop(e: Expr, body: Seq<Expr>, n: u32, sg: int, s: MState, f: nat, k: nat)
    requires
        s.wf(),
        sg == 1 || sg == -1,
        e matches Expr::Loop { exprs, one_time } && exprs@ == body && one_time == false,
        body.len() == 1,
        body[0] == (if sg == 1 {
            Expr::IncrementCount(n)
        } else {
            Expr::DecrementCount(n)
        }),
        ((s.cell() as int) + sg * ((k as int) * (n as int))) % 256 == 0,
        f >= k,
    ensures
        sem_expr(e, s, f) == Step::Next(s.store(s.ptr, 0)),
    decreases k,
{
    let v = s.cell() as int;
    if s.cell() == 0 {
        assert(s.tape.update(s.ptr, 0) =~= s.tape);
        assert(s.store(s.ptr, 0) == s);
    } else {
        assert(k != 0) by {
            if k == 0 {
                assert(sg * ((k as int) * (n as int)) == 0) by (nonlinear_arith)
                    requires
                        k == 0,
                ;
                assert(v % 256 == 0);
                vstd::arithmetic::div_mod::lemma_small_mod(s.cell() as nat, 256);
                assert(false);
            }
        };
        let t = s.store(s.ptr, wrap8(v + sg * (n as int)));
        let f1 = (f - 1) as nat;
        assert(sem_expr(body[0], s, f1) == Step::Next(t)) by {
            if sg == 1 {
                assert(body[0] == Expr::IncrementCount(n));
                assert(sem_expr(body[0], s, f1) == sem_arith(body[0], s, 1));
                assert((n as int) * 1 == n as int);
                assert(sem_arith(body[0], s, 1) == Step::Next(
                    s.store(s.ptr, wrap8(v + (n as int) * 1)),
                ));
                assert(sg * (n as int) == (n as int) * 1) by (nonlinear_arith)
                    requires
                        sg == 1,
                ;
                assert(wrap8(v + (n as int) * 1) == wrap8(v + sg * (n as int)));
            } else {
                assert(body[0] == Expr::DecrementCount(n));
                assert(sem_expr(body[0], s, f1) == sem_arith(body[0], s, 1));
                assert((n as int) * 1 == n as int);
                assert(sem_arith(body[0], s, 1) == Step::Next(
                    s.store(s.ptr, wrap8(v - (n as int) * 1)),
                ));
                assert(sg * (n as int) == -((n as int) * 1)) by (nonlinear_arith)
                    requires
                        sg == -1,
                ;
                assert(wrap8(v - (n as int) * 1) == wrap8(v + sg * (n as int)));
            }
        };
        assert(sem_seq(body, s, f1) == Step::Next(t)) by {
            assert(body.drop_first().len() == 0);
            assert(sem_seq(body.drop_first(), t, f1) == Step::Next(t));
        };
        assert(sem_expr(e, s, f) == sem_expr(e, t, f1));
        assert(((t.cell() as int) + sg * (((k - 1) as int) * (n as int))) % 256 == 0) by {
            let a = v + sg * (n as int);
            assert(t.cell() as int == a % 256);
            vstd::arithmetic::div_mod::lemma_add_mod_noop_right(
                sg * (((k - 1) as int) * (n as int)),
                a,
                256,
            );
            assert(a + sg * (((k - 1) as int) * (n as int)) == v + sg * ((k as int) * (n
                as int))) by (nonlinear_arith)
                requires
                    a == v + sg * (n as int),
                    k >= 1,
            ;
        };
        lemma_single_step_loop(e, body, n, sg, t, f1, (k - 1) as nat);
        assert(t.tape.update(t.ptr, 0) =~= s.tape.update(s.ptr, 0));
        assert(t.store(t.ptr, 0) == s.store(s.ptr, 0));
    }
}

/// There is an iteration count, below the cell modulus, after which a
/// single-step loop's gate reaches zero: the congruence `cell + sg·k·n ≡ 0`
/// has a solution whenever the step is coprime to the modulus.
proof fn lemma_countdown_exists(v: u8, n: u32, sg: int) -> (k: nat)
    requires
        n % 2 == 1,
        sg == 1 || sg == -1,
    ensures
        k <= 255,
        ((v as int) + sg * ((k as int) * (n as int))) % 256 == 0,
{
    let n8 = (n % 256) as u8;
    assert(n8 % 2 == 1) by {
        vstd::arithmetic::div_mod::lemma_mod_mod(n as int, 2, 128);
    };
    lemma_odd_has_inverse(n8);
    let m = choose|m: u8| #[trigger] (((n8 as int) * (m as int)) % 256) == 1;
    let target: int = if sg == 1 {
        (256 - (v as int)) % 256
    } else {
        v as int
    };
    assert(0 <= target < 256) by {
        vstd::arithmetic::div_mod::lemma_mod_division_less_than_divisor(256 - (v as int), 256);
    };
    let k_int = (target * (m as int)) % 256;
    assert(0 <= k_int < 256) by {
        vstd::arithmetic::div_mod::lemma_mod_division_less_than_divisor(target * (m as int), 256);
    };
    let k = k_int as nat;
    assert(((k as int) * (n as int)) % 256 == target % 256) by {
        let ni = n as int;
        let mi = m as int;
        let n8i = n8 as int;
        // k·n ≡ target·m·n ≡ target·m·n8 ≡ target·(m·n8) ≡ target (mod 256).
        vstd::arithmetic::div_mod::lemma_mul_mod_noop_left(target * mi, ni, 256);
        assert((k_int * ni) % 256 == ((target * mi) * ni) % 256);
        vstd::arithmetic::div_mod::lemma_mul_mod_noop_right(target * mi, ni, 256);
        assert(((target * mi) * (ni % 256)) % 256 == ((target * mi) * ni) % 256);
        assert(ni % 256 == n8i);
        assert((target * mi) * n8i == target * (mi * n8i)) by (nonlinear_arith);
        vstd::arithmetic::div_mod::lemma_mul_mod_noop_right(target, mi * n8i, 256);
        assert((target * ((mi * n8i) % 256)) % 256 == (target * (mi * n8i)) % 256);
        assert((mi * n8i) % 256 == 1) by {
            vstd::arithmetic::mul::lemma_mul_is_commutative(mi, n8i);
        };
    };
    assert(((v as int) + sg * ((k as int) * (n as int))) % 256 == 0) by {
        let vi = v as int;
        let kn = (k as int) * (n as int);
        assert(kn % 256 == target) by {
            vstd::arithmetic::div_mod::lemma_small_mod(target as nat, 256);
        };
        if sg == 1 {
            assert(vi + sg * kn == vi + kn);
            vstd::arithmetic::div_mod::lemma_add_mod_noop_right(vi, kn, 256);
            assert((vi + target) % 256 == 0) by {
                if v == 0 {
                    assert(target == 0) by {
                        vstd::arithmetic::div_mod::lemma_mod_multiples_basic(1, 256);
                    };
                    vstd::arithmetic::div_mod::lemma_small_mod(0nat, 256);
                } else {
                    assert(target == 256 - vi) by {
                        vstd::arithmetic::div_mod::lemma_small_mod((256 - vi) as nat, 256);
                    };
                    vstd::arithmetic::div_mod::lemma_mod_multiples_basic(1, 256);
                }
            };
        } else {
            assert(vi + sg * kn == vi - kn);
            vstd::arithmetic::div_mod::lemma_sub_mod_noop_right(vi, kn, 256);
            assert(target == vi);
            vstd::arithmetic::div_mod::lemma_small_mod(0nat, 256);
        }
    };
    k
}

/// `MakeZero` equivalence: a loop whose body is one increment or decrement
/// with a step coprime to the cell modulus terminates, given at least the
/// modulus as iteration budget, and leaves the gating cell at zero with the
/// rest of the state untouched — exactly the effect of a `MakeZero` node.
pub proof fn make_zero_equivalence(e: Expr, s: MState, f: nat)
    requires
        s.wf(),
        f >= 256,
        e matches Expr::Loop { exprs, one_time } && one_time == false && exprs@.len() == 1 && (
        (exprs@[0] matches Expr::IncrementCount(n) && n % 2 == 1) || (
        exprs@[0] matches Expr::DecrementCount(n) && n % 2 == 1)),
    ensures
        sem_expr(e, s, f) == Step::Next(s.store(s.ptr, 0)),
        sem_expr(Expr::MakeZero, s, f) == Step::Next(s.store(s.ptr, 0)),
{
    match e {
        Expr::Loop { exprs, one_time } => {
            let body = exprs@;
            match body[0] {
                Expr::IncrementCount(n) => {
                    let k = lemma_countdown_exists(s.cell(), n, 1);
                    lemma_single_step_loop(e, body, n, 1, s, f, k);
                },
                Expr::DecrementCount(n) => {
                    let k = lemma_countdown_exists(s.cell(), n, -1);
                    lemma_single_step_loop(e, body, n, -1, s, f, k);
                },
                _ => {
                    assert(false);
                },
            }
        },
        _ => {
            assert(false);
        },
    }
}

/// Where the pointer first leaves the tape during one pass over an
/// arithmetic/movement body, if anywhere: determined by the starting pointer
/// and the tape length alone.
spec fn walk_err(body: Seq<Expr>, p: int, len: int) -> Option<crate::memory::RuntimeError>
    decreases body.len(),
{
    if body.len() == 0 {
        None
    } else {
        match body[0] {
            Expr::MoveRightCount(n) => if p + n < len {
                walk_err(body.drop_first(), p + n, len)
            } else {
                Some(crate::memory::RuntimeError::PointerOverflow)
            },
            Expr::MoveLeftCount(n) => if n <= p {
                walk_err(body.drop_first(), p - n, len)
            } else {
                Some(crate::memory::RuntimeError::PointerUnderflow)
            },
            _ => walk_err(body.drop_first(), p, len),
        }
    }
}

/// The signed cell delta one pass over the body applies at relative offset
/// `o` from the starting pointer.
spec fn net_delta(body: Seq<Expr>, o: int) -> int
    decreases body.len(),
{
    if body.len() == 0 {
        0
    } else {
        match body[0] {
            Expr::IncrementCount(n) => (if o == 0 { n as int } else { 0 }) + net_delta(
                body.drop_first(),
                o,
            ),
            Expr::DecrementCount(n) => (if o == 0 { -(n as int) } else { 0 }) + net_delta(
                body.drop_first(),
                o,
            ),
            Expr::MoveRightCount(n) => net_delta(body.drop_first(), o - n),
            Expr::MoveLeftCount(n) => net_delta(body.drop_first(), o + n),
            _ => net_delta(body.drop_first(), o),
        }
    }
}

/// The state after one pass over an arithmetic/movement body with every cell
/// delta scaled by `m`: each cell moved by `m` times its per-pass delta, the
/// pointer moved by the body's net movement, input and output untouched.
spec fn scaled_result(body: Seq<Expr>, s: MState, m: nat) -> MState {
    MState {
        tape: Seq::new(s.tape.len(), |a: int| wrap8(s.tape[a] + m * net_delta(body, a - s.ptr))),
        ptr: s.ptr + net_move(body),
        inp: s.inp,
        out: s.out,
    }
}

/// Characterizes a scaled pass: it fails exactly where the movement walk
/// leaves the tape, and otherwise produces `scaled_result`.
proof fn lemma_scaled_walk(body: Seq<Expr>, s: MState, m: nat)
    requires
        is_arith_seq(body),
        s.wf(),
    ensures
        walk_err(body, s.ptr, s.tape.len() as int) matches Some(e) ==> sem_scaled(body, s, m)
            == Step::Abort(e),
        walk_err(body, s.ptr, s.tape.len() as int) is None ==> sem_scaled(body, s, m)
            == Step::Next(scaled_result(body, s, m)),
    decreases body.len(),
{
    let len = s.tape.len() as int;
    if body.len() == 0 {
        assert(scaled_result(body, s, m).tape =~= s.tape) by {
            assert forall|a: int| 0 <= a < s.tape.len() implies scaled_result(body, s, m).tape[a]
                == s.tape[a] by {
                assert(net_delta(body, a - s.ptr) == 0);
                vstd::arithmetic::div_mod::lemma_small_mod(s.tape[a] as nat, 256);
            };
        };
        assert(scaled_result(body, s, m) == s);
    } else {
        let rest = body.drop_first();
        assert(is_arith(body[0]));
        match body[0] {
            Expr::IncrementCount(n) => {
                let t = s.store(s.ptr, wrap8(s.cell() + n * m));
                assert(sem_arith(body[0], s, m) == Step::Next(t));
                lemma_scaled_walk(rest, t, m);
                assert(walk_err(body, s.ptr, len) == walk_err(rest, t.ptr, len));
                if walk_err(rest, t.ptr, len) is None {
                    assert((n as int) * (m as int) == (m as int) * (n as int))
                        by (nonlinear_arith);
                    lemma_delta_merge_arith(body, rest, s, t, m, n as int, 1);
                }
            },
            Expr::DecrementCount(n) => {
                let t = s.store(s.ptr, wrap8(s.cell() - n * m));
                assert(sem_arith(body[0], s, m) == Step::Next(t));
                lemma_scaled_walk(rest, t, m);
                assert(walk_err(body, s.ptr, len) == walk_err(rest, t.ptr, len));
                if walk_err(rest, t.ptr, len) is None {
                    assert((m as int) * (-(n as int)) == -((n as int) * (m as int)))
                        by (nonlinear_arith);
                    lemma_delta_merge_arith(body, rest, s, t, m, -(n as int), -1);
                }
            },
            Expr::MoveRightCount(n) => {
                if s.ptr + n < len {
                    let t = s.at(s.ptr + n);
                    assert(sem_arith(body[0], s, m) == Step::Next(t));
                    lemma_scaled_walk(rest, t, m);
                    if walk_err(rest, t.ptr, len) is None {
                        lemma_delta_merge_move(body, rest, s, t, m);
                    }
                }
            },
            Expr::MoveLeftCount(n) => {
                if n <= s.ptr {
                    let t = s.at(s.ptr - n);
                    assert(sem_arith(body[0], s, m) == Step::Next(t));
                    lemma_scaled_walk(rest, t, m);
                    if walk_err(rest, t.ptr, len) is None {
                        lemma_delta_merge_move(body, rest, s, t, m);
                    }
                }
            },
            _ => {},
        }
    }
}

/// Merges the first arithmetic node's scaled delta into the rest of the
/// pass's result: `sd` is the node's signed unit delta at the pointer, and
/// the first step stored `wrap8(cell + m·sd)` there.
proof fn lemma_delta_merge_arith(
    body: Seq<Expr>,
    rest: Seq<Expr>,
    s: MState,
    t: MState,
    m: nat,
    sd: int,
    sgn: int,
)
    requires
        body.len() > 0,
        rest == body.drop_first(),
        (body[0] matches Expr::IncrementCount(n) && sd == n as int && sgn == 1) || (
        body[0] matches Expr::DecrementCount(n) && sd == -(n as int) && sgn == -1),
        s.wf(),
        t == s.store(s.ptr, wrap8(s.cell() + m * sd)),
    ensures
        scaled_result(rest, t, m) == scaled_result(body, s, m),
{
    assert(t.ptr == s.ptr);
    assert(net_move(body) == net_move(rest));
    assert(scaled_result(rest, t, m).tape =~= scaled_result(body, s, m).tape) by {
        assert forall|a: int| 0 <= a < s.tape.len() implies scaled_result(rest, t, m).tape[a]
            == scaled_result(body, s, m).tape[a] by {
            if a == s.ptr {
                assert(net_delta(body, 0) == sd + net_delta(rest, 0));
                assert(t.tape[a] == wrap8(s.tape[a] + m * sd));
                crate::arith::lemma_wrap8_absorb(
                    s.tape[a] + m * sd,
                    m * net_delta(rest, 0),
                );
                assert(m * sd + m * net_delta(rest, 0) == m * (sd + net_delta(rest, 0)))
                    by (nonlinear_arith);
                assert(wrap8(t.tape[a] + m * net_delta(rest, a - t.ptr)) == wrap8(
                    s.tape[a] + m * net_delta(body, a - s.ptr),
                ));
            } else {
                assert(t.tape[a] == s.tape[a]);
                assert(net_delta(body, a - s.ptr) == net_delta(rest, a - t.ptr));
            }
        };
    };
}

/// Merges the first movement node into the rest of the pass's result: the
/// deltas of the rest are read at offsets shifted by the move, and the net
/// movement adds up.
proof fn lemma_delta_merge_move(body: Seq<Expr>, rest: Seq<Expr>, s: MState, t: MState, m: nat)
    requires
        body.len() > 0,
        rest == body.drop_first(),
        body[0] matches Expr::MoveRightCount(_) || body[0] matches Expr::MoveLeftCount(_),
        t == s.at(s.ptr + move_step(body[0])),
    ensures
        scaled_result(rest, t, m) == scaled_result(body, s, m),
{
    assert(net_move(body) == move_step(body[0]) + net_move(rest));
    assert(scaled_result(rest, t, m).tape =~= scaled_result(body, s, m).tape) by {
        assert forall|a: int| 0 <= a < s.tape.len() implies scaled_result(rest, t, m).tape[a]
            == scaled_result(body, s, m).tape[a] by {
            assert(net_delta(body, a - s.ptr) == net_delta(rest, a - t.ptr));
        };
    };
}

/// Over an arithmetic/movement body, fuel plays no part and plain execution
/// is the scaled pass with multiplier one.
proof fn lemma_seq_is_scaled_one(body: Seq<Expr>, s: MState, f: nat)
    requires
        is_arith_seq(body),
    ensures
        sem_seq(body, s, f) == sem_scaled(body, s, 1),
    decreases body.len(),
{
    if body.len() == 0 {
    } else {
        assert(is_arith(body[0]));
        assert(sem_expr(body[0], s, f) == sem_arith(body[0], s, 1));
        match sem_arith(body[0], s, 1) {
            Step::Next(t) => {
                lemma_seq_is_scaled_one(body.drop_first(), t, f);
            },
            Step::Abort(_) => {},
        }
    }
}

/// Exactly `k` passes of the generic loop form over a loop-free body: each
/// pass runs the whole body, and the first failure stops the run.
pub open spec fn iterate_body(body: Seq<Expr>, s: MState, k: nat) -> Step
    decreases k,
{
    if k == 0 {
        Step::Next(s)
    } else {
        match sem_seq(body, s, 0) {
            Step::Next(t) => iterate_body(body, t, (k - 1) as nat),
            Step::Abort(e) => Step::Abort(e),
        }
    }
}

/// For a pointer-neutral body, `k` generic passes equal one scaled pass with
/// multiplier `k`, provided at least one pass runs.
proof fn lemma_iterate_is_scaled(body: Seq<Expr>, s: MState, k: nat)
    requires
        mul_shape(body),
        s.wf(),
        k >= 1,
    ensures
        iterate_body(body, s, k) == sem_scaled(body, s, k),
    decreases k,
{
    let len = s.tape.len() as int;
    lemma_seq_is_scaled_one(body, s, 0);
    lemma_scaled_walk(body, s, 1);
    lemma_scaled_walk(body, s, k);
    match walk_err(body, s.ptr, len) {
        Some(_) => {
            assert(iterate_body(body, s, k) == sem_seq(body, s, 0));
        },
        None => {
            let t1 = scaled_result(body, s, 1);
            assert(sem_seq(body, s, 0) == Step::Next(t1));
            assert(t1.ptr == s.ptr);
            assert(t1.tape.len() == s.tape.len());
            if k == 1 {
                assert(iterate_body(body, t1, 0) == Step::Next(t1));
                assert(scaled_result(body, s, 1) == t1);
            } else {
                lemma_iterate_is_scaled(body, t1, (k - 1) as nat);
                lemma_scaled_walk(body, t1, (k - 1) as nat);
                assert(walk_err(body, t1.ptr, len) is None);
                let t2 = scaled_result(body, t1, (k - 1) as nat);
                assert(iterate_body(body, s, k) == Step::Next(t2));
                assert(t2.tape =~= scaled_result(body, s, k).tape) by {
                    assert forall|a: int| 0 <= a < s.tape.len() implies t2.tape[a]
                        == scaled_result(body, s, k).tape[a] by {
                        let d = net_delta(body, a - s.ptr);
                        assert(t1.tape[a] == wrap8(s.tape[a] + 1 * d));
                        crate::arith::lemma_wrap8_absorb(
                            s.tape[a] + 1 * d,
                            ((k - 1) as nat) * d,
                        );
                        assert(1 * d + ((k - 1) as nat) * d == k * d) by (nonlinear_arith)
                            requires
                                k >= 1,
                        ;
                    };
                };
                assert(t2 == scaled_result(body, s, k));
            }
        },
    }
}

/// Equivalence law for the multiply specialization: on a pointer-neutral
/// arithmetic/movement body, a loop node marked `one_time` means exactly `k`
/// generic passes over the body, where `k` is the gating cell's value when
/// the loop is entered — including the case `k == 0`, where the loop
/// contributes nothing, and any pass that leaves the tape, which fails both
/// ways alike.
pub proof fn multiply_once_equivalence(e: Expr, body: Seq<Expr>, s: MState, f: nat)
    requires
        e matches Expr::Loop { exprs, one_time } && exprs@ == body && one_time == true,
        mul_shape(body),
        s.wf(),
    ensures
        sem_expr(e, s, f) == iterate_body(body, s, s.cell() as nat),
{
    if s.cell() == 0 {
    } else {
        lemma_iterate_is_scaled(body, s, s.cell() as nat);
    }
}

/// Running a three-node sequence is running the nodes one after the other.
proof fn lemma_sem_seq_three(a: Expr, b: Expr, c: Expr, s: MState, f: nat)
    ensures
        sem_seq(seq![a, b, c], s, f) == (match sem_expr(a, s, f) {
            Step::Next(t1) => match sem_expr(b, t1, f) {
                Step::Next(t2) => match sem_expr(c, t2, f) {
                    Step::Next(t3) => Step::Next(t3),
                    Step::Abort(e3) => Step::Abort(e3),
                },
                Step::Abort(e2) => Step::Abort(e2),
            },
            Step::Abort(e1) => Step::Abort(e1),
        }),
{
    assert(seq![a, b, c][0] == a);
    assert(seq![a, b, c].drop_first() =~= seq![b, c]);
    match sem_expr(a, s, f) {
        Step::Next(t1) => {
            lemma_sem_seq_two(b, c, t1, f);
        },
        Step::Abort(_) => {},
    }
}

/// Equivalence law for the tape-scan rewrite: a `JumpOut` node means exactly
/// what the generic loop over its single movement node means, at every fuel —
/// the same scan, the same bounds error, the same budget exhaustion.
pub proof fn jump_out_equivalence(gen: Expr, jump: Expr, mv: Expr, s: MState, f: nat)
    requires
        mv matches Expr::MoveLeftCount(_) || mv matches Expr::MoveRightCount(_),
        gen matches Expr::Loop { exprs, one_time } && exprs@ == seq![mv] && one_time == false,
        jump matches Expr::JumpOut(inner) && *inner == mv,
    ensures
        sem_expr(jump, s, f) == sem_expr(gen, s, f),
    decreases f,
{
    if s.cell() == 0 {
    } else if f == 0 {
    } else {
        lemma_sem_seq_one(mv, s, (f - 1) as nat);
        assert(sem_expr(mv, s, (f - 1) as nat) == sem_arith(mv, s, 1));
        match sem_arith(mv, s, 1) {
            Step::Next(t) => {
                jump_out_equivalence(gen, jump, mv, t, (f - 1) as nat);
            },
            Step::Abort(_) => {},
        }
    }
}

/// Equivalence law for the offset-fusion window: whenever three nodes match a
/// fusable window, the `OffsetOp` the fusion produces means exactly what the
/// three nodes in sequence mean — the same cell change at the same absolute
/// index, the pointer back where it started, and the same bounds error when
/// the straddled index leaves the tape.
pub proof fn window_fusion_equivalence(a: Expr, b: Expr, c: Expr, op: Expr, s: MState, f: nat)
    requires
        window_fuse(a, b, c) == Some(op),
        s.wf(),
    ensures
        sem_seq(seq![a, b, c], s, f) == sem_expr(op, s, f),
{
    lemma_sem_seq_three(a, b, c, s, f);
    match (a, b, c) {
        (Expr::MoveLeftCount(x), Expr::DecrementCount(n), Expr::MoveRightCount(y)) => {
            let xi = x as int;
            let ni = n as int;
            assert(op == (Expr::OffsetOp {
                o: (-(xi)) as i32,
                v: (-(ni)) as i32,
            }));
            assert(((-(xi)) as i32) as int == -xi);
            assert(((-(ni)) as i32) as int == -ni);
            if xi <= s.ptr {
                let t1 = s.at(s.ptr - xi);
                assert(sem_expr(a, s, f) == Step::Next(t1));
                assert((n as int) * 1 == ni);
                let t2 = t1.store(t1.ptr, wrap8(t1.cell() - ni));
                assert(sem_expr(b, t1, f) == Step::Next(t2));
                assert(t2.ptr + y < t2.tape.len());
                let t3 = t2.at(t2.ptr + y);
                assert(sem_expr(c, t2, f) == Step::Next(t3));
                assert(t3 == s.store(s.ptr - xi, wrap8(s.tape[s.ptr - xi] + (-ni))));
                assert(sem_expr(op, s, f) == Step::Next(t3));
            } else {
                assert(sem_expr(a, s, f) == Step::Abort(
                    crate::memory::RuntimeError::PointerUnderflow,
                ));
                assert(s.ptr + (-xi) < 0);
            }
        },
        (Expr::MoveLeftCount(x), Expr::IncrementCount(n), Expr::MoveRightCount(y)) => {
            let xi = x as int;
            let ni = n as int;
            assert(op == (Expr::OffsetOp { o: (-(xi)) as i32, v: n as i32 }));
            assert(((-(xi)) as i32) as int == -xi);
            assert((n as i32) as int == ni);
            if xi <= s.ptr {
                let t1 = s.at(s.ptr - xi);
                assert(sem_expr(a, s, f) == Step::Next(t1));
                assert((n as int) * 1 == ni);
                let t2 = t1.store(t1.ptr, wrap8(t1.cell() + ni));
                assert(sem_expr(b, t1, f) == Step::Next(t2));
                assert(t2.ptr + y < t2.tape.len());
                let t3 = t2.at(t2.ptr + y);
                assert(sem_expr(c, t2, f) == Step::Next(t3));
                assert(t3 == s.store(s.ptr - xi, wrap8(s.tape[s.ptr - xi] + ni)));
                assert(sem_expr(op, s, f) == Step::Next(t3));
            } else {
                assert(sem_expr(a, s, f) == Step::Abort(
                    crate::memory::RuntimeError::PointerUnderflow,
                ));
                assert(s.ptr + (-xi) < 0);
            }
        },
        (Expr::MoveRightCount(x), Expr::DecrementCount(n), Expr::MoveLeftCount(y)) => {
            let xi = x as int;
            let ni = n as int;
            assert(op == (Expr::OffsetOp { o: x as i32, v: (-(ni)) as i32 }));
            assert((x as i32) as int == xi);
            assert(((-(ni)) as i32) as int == -ni);
            if s.ptr + xi < s.tape.len() {
                let t1 = s.at(s.ptr + xi);
                assert(sem_expr(a, s, f) == Step::Next(t1));
                assert((n as int) * 1 == ni);
                let t2 = t1.store(t1.ptr, wrap8(t1.cell() - ni));
                assert(sem_expr(b, t1, f) == Step::Next(t2));
                assert(y <= t2.ptr);
                let t3 = t2.at(t2.ptr - y);
                assert(sem_expr(c, t2, f) == Step::Next(t3));
                assert(t3 == s.store(s.ptr + xi, wrap8(s.tape[s.ptr + xi] + (-ni))));
                assert(sem_expr(op, s, f) == Step::Next(t3));
            } else {
                assert(sem_expr(a, s, f) == Step::Abort(
                    crate::memory::RuntimeError::PointerOverflow,
                ));
                assert(s.ptr + xi >= s.tape.len());
            }
        },
        (Expr::MoveRightCount(x), Expr::IncrementCount(n), Expr::MoveLeftCount(y)) => {
            let xi = x as int;
            let ni = n as int;
            assert(op == (Expr::OffsetOp { o: x as i32, v: n as i32 }));
            assert((x as i32) as int == xi);
            assert((n as i32) as int == ni);
            if s.ptr + xi < s.tape.len() {
                let t1 = s.at(s.ptr + xi);
                assert(sem_expr(a, s, f) == Step::Next(t1));
                assert((n as int) * 1 == ni);
                let t2 = t1.store(t1.ptr, wrap8(t1.cell() + ni));
                assert(sem_expr(b, t1, f) == Step::Next(t2));
                assert(y <= t2.ptr);
                let t3 = t2.at(t2.ptr - y);
                assert(sem_expr(c, t2, f) == Step::Next(t3));
                assert(t3 == s.store(s.ptr + xi, wrap8(s.tape[s.ptr + xi] + ni)));
                assert(sem_expr(op, s, f) == Step::Next(t3));
            } else {
                assert(sem_expr(a, s, f) == Step::Abort(
                    crate::memory::RuntimeError::PointerOverflow,
                ));
                assert(s.ptr + xi >= s.tape.len());
            }
        },
        _ => {},
    }
}

/// A generic loop whose body decrements the gating cell by one and adds `v`
/// at a nonzero offset terminates, and its final state is the final state of
/// the fused node.
proof fn lemma_scatter_loop(gen: Expr, body: Seq<Expr>, o: i32, v: i32, s: MState, f: nat)
    requires
        gen matches Expr::Loop { exprs, one_time } && exprs@ == body && one_time == false,
        body == seq![Expr::DecrementCount(1), Expr::OffsetOp { o, v }] || body == seq![
            Expr::OffsetOp { o, v },
            Expr::DecrementCount(1),
        ],
        o != 0,
        s.wf(),
        f >= s.cell(),
    ensures
        sem_expr(gen, s, f) == sem_expr(Expr::OffsetMakeZeroOp { o, v }, s, f),
    decreases s.cell(),
{
    let node = Expr::OffsetMakeZeroOp { o, v };
    let w = s.cell();
    let wi = w as int;
    let a = s.ptr + o;
    let dec = Expr::DecrementCount(1);
    let ofs = Expr::OffsetOp { o, v };
    if w == 0 {
    } else {
        let f1 = (f - 1) as nat;
        if body == seq![dec, ofs] {
            lemma_sem_seq_two(dec, ofs, s, f1);
        } else {
            lemma_sem_seq_two(ofs, dec, s, f1);
        }
        assert((1u32 as int) * 1 == 1);
        vstd::arithmetic::div_mod::lemma_small_mod((wi - 1) as nat, 256);
        assert(wrap8(wi - 1) == (wi - 1) as u8);
        if !(0 <= a < s.tape.len()) {
            let e = if a < 0 {
                crate::memory::RuntimeError::PointerUnderflow
            } else {
                crate::memory::RuntimeError::PointerOverflow
            };
            if body == seq![dec, ofs] {
                let t1 = s.store(s.ptr, wrap8(s.cell() - 1));
                assert(sem_expr(dec, s, f1) == Step::Next(t1));
                assert(t1.ptr + o == a);
                assert(sem_expr(ofs, t1, f1) == Step::Abort(e));
                assert(sem_seq(body, s, f1) == Step::Abort(e));
            } else {
                assert(sem_expr(ofs, s, f1) == Step::Abort(e));
                assert(sem_seq(body, s, f1) == Step::Abort(e));
            }
            assert(sem_expr(gen, s, f) == Step::Abort(e));
            assert(sem_expr(node, s, f) == Step::Abort(e));
        } else {
            // One full pass: the two updates hit distinct cells, so both
            // orders end in the same state.
            let t = MState {
                tape: s.tape.update(s.ptr, (wi - 1) as u8).update(a, wrap8(s.tape[a] + v)),
                ..s
            };
            if body == seq![dec, ofs] {
                let t1 = s.store(s.ptr, wrap8(s.cell() - 1));
                assert(sem_expr(dec, s, f1) == Step::Next(t1));
                assert(t1.tape[a] == s.tape[a]);
                let t2 = t1.store(a, wrap8(t1.tape[a] + v));
                assert(sem_expr(ofs, t1, f1) == Step::Next(t2));
                assert(t2.tape =~= t.tape);
                assert(t2 == t);
                assert(sem_seq(body, s, f1) == Step::Next(t));
            } else {
                let u1 = s.store(a, wrap8(s.tape[a] + v));
                assert(sem_expr(ofs, s, f1) == Step::Next(u1));
                assert(u1.cell() == s.cell());
                let u2 = u1.store(s.ptr, wrap8(u1.cell() - 1));
                assert(sem_expr(dec, u1, f1) == Step::Next(u2));
                assert(u2.tape =~= t.tape);
                assert(u2 == t);
                assert(sem_seq(body, s, f1) == Step::Next(t));
            }
            assert(sem_expr(gen, s, f) == sem_expr(gen, t, f1));
            assert(t.cell() == wi - 1) by {
                assert(t.tape[s.ptr] == (wi - 1) as u8);
            };
            assert(t.wf());
            lemma_scatter_loop(gen, body, o, v, t, f1);
            // The fused node agrees at `t` and at `s`.
            assert(t.tape[a] == wrap8(s.tape[a] + v));
            if t.cell() == 0 {
                assert(w == 1);
                let r = s.store(s.ptr, 0).store(a, wrap8(s.store(s.ptr, 0).tape[a] + v * wi));
                assert(v * (wi as int) == v) by (nonlinear_arith)
                    requires
                        wi == 1,
                ;
                assert(s.store(s.ptr, 0).tape[a] == s.tape[a]);
                assert(sem_expr(node, s, f) == Step::Next(r));
                assert(r.tape =~= t.tape);
                assert(r == t);
                assert(sem_expr(node, t, f1) == Step::Next(t));
            } else {
                let zt = t.store(t.ptr, 0);
                assert(zt.tape[a] == t.tape[a]);
                let rt = zt.store(a, wrap8(t.tape[a] + v * (t.cell() as int)));
                assert(sem_expr(node, t, f1) == Step::Next(rt));
                let zs = s.store(s.ptr, 0);
                assert(zs.tape[a] == s.tape[a]);
                let rs = zs.store(a, wrap8(s.tape[a] + v * wi));
                assert(sem_expr(node, s, f) == Step::Next(rs));
                crate::arith::lemma_wrap8_absorb(s.tape[a] + v, v * (wi - 1));
                assert(v + v * (wi - 1) == v * wi) by (nonlinear_arith);
                assert(wrap8(t.tape[a] + v * (t.cell() as int)) == wrap8(s.tape[a] + v * wi));
                assert(rt.tape =~= rs.tape);
                assert(rt == rs);
            }
        }
    }
}

/// Equivalence law for the zero-and-scatter rewrite: a generic loop whose
/// body is a unit decrement beside an `OffsetOp` aimed at a neighboring cell
/// (in either order) means, given at least the cell modulus as iteration
/// budget, exactly what the fused `OffsetMakeZeroOp` node means.
pub proof fn zero_scatter_equivalence(gen: Expr, body: Seq<Expr>, o: i32, v: i32, s: MState, f: nat)
    requires
        gen matches Expr::Loop { exprs, one_time } && exprs@ == body && one_time == false,
        body == seq![Expr::DecrementCount(1), Expr::OffsetOp { o, v }] || body == seq![
            Expr::OffsetOp { o, v },
            Expr::DecrementCount(1),
        ],
        o != 0,
        s.wf(),
        f >= 256,
    ensures
        sem_expr(gen, s, f) == sem_expr(Expr::OffsetMakeZeroOp { o, v }, s, f),
{
    lemma_scatter_loop(gen, body, o, v, s, f);
}

/// The whole offset-fusion scan preserves meaning: the body it rewrites runs
/// exactly like the body it started from, from any well-formed state and at
/// any fuel — each replaced window is covered by `window_fusion_equivalence`.
pub proof fn fusion_pass_preserves_semantics(b: Seq<Expr>, i: int, s: MState, f: nat)
    requires
        s.wf(),
    ensures
        sem_seq(fuse_from(b, i).0, s, f) == sem_seq(b, s, f),
    decreases b.len() - i,
{
    if i + 2 >= b.len() || i < 0 {
    } else {
        match window_fuse(b[i], b[i + 1], b[i + 2]) {
            Some(op) => {
                let pre = b.subrange(0, i);
                let win = seq![b[i], b[i + 1], b[i + 2]];
                let suf = b.subrange(i + 3, b.len() as int);
                let b2 = pre.push(op) + suf;
                assert(b =~= pre + (win + suf));
                assert(b2 =~= pre + (seq![op] + suf));
                lemma_sem_seq_append(pre, win + suf, s, f);
                lemma_sem_seq_append(pre, seq![op] + suf, s, f);
                crate::semantics::lemma_sem_seq_wf(pre, s, f);
                match sem_seq(pre, s, f) {
                    Step::Next(u) => {
                        lemma_sem_seq_append(win, suf, u, f);
                        lemma_sem_seq_append(seq![op], suf, u, f);
                        window_fusion_equivalence(b[i], b[i + 1], b[i + 2], op, u, f);
                        lemma_sem_seq_one(op, u, f);
                    },
                    Step::Abort(_) => {},
                }
                assert(sem_seq(b2, s, f) == sem_seq(b, s, f));
                fusion_pass_preserves_semantics(b2, i + 1, s, f);
            },
            None => {
                fusion_pass_preserves_semantics(b, i + 1, s, f);
            },
        }
    }
}

} // verus!
