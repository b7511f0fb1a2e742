use vstd::prelude::*;
use crate::expr::{is_arith, is_arith_seq, net_move, wf_seq, Expr};
use crate::token::{spec_tokens_of, Token};

verus! {

/// A structural error: the builder or the optimizer rejects the program
/// before any execution begins.
#[derive(Debug, PartialEq, Eq, Structural, Clone, Copy)]
pub enum StructuralError {
    /// A closing bracket with no open scope, at this character position.
    UnmatchedClosingBracket { pos: usize },
    /// The input ended with at least one scope still open.
    UnmatchedOpeningBracket,
    /// A bracket pair with an empty body.
    EmptyLoop,
    /// A loop body that is a single input or output instruction: such a loop
    /// can never drive its gating cell toward zero.
    IoOnlyLoop,
}

/// The fusable three-node window: a move, one arithmetic node, and the exact
/// opposite move. The counts must fit the offset fields for the rewrite to
/// apply.
pub open spec fn window_fuse(a: Expr, b: Expr, c: Expr) -> Option<Expr> {
    match (a, b, c) {
        (Expr::MoveLeftCount(x), Expr::DecrementCount(n), Expr::MoveRightCount(y)) => if x == y
            && x <= 0x7fff_ffff && n <= 0x7fff_ffff {
            Some(Expr::OffsetOp { o: (-(x as int)) as i32, v: (-(n as int)) as i32 })
        } else {
            None
        },
        (Expr::MoveLeftCount(x), Expr::IncrementCount(n), Expr::MoveRightCount(y)) => if x == y
            && x <= 0x7fff_ffff && n <= 0x7fff_ffff {
            Some(Expr::OffsetOp { o: (-(x as int)) as i32, v: n as i32 })
        } else {
            None
        },
        (Expr::MoveRightCount(x), Expr::DecrementCount(n), Expr::MoveLeftCount(y)) => if x == y
            && x <= 0x7fff_ffff && n <= 0x7fff_ffff {
            Some(Expr::OffsetOp { o: x as i32, v: (-(n as int)) as i32 })
        } else {
            None
        },
        (Expr::MoveRightCount(x), Expr::IncrementCount(n), Expr::MoveLeftCount(y)) => if x == y
            && x <= 0x7fff_ffff && n <= 0x7fff_ffff {
            Some(Expr::OffsetOp { o: x as i32, v: n as i32 })
        } else {
            None
        },
        _ => None,
    }
}

/// One sliding pass of the offset-fusion scan, starting at window position
/// `i`: whenever a window matches, the three nodes become one `OffsetOp` and
/// the scan moves one position further. Returns the rewritten sequence and
/// whether any window matched.
pub open spec fn fuse_from(b: Seq<Expr>, i: int) -> (Seq<Expr>, bool)
    decreases b.len() - i,
{
    if i + 2 >= b.len() || i < 0 {
        (b, false)
    } else {
        match window_fuse(b[i], b[i + 1], b[i + 2]) {
            Some(op) => {
                let b2 = b.subrange(0, i).push(op) + b.subrange(i + 3, b.len() as int);
                (fuse_from(b2, i + 1).0, true)
            },
            None => fuse_from(b, i + 1),
        }
    }
}

/// A matching pass shortens the sequence; a pass with no match returns it
/// unchanged.
pub proof fn lemma_fuse_from_len(b: Seq<Expr>, i: int)
    ensures
        fuse_from(b, i).1 ==> fuse_from(b, i).0.len() < b.len(),
        !fuse_from(b, i).1 ==> fuse_from(b, i).0 == b,
    decreases b.len() - i,
{
    if i + 2 >= b.len() || i < 0 {
    } else {
        match window_fuse(b[i], b[i + 1], b[i + 2]) {
            Some(op) => {
                let b2 = b.subrange(0, i).push(op) + b.subrange(i + 3, b.len() as int);
                lemma_fuse_from_len(b2, i + 1);
            },
            None => {
                lemma_fuse_from_len(b, i + 1);
            },
        }
    }
}

/// The two-node zero-and-scatter idiom: a unit decrement beside an
/// `OffsetOp` aimed at a neighboring cell, in either order. An offset of zero
/// is excluded: scattering into the gating cell itself is not equivalent to
/// the loop, so such a pair stays a generic loop.
pub open spec fn two_node_shape(a: Expr, b: Expr) -> Option<(i32, i32)> {
    match (a, b) {
        (Expr::DecrementCount(n), Expr::OffsetOp { o, v }) => if n == 1 && o != 0 {
            Some((o, v))
        } else {
            None
        },
        (Expr::OffsetOp { o, v }, Expr::DecrementCount(n)) => if n == 1 && o != 0 {
            Some((o, v))
        } else {
            None
        },
        _ => None,
    }
}

/// What the optimizer decides for one closed scope's body, described by
/// shape; the executable result is tied to it by `node_matches`.
pub ghost enum OptShape {
    MakeZero,
    JumpOut(Expr),
    OffsetZero { o: i32, v: i32 },
    Loop { body: Seq<Expr>, once: bool },
    Fail(StructuralError),
}

/// The peephole optimizer's decision procedure over one scope's body, in
/// order: emptiness check; single-node collapse (a lone arithmetic node
/// becomes `MakeZero`, a lone movement becomes `JumpOut`, a lone input or
/// output is fatal, and any other single node — an already-optimized inner
/// scope among them — falls to the generic loop); the two-node
/// zero-and-scatter fusion; pointer-neutral multiply detection; and the
/// sliding offset-fusion scan re-run until a pass produces no further change.
pub open spec fn spec_optimize(b: Seq<Expr>) -> OptShape
    decreases b.len(),
        via spec_optimize_decreases
{
    if b.len() == 0 {
        OptShape::Fail(StructuralError::EmptyLoop)
    } else if b.len() == 1 {
        match b[0] {
            Expr::IncrementCount(_) => OptShape::MakeZero,
            Expr::DecrementCount(_) => OptShape::MakeZero,
            Expr::MoveLeftCount(n) => OptShape::JumpOut(Expr::MoveLeftCount(n)),
            Expr::MoveRightCount(n) => OptShape::JumpOut(Expr::MoveRightCount(n)),
            Expr::Input => OptShape::Fail(StructuralError::IoOnlyLoop),
            Expr::Output => OptShape::Fail(StructuralError::IoOnlyLoop),
            _ => OptShape::Loop { body: b, once: false },
        }
    } else if b.len() == 2 {
        match two_node_shape(b[0], b[1]) {
            Some(ov) => OptShape::OffsetZero { o: ov.0, v: ov.1 },
            None => OptShape::Loop { body: b, once: false },
        }
    } else {
        if is_arith_seq(b) && net_move(b) == 0 {
            OptShape::Loop { body: b, once: true }
        } else {
            let pass = fuse_from(b, 0);
            if pass.1 {
                spec_optimize(pass.0)
            } else {
                OptShape::Loop { body: b, once: false }
            }
        }
    }
}

#[via_fn]
proof fn spec_optimize_decreases(b: Seq<Expr>) {
    if b.len() >= 3 && !(is_arith_seq(b) && net_move(b) == 0) {
        lemma_fuse_from_len(b, 0);
    }
}

/// Ties an executable optimizer result to its shape.
pub open spec fn node_matches(node: Expr, sh: OptShape) -> bool {
    match sh {
        OptShape::MakeZero => node == Expr::MakeZero,
        OptShape::JumpOut(m) => node matches Expr::JumpOut(bx) && *bx == m,
        OptShape::OffsetZero { o, v } => node == (Expr::OffsetMakeZeroOp { o, v }),
        OptShape::Loop { body, once } => node matches Expr::Loop { exprs, one_time }
            && exprs@ == body && one_time == once,
        OptShape::Fail(_) => false,
    }
}

/// Ties the optimizer's whole result, error included, to its shape.
pub open spec fn optimize_matches(r: Result<Expr, StructuralError>, sh: OptShape) -> bool {
    match sh {
        OptShape::Fail(e) => r matches Err(e2) && e2 == e,
        _ => r matches Ok(node) && node_matches(node, sh),
    }
}

/// Run-length folding of one non-bracket token onto the end of the current
/// scope: a token matching the variant of the last node increments its count
/// in place; anything else appends a fresh node. Folding is strictly local.
pub open spec fn push_tok(cur: Seq<Expr>, t: Token) -> Seq<Expr> {
    match t {
        Token::Plus => if cur.len() > 0 && (cur.last() matches Expr::IncrementCount(_))
            && fold_count(cur.last()) < 0xffff_ffff {
            cur.drop_last().push(Expr::IncrementCount((fold_count(cur.last()) + 1) as u32))
        } else {
            cur.push(Expr::IncrementCount(1))
        },
        Token::Minus => if cur.len() > 0 && (cur.last() matches Expr::DecrementCount(_))
            && fold_count(cur.last()) < 0xffff_ffff {
            cur.drop_last().push(Expr::DecrementCount((fold_count(cur.last()) + 1) as u32))
        } else {
            cur.push(Expr::DecrementCount(1))
        },
        Token::Right => if cur.len() > 0 && (cur.last() matches Expr::MoveRightCount(_))
            && fold_count(cur.last()) < 0xffff_ffff {
            cur.drop_last().push(Expr::MoveRightCount((fold_count(cur.last()) + 1) as u32))
        } else {
            cur.push(Expr::MoveRightCount(1))
        },
        Token::Left => if cur.len() > 0 && (cur.last() matches Expr::MoveLeftCount(_))
            && fold_count(cur.last()) < 0xffff_ffff {
            cur.drop_last().push(Expr::MoveLeftCount((fold_count(cur.last()) + 1) as u32))
        } else {
            cur.push(Expr::MoveLeftCount(1))
        },
        Token::Dot => cur.push(Expr::Output),
        Token::Comma => cur.push(Expr::Input),
        _ => cur,
    }
}

/// The run-length count of an arithmetic/movement node.
pub open spec fn fold_count(e: Expr) -> u32 {
    match e {
        Expr::IncrementCount(n) => n,
        Expr::DecrementCount(n) => n,
        Expr::MoveRightCount(n) => n,
        Expr::MoveLeftCount(n) => n,
        _ => 0,
    }
}

/// The structural builder as a relation: from position `i` with the given
/// scope stack and current scope, consuming the rest of the tokens can end in
/// `out`. The relation determines every observable part of `out`; only the
/// allocation identity of nested bodies is left open.
pub open spec fn build_from(
    ts: Seq<Token>,
    i: int,
    stack: Seq<Seq<Expr>>,
    cur: Seq<Expr>,
    out: Result<Seq<Expr>, StructuralError>,
) -> bool
    decreases ts.len() - i,
{
    if i < 0 || i >= ts.len() {
        if stack.len() == 0 {
            out == Ok::<Seq<Expr>, StructuralError>(cur)
        } else {
            out == Err::<Seq<Expr>, StructuralError>(StructuralError::UnmatchedOpeningBracket)
        }
    } else {
        match ts[i] {
            Token::BracketOpen => build_from(ts, i + 1, stack.push(cur), Seq::empty(), out),
            Token::BracketClose => if stack.len() == 0 {
                out == Err::<Seq<Expr>, StructuralError>(
                    StructuralError::UnmatchedClosingBracket { pos: i as usize },
                )
            } else {
                match spec_optimize(cur) {
                    OptShape::Fail(e) => out == Err::<Seq<Expr>, StructuralError>(e),
                    sh => exists|node: Expr|
                        #[trigger] node_matches(node, sh) && build_from(
                            ts,
                            i + 1,
                            stack.drop_last(),
                            stack.last().push(node),
                            out,
                        ),
                }
            },
            t => build_from(ts, i + 1, stack, push_tok(cur, t), out),
        }
    }
}

/// The builder relation for a whole source text.
pub open spec fn builds(src: Seq<char>, out: Result<Seq<Expr>, StructuralError>) -> bool {
    build_from(spec_tokens_of(src), 0, Seq::empty(), Seq::empty(), out)
}

/// The scope stack's contents, one sequence per saved outer scope.
pub open spec fn views(st: Seq<Vec<Expr>>) -> Seq<Seq<Expr>> {
    Seq::new(st.len(), |k: int| st[k]@)
}

/// Checks one three-node window against the fusable patterns.
fn fuse_window(a: &Expr, b: &Expr, c: &Expr) -> (r: Option<Expr>)
    ensures
        r == window_fuse(*a, *b, *c),
{
    match (a, b, c) {
        (Expr::MoveLeftCount(x), Expr::DecrementCount(n), Expr::MoveRightCount(y)) => {
            if *x == *y && *x <= 0x7fff_ffff && *n <= 0x7fff_ffff {
                Some(Expr::OffsetOp { o: 0i32 - (*x as i32), v: 0i32 - (*n as i32) })
            } else {
                None
            }
        },
        (Expr::MoveLeftCount(x), Expr::IncrementCount(n), Expr::MoveRightCount(y)) => {
            if *x == *y && *x <= 0x7fff_ffff && *n <= 0x7fff_ffff {
                Some(Expr::OffsetOp { o: 0i32 - (*x as i32), v: *n as i32 })
            } else {
                None
            }
        },
        (Expr::MoveRightCount(x), Expr::DecrementCount(n), Expr::MoveLeftCount(y)) => {
            if *x == *y && *x <= 0x7fff_ffff && *n <= 0x7fff_ffff {
                Some(Expr::OffsetOp { o: *x as i32, v: 0i32 - (*n as i32) })
            } else {
                None
            }
        },
        (Expr::MoveRightCount(x), Expr::IncrementCount(n), Expr::MoveLeftCount(y)) => {
            if *x == *y && *x <= 0x7fff_ffff && *n <= 0x7fff_ffff {
                Some(Expr::OffsetOp { o: *x as i32, v: *n as i32 })
            } else {
                None
            }
        },
        _ => None,
    }
}

/// Decides the pointer-neutral multiply precondition: every node arithmetic
/// or movement, and the signed sum of all movements zero.
fn neutral_arith(exprs: &Vec<Expr>) -> (r: bool)
    ensures
        r == (is_arith_seq(exprs@) && net_move(exprs@) == 0),
{
    let n = exprs.len();
    let mut i: usize = 0;
    while i < n
        invariant
            i <= n,
            n == exprs@.len(),
            forall|j: int| 0 <= j < i ==> is_arith(#[trigger] exprs@[j]),
        decreases n - i,
    {
        match &exprs[i] {
            Expr::IncrementCount(_) => {},
            Expr::DecrementCount(_) => {},
            Expr::MoveRightCount(_) => {},
            Expr::MoveLeftCount(_) => {},
            _ => {
                proof {
                    assert(!is_arith(exprs@[i as int]));
                }
                return false;
            },
        }
        i = i + 1;
    }
    proof {
        assert(exprs@.skip(0) =~= exprs@);
    }
    let mut acc: i128 = 0;
    i = 0;
    while i < n
        invariant
            i <= n,
            n == exprs@.len(),
            is_arith_seq(exprs@),
            -((i as int) * 0xffff_ffff) <= acc <= (i as int) * 0xffff_ffff,
            net_move(exprs@) == acc + net_move(exprs@.skip(i as int)),
        decreases n - i,
    {
        let ghost rest = exprs@.skip(i as int);
        proof {
            assert(rest[0] == exprs@[i as int]);
            assert(rest.drop_first() =~= exprs@.skip(i + 1));
        }
        match &exprs[i] {
            Expr::MoveRightCount(c) => {
                acc = acc + (*c as i128);
            },
            Expr::MoveLeftCount(c) => {
                acc = acc - (*c as i128);
            },
            Expr::IncrementCount(_) => {},
            Expr::DecrementCount(_) => {},
            _ => {
                proof {
                    assert(is_arith(exprs@[i as int]));
                }
                return vstd::pervasive::unreached();
            },
        }
        i = i + 1;
    }
    proof {
        assert(exprs@.skip(n as int) =~= Seq::<Expr>::empty());
    }
    acc == 0
}

/// One executable pass of the offset-fusion scan over the whole body.
fn fuse_pass(b: Vec<Expr>) -> (r: (Vec<Expr>, bool))
    requires
        wf_seq(b@),
    ensures
        r.0@ == fuse_from(b@, 0).0,
        r.1 == fuse_from(b@, 0).1,
        wf_seq(r.0@),
{
    let mut cur = b;
    let mut matched = false;
    let mut i: usize = 0;
    while cur.len() >= 3 && i < cur.len() - 2
        invariant
            i <= cur@.len(),
            wf_seq(cur@),
            fuse_from(b@, 0).0 == fuse_from(cur@, i as int).0,
            fuse_from(b@, 0).1 == (matched || fuse_from(cur@, i as int).1),
        decreases cur@.len() - i,
    {
        let fused = fuse_window(&cur[i], &cur[i + 1], &cur[i + 2]);
        match fused {
            Some(op) => {
                let ghost before = cur@;
                cur.remove(i);
                cur.remove(i);
                cur.remove(i);
                cur.insert(i, op);
                proof {
                    assert(cur@ =~= before.subrange(0, i as int).push(op) + before.subrange(
                        i + 3,
                        before.len() as int,
                    ));
                }
                matched = true;
            },
            None => {},
        }
        i = i + 1;
    }
    (cur, matched)
}

/// The peephole optimizer for one closed scope's already-collected body. The
/// result is exactly the node (or structural error) that `spec_optimize`
/// assigns to the body, and it is well-formed whenever the body's nodes are.
pub fn optimize(exprs: Vec<Expr>) -> (r: Result<Expr, StructuralError>)
    requires
        wf_seq(exprs@),
    ensures
        optimize_matches(r, spec_optimize(exprs@)),
        r matches Ok(node) ==> node.wf(),
{
    let mut cur = exprs;
    loop
        invariant
            wf_seq(cur@),
            spec_optimize(cur@) == spec_optimize(exprs@),
        decreases cur@.len(),
    {
        if cur.len() == 0 {
            return Err(StructuralError::EmptyLoop);
        }
        if cur.len() == 1 {
            let rewritten: Option<Result<Expr, StructuralError>> = match &cur[0] {
                Expr::IncrementCount(_) => Some(Ok(Expr::MakeZero)),
                Expr::DecrementCount(_) => Some(Ok(Expr::MakeZero)),
                Expr::MoveLeftCount(k) => Some(
                    Ok(Expr::JumpOut(Box::new(Expr::MoveLeftCount(*k)))),
                ),
                Expr::MoveRightCount(k) => Some(
                    Ok(Expr::JumpOut(Box::new(Expr::MoveRightCount(*k)))),
                ),
                Expr::Input => Some(Err(StructuralError::IoOnlyLoop)),
                Expr::Output => Some(Err(StructuralError::IoOnlyLoop)),
                _ => None,
            };
            return match rewritten {
                Some(r) => r,
                None => Ok(Expr::Loop { exprs: cur, one_time: false }),
            };
        }
        if cur.len() == 2 {
            let fused: Option<(i32, i32)> = match (&cur[0], &cur[1]) {
                (Expr::DecrementCount(n), Expr::OffsetOp { o, v }) => {
                    if *n == 1 && *o != 0 {
                        Some((*o, *v))
                    } else {
                        None
                    }
                },
                (Expr::OffsetOp { o, v }, Expr::DecrementCount(n)) => {
                    if *n == 1 && *o != 0 {
                        Some((*o, *v))
                    } else {
                        None
                    }
                },
                _ => None,
            };
            return match fused {
                Some((o, v)) => Ok(Expr::OffsetMakeZeroOp { o, v }),
                None => Ok(Expr::Loop { exprs: cur, one_time: false }),
            };
        }
        if neutral_arith(&cur) {
            return Ok(Expr::Loop { exprs: cur, one_time: true });
        }
        let ghost prev = cur@;
        let pass = fuse_pass(cur);
        proof {
            lemma_fuse_from_len(prev, 0);
        }
        cur = pass.0;
        if !pass.1 {
            return Ok(Expr::Loop { exprs: cur, one_time: false });
        }
    }
}

/// Folds one non-bracket token onto the end of the current scope, exactly as
/// `push_tok` describes.
fn push_token_node(cur: &mut Vec<Expr>, t: Token)
    requires
        wf_seq(old(cur)@),
    ensures
        final(cur)@ == push_tok(old(cur)@, t),
        wf_seq(final(cur)@),
{
    match t {
        Token::Plus => {
            let len = cur.len();
            let folded: Option<u32> = if len > 0 {
                match &cur[len - 1] {
                    Expr::IncrementCount(m) => if *m < 0xffff_ffff {
                        Some(*m + 1)
                    } else {
                        None
                    },
                    _ => None,
                }
            } else {
                None
            };
            match folded {
                Some(m2) => {
                    cur.pop();
                    cur.push(Expr::IncrementCount(m2));
                },
                None => {
                    cur.push(Expr::IncrementCount(1));
                },
            }
        },
        Token::Minus => {
            let len = cur.len();
            let folded: Option<u32> = if len > 0 {
                match &cur[len - 1] {
                    Expr::DecrementCount(m) => if *m < 0xffff_ffff {
                        Some(*m + 1)
                    } else {
                        None
                    },
                    _ => None,
                }
            } else {
                None
            };
            match folded {
                Some(m2) => {
                    cur.pop();
                    cur.push(Expr::DecrementCount(m2));
                },
                None => {
                    cur.push(Expr::DecrementCount(1));
                },
            }
        },
        Token::Right => {
            let len = cur.len();
            let folded: Option<u32> = if len > 0 {
                match &cur[len - 1] {
                    Expr::MoveRightCount(m) => if *m < 0xffff_ffff {
                        Some(*m + 1)
                    } else {
                        None
                    },
                    _ => None,
                }
            } else {
                None
            };
            match folded {
                Some(m2) => {
                    cur.pop();
                    cur.push(Expr::MoveRightCount(m2));
                },
                None => {
                    cur.push(Expr::MoveRightCount(1));
                },
            }
        },
        Token::Left => {
            let len = cur.len();
            let folded: Option<u32> = if len > 0 {
                match &cur[len - 1] {
                    Expr::MoveLeftCount(m) => if *m < 0xffff_ffff {
                        Some(*m + 1)
                    } else {
                        None
                    },
                    _ => None,
                }
            } else {
                None
            };
            match folded {
                Some(m2) => {
                    cur.pop();
                    cur.push(Expr::MoveLeftCount(m2));
                },
                None => {
                    cur.push(Expr::MoveLeftCount(1));
                },
            }
        },
        Token::Dot => {
            cur.push(Expr::Output);
        },
        Token::Comma => {
            cur.push(Expr::Input);
        },
        _ => {},
    }
}

impl Expr {
    /// The structural builder: consumes the tokens left to right, folding
    /// runs of identical arithmetic/movement opcodes, keeping an explicit
    /// stack of saved outer scopes, and running the peephole optimizer over
    /// each scope as its closing bracket arrives. Fails on an unmatched
    /// bracket on either side and on a body the optimizer rejects.
    pub fn from_tokens(tokens: Vec<Token>) -> (r: Result<Vec<Expr>, StructuralError>)
        ensures
            r matches Ok(es) ==> build_from(
                tokens@,
                0,
                Seq::empty(),
                Seq::empty(),
                Ok(es@),
            ) && wf_seq(es@),
            r matches Err(e) ==> build_from(tokens@, 0, Seq::empty(), Seq::empty(), Err(e)),
    {
        let ghost ts = tokens@;
        let n = tokens.len();
        let mut stack: Vec<Vec<Expr>> = Vec::new();
        let mut cur: Vec<Expr> = Vec::new();
        let mut i: usize = 0;
        proof {
            assert(views(stack@) =~= Seq::<Seq<Expr>>::empty());
        }
        while i < n
            invariant
                ts == tokens@,
                i <= n,
                n == ts.len(),
                wf_seq(cur@),
                forall|k: int| 0 <= k < stack@.len() ==> wf_seq(#[trigger] stack@[k]@),
                forall|out: Result<Seq<Expr>, StructuralError>|
                    build_from(ts, i as int, views(stack@), cur@, out) ==> build_from(
                        ts,
                        0,
                        Seq::empty(),
                        Seq::empty(),
                        out,
                    ),
            decreases n - i,
        {
            let ghost st0 = views(stack@);
            let ghost c0 = cur@;
            let t = tokens[i];
            match t {
                Token::BracketOpen => {
                    stack.push(cur);
                    cur = Vec::new();
                    proof {
                        assert(views(stack@) =~= st0.push(c0));
                        assert forall|out: Result<Seq<Expr>, StructuralError>|
                            build_from(ts, i + 1, views(stack@), cur@, out) implies build_from(
                            ts,
                            i as int,
                            st0,
                            c0,
                            out,
                        ) by {
                            assert(cur@ =~= Seq::<Expr>::empty());
                        };
                    }
                },
                Token::BracketClose => {
                    match stack.pop() {
                        None => {
                            proof {
                                assert(build_from(
                                    ts,
                                    i as int,
                                    st0,
                                    c0,
                                    Err(StructuralError::UnmatchedClosingBracket { pos: i }),
                                ));
                            }
                            return Err(StructuralError::UnmatchedClosingBracket { pos: i });
                        },
                        Some(outer) => {
                            let ghost sh = spec_optimize(cur@);
                            let node = match optimize(cur) {
                                Ok(nd) => nd,
                                Err(e) => {
                                    proof {
                                        assert(st0.len() > 0);
                                        assert(build_from(ts, i as int, st0, c0, Err(e)));
                                    }
                                    return Err(e);
                                },
                            };
                            cur = outer;
                            cur.push(node);
                            proof {
                                assert(views(stack@) =~= st0.drop_last());
                                assert(cur@ == st0.last().push(node));
                                assert(node_matches(node, sh));
                                assert forall|out: Result<Seq<Expr>, StructuralError>|
                                    build_from(ts, i + 1, views(stack@), cur@, out)
                                    implies build_from(ts, i as int, st0, c0, out) by {
                                    assert(node_matches(node, sh) && build_from(
                                        ts,
                                        i + 1,
                                        st0.drop_last(),
                                        st0.last().push(node),
                                        out,
                                    ));
                                };
                            }
                        },
                    }
                },
                _ => {
                    push_token_node(&mut cur, t);
                    proof {
                        assert forall|out: Result<Seq<Expr>, StructuralError>|
                            build_from(ts, i + 1, views(stack@), cur@, out) implies build_from(
                            ts,
                            i as int,
                            st0,
                            c0,
                            out,
                        ) by {
                            assert(cur@ == push_tok(c0, t));
                        };
                    }
                },
            }
            i = i + 1;
        }
        if stack.len() == 0 {
            proof {
                assert(build_from(ts, n as int, views(stack@), cur@, Ok(cur@)));
            }
            Ok(cur)
        } else {
            proof {
                assert(build_from(
                    ts,
                    n as int,
                    views(stack@),
                    cur@,
                    Err(StructuralError::UnmatchedOpeningBracket),
                ));
            }
            Err(StructuralError::UnmatchedOpeningBracket)
        }
    }
}

/// Holds one source text and parses it into the optimized instruction tree.
pub struct Parser {
    /// The source text.
    pub source: String,
}

impl Parser {
    /// Wraps a source text for parsing.
    pub fn new(source: String) -> (p: Parser)
        ensures
            p.source@ == source@,
    {
        Parser { source }
    }

    /// Tokenizes the source and builds the optimized instruction tree.
    pub fn parse(&mut self) -> (r: Result<Vec<Expr>, StructuralError>)
        ensures
            final(self).source@ == old(self).source@,
            r matches Ok(es) ==> builds(old(self).source@, Ok(es@)) && wf_seq(es@),
            r matches Err(e) ==> builds(old(self).source@, Err(e)),
    {
        let tokens = Token::tokenize(self.source.as_str());
        Expr::from_tokens(tokens)
    }
}

} // verus!
