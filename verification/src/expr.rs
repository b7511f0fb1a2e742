use vstd::prelude::*;

verus! {

/// One node of the instruction tree. Arithmetic and movement nodes carry a
/// run-length count; `Loop` carries a bracket scope's body, with `one_time`
/// marking the pointer-neutral multiply form that the executor applies in a
/// single scaled pass; the remaining variants are the specialized shapes the
/// peephole optimizer produces.
#[derive(Debug, PartialEq)]
pub enum Expr {
    IncrementCount(u32),
    DecrementCount(u32),
    MoveRightCount(u32),
    MoveLeftCount(u32),
    Loop { exprs: Vec<Expr>, one_time: bool },
    Input,
    Output,
    MakeZero,
    JumpOut(Box<Expr>),
    OffsetOp { o: i32, v: i32 },
    OffsetMakeZeroOp { o: i32, v: i32 },
}

/// True of the four plain arithmetic/movement nodes, the only shapes allowed
/// in a multiply loop's body.
pub open spec fn is_arith(e: Expr) -> bool {
    match e {
        Expr::IncrementCount(_) => true,
        Expr::DecrementCount(_) => true,
        Expr::MoveRightCount(_) => true,
        Expr::MoveLeftCount(_) => true,
        _ => false,
    }
}

/// True when every node of the sequence is arithmetic/movement.
pub open spec fn is_arith_seq(es: Seq<Expr>) -> bool {
    forall|i: int| 0 <= i < es.len() ==> is_arith(#[trigger] es[i])
}

/// The signed pointer displacement of one node: positive for `MoveRightCount`,
/// negative for `MoveLeftCount`, zero for everything else.
pub open spec fn move_step(e: Expr) -> int {
    match e {
        Expr::MoveRightCount(n) => n as int,
        Expr::MoveLeftCount(n) => -(n as int),
        _ => 0,
    }
}

/// The signed sum of all pointer displacements of a sequence.
pub open spec fn net_move(es: Seq<Expr>) -> int
    decreases es.len(),
{
    if es.len() == 0 {
        0
    } else {
        move_step(es[0]) + net_move(es.drop_first())
    }
}

/// The multiply-loop precondition: a body of arithmetic/movement nodes only,
/// pointer-neutral over one pass.
pub open spec fn mul_shape(es: Seq<Expr>) -> bool {
    is_arith_seq(es) && net_move(es) == 0
}

impl Expr {
    /// Structural well-formedness: loop bodies are nonempty and well-formed,
    /// a `one_time` loop body has the multiply shape, and a `JumpOut` node
    /// wraps a single movement node.
    pub open spec fn wf(self) -> bool
        decreases self,
    {
        match self {
            Expr::Loop { exprs, one_time } => {
                &&& exprs@.len() > 0
                &&& forall|i: int| 0 <= i < exprs@.len() ==> (#[trigger] exprs@[i]).wf()
                &&& (one_time ==> mul_shape(exprs@))
            },
            Expr::JumpOut(inner) => (*inner) matches Expr::MoveLeftCount(_)
                || (*inner) matches Expr::MoveRightCount(_),
            _ => true,
        }
    }
}

/// True when every node of the sequence is well-formed.
pub open spec fn wf_seq(es: Seq<Expr>) -> bool {
    forall|i: int| 0 <= i < es.len() ==> (#[trigger] es[i]).wf()
}

} // verus!
