use vstd::prelude::*;
use crate::arith::wrap8;
use crate::expr::Expr;
use crate::memory::{Memory, RuntimeError};

verus! {

/// The abstract machine state: the tape, the data pointer, the input bytes
/// still to be consumed, and the output emitted so far.
pub ghost struct MState {
    pub tape: Seq<u8>,
    pub ptr: int,
    pub inp: Seq<u8>,
    pub out: Seq<u8>,
}

impl MState {
    /// The pointer lies inside the tape.
    pub open spec fn wf(self) -> bool {
        0 <= self.ptr < self.tape.len()
    }

    /// The value of the current cell.
    pub open spec fn cell(self) -> u8 {
        self.tape[self.ptr]
    }

    /// The same state with the cell at absolute index `a` replaced by `v`.
    pub open spec fn store(self, a: int, v: u8) -> MState {
        MState { tape: self.tape.update(a, v), ..self }
    }

    /// The same state with the pointer at absolute index `p`.
    pub open spec fn at(self, p: int) -> MState {
        MState { ptr: p, ..self }
    }
}

impl Memory {
    /// The abstract state of this memory: buffering and the input cursor are
    /// invisible at this level.
    pub open spec fn abs(self) -> MState {
        MState {
            tape: self.cells@,
            ptr: self.pointer as int,
            inp: self.pending_input(),
            out: self.emitted(),
        }
    }
}

/// The state a run starts from: a fresh tape of default length, the pointer
/// at index 0, the given input bytes, and no output.
pub open spec fn init_state(inp: Seq<u8>) -> MState {
    MState {
        tape: Seq::new(crate::memory::TAPE_LEN as nat, |i: int| 0u8),
        ptr: 0,
        inp,
        out: Seq::empty(),
    }
}

/// The outcome of running a piece of the program: the next state, or the
/// runtime error that stopped the run.
pub ghost enum Step {
    Next(MState),
    Abort(RuntimeError),
}

/// The effect of one arithmetic/movement node, with the cell delta scaled by
/// `m`; movement is never scaled. The multiply form of a loop runs its body
/// once through this with `m` set to the gating cell's value; plain execution
/// is the case `m == 1`. Nodes of any other shape are left to `sem_expr` and
/// contribute nothing here.
pub open spec fn sem_arith(e: Expr, s: MState, m: nat) -> Step {
    match e {
        Expr::IncrementCount(n) => Step::Next(s.store(s.ptr, wrap8(s.cell() + n * m))),
        Expr::DecrementCount(n) => Step::Next(s.store(s.ptr, wrap8(s.cell() - n * m))),
        Expr::MoveRightCount(n) => if s.ptr + n < s.tape.len() {
            Step::Next(s.at(s.ptr + n))
        } else {
            Step::Abort(RuntimeError::PointerOverflow)
        },
        Expr::MoveLeftCount(n) => if n <= s.ptr {
            Step::Next(s.at(s.ptr - n))
        } else {
            Step::Abort(RuntimeError::PointerUnderflow)
        },
        _ => Step::Next(s),
    }
}

/// One pass over a multiply loop's body: every arithmetic delta scaled by `m`,
/// every movement applied literally.
pub open spec fn sem_scaled(es: Seq<Expr>, s: MState, m: nat) -> Step
    decreases es.len(),
{
    if es.len() == 0 {
        Step::Next(s)
    } else {
        match sem_arith(es[0], s, m) {
            Step::Next(t) => sem_scaled(es.drop_first(), t, m),
            Step::Abort(e) => Step::Abort(e),
        }
    }
}

/// The meaning of one instruction node on state `s`. The fuel `f` bounds how
/// many times the gated loops may decide to run their body again; a run that
/// would need more iterations than the fuel allows fails with `OutOfFuel`.
/// Everything else is deterministic and consumes no fuel.
pub open spec fn sem_expr(e: Expr, s: MState, f: nat) -> Step
    decreases f, e,
{
    match e {
        Expr::IncrementCount(_) => sem_arith(e, s, 1),
        Expr::DecrementCount(_) => sem_arith(e, s, 1),
        Expr::MoveRightCount(_) => sem_arith(e, s, 1),
        Expr::MoveLeftCount(_) => sem_arith(e, s, 1),
        Expr::Output => Step::Next(MState { out: s.out.push(s.cell()), ..s }),
        Expr::Input => if s.inp.len() > 0 {
            Step::Next(MState { inp: s.inp.drop_first(), ..s.store(s.ptr, s.inp[0]) })
        } else {
            Step::Abort(RuntimeError::InputExhausted)
        },
        Expr::MakeZero => Step::Next(s.store(s.ptr, 0)),
        Expr::JumpOut(inner) => if s.cell() == 0 {
            Step::Next(s)
        } else if f == 0 {
            Step::Abort(RuntimeError::OutOfFuel)
        } else {
            match sem_arith(*inner, s, 1) {
                Step::Next(t) => sem_expr(e, t, (f - 1) as nat),
                Step::Abort(err) => Step::Abort(err),
            }
        },
        Expr::OffsetOp { o, v } => {
            let a = s.ptr + o;
            if 0 <= a < s.tape.len() {
                Step::Next(s.store(a, wrap8(s.tape[a] + v)))
            } else if a < 0 {
                Step::Abort(RuntimeError::PointerUnderflow)
            } else {
                Step::Abort(RuntimeError::PointerOverflow)
            }
        },
        Expr::OffsetMakeZeroOp { o, v } => {
            let v0 = s.cell();
            if v0 == 0 {
                Step::Next(s)
            } else {
                let a = s.ptr + o;
                if 0 <= a < s.tape.len() {
                    let zeroed = s.store(s.ptr, 0);
                    Step::Next(zeroed.store(a, wrap8(zeroed.tape[a] + v * v0)))
                } else if a < 0 {
                    Step::Abort(RuntimeError::PointerUnderflow)
                } else {
                    Step::Abort(RuntimeError::PointerOverflow)
                }
            }
        },
        Expr::Loop { exprs, one_time } => if s.cell() == 0 {
            Step::Next(s)
        } else if one_time {
            sem_scaled(exprs@, s, s.cell() as nat)
        } else if f == 0 {
            Step::Abort(RuntimeError::OutOfFuel)
        } else {
            match sem_seq(exprs@, s, (f - 1) as nat) {
                Step::Next(t) => sem_expr(e, t, (f - 1) as nat),
                Step::Abort(err) => Step::Abort(err),
            }
        },
    }
}

/// The meaning of an instruction sequence: the nodes run left to right, each
/// seeing the fuel `f`; the first failure stops the run.
pub open spec fn sem_seq(es: Seq<Expr>, s: MState, f: nat) -> Step
    decreases f, es,
{
    if es.len() == 0 {
        Step::Next(s)
    } else {
        match sem_expr(es[0], s, f) {
            Step::Next(t) => sem_seq(es.drop_first(), t, f),
            Step::Abort(e) => Step::Abort(e),
        }
    }
}

/// One arithmetic step keeps the pointer inside the tape and the tape length,
/// input and output unchanged.
pub proof fn lemma_sem_arith_wf(e: Expr, s: MState, m: nat)
    requires
        s.wf(),
    ensures
        sem_arith(e, s, m) matches Step::Next(t) ==> t.wf() && t.tape.len() == s.tape.len()
            && t.inp == s.inp && t.out == s.out,
{
}

/// A scaled pass keeps the state well-formed.
pub proof fn lemma_sem_scaled_wf(es: Seq<Expr>, s: MState, m: nat)
    requires
        s.wf(),
    ensures
        sem_scaled(es, s, m) matches Step::Next(t) ==> t.wf() && t.tape.len() == s.tape.len(),
    decreases es.len(),
{
    if es.len() == 0 {
    } else {
        lemma_sem_arith_wf(es[0], s, m);
        match sem_arith(es[0], s, m) {
            Step::Next(t) => {
                lemma_sem_scaled_wf(es.drop_first(), t, m);
            },
            Step::Abort(_) => {},
        }
    }
}

/// Running one node keeps the state well-formed and the tape length fixed.
pub proof fn lemma_sem_expr_wf(e: Expr, s: MState, f: nat)
    requires
        s.wf(),
    ensures
        sem_expr(e, s, f) matches Step::Next(t) ==> t.wf() && t.tape.len() == s.tape.len(),
    decreases f, e,
{
    match e {
        Expr::JumpOut(inner) => {
            if s.cell() == 0 || f == 0 {
            } else {
                lemma_sem_arith_wf(*inner, s, 1);
                match sem_arith(*inner, s, 1) {
                    Step::Next(t) => {
                        lemma_sem_expr_wf(e, t, (f - 1) as nat);
                    },
                    Step::Abort(_) => {},
                }
            }
        },
        Expr::Loop { exprs, one_time } => {
            if s.cell() == 0 {
            } else if one_time {
                lemma_sem_scaled_wf(exprs@, s, s.cell() as nat);
            } else if f == 0 {
            } else {
                lemma_sem_seq_wf(exprs@, s, (f - 1) as nat);
                match sem_seq(exprs@, s, (f - 1) as nat) {
                    Step::Next(t) => {
                        lemma_sem_expr_wf(e, t, (f - 1) as nat);
                    },
                    Step::Abort(_) => {},
                }
            }
        },
        _ => {
            lemma_sem_arith_wf(e, s, 1);
        },
    }
}

/// Running a sequence keeps the state well-formed and the tape length fixed.
pub proof fn lemma_sem_seq_wf(es: Seq<Expr>, s: MState, f: nat)
    requires
        s.wf(),
    ensures
        sem_seq(es, s, f) matches Step::Next(t) ==> t.wf() && t.tape.len() == s.tape.len(),
    decreases f, es,
{
    if es.len() == 0 {
    } else {
        lemma_sem_expr_wf(es[0], s, f);
        match sem_expr(es[0], s, f) {
            Step::Next(t) => {
                lemma_sem_seq_wf(es.drop_first(), t, f);
            },
            Step::Abort(_) => {},
        }
    }
}

} // verus!
