use vstd::prelude::*;
use vstd::pervasive::unreached;
use crate::arith::lemma_wrap8_scale;
use crate::expr::{is_arith, is_arith_seq, wf_seq, Expr};
use crate::memory::{buffer_advances, lemma_buffer_advances_trans, lemma_buffer_after_output,
    lemma_buffer_unchanged, Memory, RuntimeError};
use crate::semantics::{sem_arith, sem_expr, sem_scaled, sem_seq, Step};

verus! {

/// One pass over a multiply loop's body: arithmetic deltas scaled by `times`,
/// movement applied literally with bounds checks.
fn run_scaled(exprs: &Vec<Expr>, memory: &mut Memory, times: u8) -> (r: Result<(), RuntimeError>)
    requires
        old(memory).wf(),
        is_arith_seq(exprs@),
    ensures
        final(memory).wf(),
        r is Ok ==> sem_scaled(exprs@, old(memory).abs(), times as nat) == Step::Next(
            final(memory).abs(),
        ),
        r is Err ==> sem_scaled(exprs@, old(memory).abs(), times as nat) == Step::Abort(
            r->Err_0,
        ),
        final(memory).output@ == old(memory).output@,
        final(memory).output_buffer@ == old(memory).output_buffer@,
{
    let ghost s0 = memory.abs();
    proof {
        assert(exprs@.skip(0) =~= exprs@);
    }
    let t32 = times as u32;
    let n = exprs.len();
    let mut i: usize = 0;
    while i < n
        invariant
            s0 == old(memory).abs(),
            i <= n,
            n == exprs@.len(),
            t32 == times as u32,
            memory.wf(),
            memory.output@ == old(memory).output@,
            memory.output_buffer@ == old(memory).output_buffer@,
            is_arith_seq(exprs@),
            sem_scaled(exprs@, s0, times as nat) == sem_scaled(
                exprs@.skip(i as int),
                memory.abs(),
                times as nat,
            ),
        decreases n - i,
    {
        let ghost pre = memory.abs();
        let ghost rest = exprs@.skip(i as int);
        proof {
            assert(rest[0] == exprs@[i as int]);
            assert(rest.drop_first() =~= exprs@.skip(i + 1));
        }
        match &exprs[i] {
            Expr::IncrementCount(c) => {
                proof {
                    lemma_wrap8_scale(memory.cells@[memory.pointer as int], *c * t32);
                }
                memory.increment_cell(c.wrapping_mul(t32));
            },
            Expr::DecrementCount(c) => {
                proof {
                    lemma_wrap8_scale(memory.cells@[memory.pointer as int], *c * t32);
                }
                memory.decrement_cell(c.wrapping_mul(t32));
            },
            Expr::MoveRightCount(c) => {
                let room = memory.cells.len() - memory.pointer;
                if (*c as usize) < room {
                    memory.move_pointer_right(*c);
                } else {
                    return Err(RuntimeError::PointerOverflow);
                }
            },
            Expr::MoveLeftCount(c) => {
                if (*c as usize) <= memory.pointer {
                    memory.move_pointer_left(*c);
                } else {
                    return Err(RuntimeError::PointerUnderflow);
                }
            },
            _ => {
                proof {
                    assert(is_arith(exprs@[i as int]));
                }
                return unreached();
            },
        }
        proof {
            assert(sem_arith(rest[0], pre, times as nat) == Step::Next(memory.abs()));
        }
        i = i + 1;
    }
    Ok(())
}

impl Expr {
    /// Applies this node's effect to the memory. `fuel` bounds how many times
    /// the gated loops may run their body again; the result is exactly what
    /// the semantics `sem_expr` assigns to this node at that fuel.
    pub fn run_effect(&self, memory: &mut Memory, fuel: u64) -> (r: Result<(), RuntimeError>)
        requires
            old(memory).wf(),
            self.wf(),
        ensures
            final(memory).wf(),
            r is Ok ==> sem_expr(*self, old(memory).abs(), fuel as nat) == Step::Next(
                final(memory).abs(),
            ),
            r is Err ==> sem_expr(*self, old(memory).abs(), fuel as nat) == Step::Abort(
                r->Err_0,
            ),
            buffer_advances(*old(memory), *final(memory)),
        decreases self,
    {
        match self {
            Expr::IncrementCount(c) => {
                memory.increment_cell(*c);
                proof {
                    lemma_buffer_unchanged(*old(memory), *memory);
                }
                Ok(())
            },
            Expr::DecrementCount(c) => {
                memory.decrement_cell(*c);
                proof {
                    lemma_buffer_unchanged(*old(memory), *memory);
                }
                Ok(())
            },
            Expr::MoveRightCount(c) => {
                let room = memory.cells.len() - memory.pointer;
                proof {
                    lemma_buffer_unchanged(*old(memory), *memory);
                }
                if (*c as usize) < room {
                    memory.move_pointer_right(*c);
                    proof {
                        lemma_buffer_unchanged(*old(memory), *memory);
                    }
                    Ok(())
                } else {
                    Err(RuntimeError::PointerOverflow)
                }
            },
            Expr::MoveLeftCount(c) => {
                proof {
                    lemma_buffer_unchanged(*old(memory), *memory);
                }
                if (*c as usize) <= memory.pointer {
                    memory.move_pointer_left(*c);
                    proof {
                        lemma_buffer_unchanged(*old(memory), *memory);
                    }
                    Ok(())
                } else {
                    Err(RuntimeError::PointerUnderflow)
                }
            },
            Expr::Output => {
                memory.output_cell();
                proof {
                    lemma_buffer_after_output(*old(memory), *memory);
                }
                Ok(())
            },
            Expr::Input => {
                let r = memory.input_cell();
                proof {
                    lemma_buffer_unchanged(*old(memory), *memory);
                }
                r
            },
            Expr::MakeZero => {
                let p = memory.pointer;
                memory.cells[p] = 0;
                proof {
                    lemma_buffer_unchanged(*old(memory), *memory);
                }
                Ok(())
            },
            Expr::JumpOut(inner) => {
                let (left, step) = match &**inner {
                    Expr::MoveLeftCount(c) => (true, *c),
                    Expr::MoveRightCount(c) => (false, *c),
                    _ => {
                        return unreached();
                    },
                };
                let ghost s0 = memory.abs();
                let mut fl = fuel;
                while memory.val() != 0
                    invariant
                        s0 == old(memory).abs(),
                        memory.wf(),
                        memory.output@ == old(memory).output@,
                        memory.output_buffer@ == old(memory).output_buffer@,
                        *self == Expr::JumpOut(*inner),
                        **inner == (if left {
                            Expr::MoveLeftCount(step)
                        } else {
                            Expr::MoveRightCount(step)
                        }),
                        sem_expr(*self, s0, fuel as nat) == sem_expr(
                            *self,
                            memory.abs(),
                            fl as nat,
                        ),
                    decreases fl,
                {
                    proof {
                        lemma_buffer_unchanged(*old(memory), *memory);
                    }
                    if fl == 0 {
                        return Err(RuntimeError::OutOfFuel);
                    }
                    fl = fl - 1;
                    if left {
                        if (step as usize) <= memory.pointer {
                            memory.move_pointer_left(step);
                        } else {
                            return Err(RuntimeError::PointerUnderflow);
                        }
                    } else {
                        let room = memory.cells.len() - memory.pointer;
                        if (step as usize) < room {
                            memory.move_pointer_right(step);
                        } else {
                            return Err(RuntimeError::PointerOverflow);
                        }
                    }
                }
                proof {
                    lemma_buffer_unchanged(*old(memory), *memory);
                }
                Ok(())
            },
            Expr::OffsetOp { o, v } => {
                proof {
                    lemma_buffer_unchanged(*old(memory), *memory);
                }
                match offset_target(memory, *o) {
                    Ok(a) => {
                        let x = memory.cells[a];
                        let d = signed_mod_cell(*v);
                        proof {
                            lemma_wrap8_add_residue(x, d, *v as int);
                        }
                        memory.cells[a] = x.wrapping_add(d);
                        proof {
                            lemma_buffer_unchanged(*old(memory), *memory);
                        }
                        Ok(())
                    },
                    Err(e) => Err(e),
                }
            },
            Expr::OffsetMakeZeroOp { o, v } => {
                let v0 = memory.val();
                proof {
                    lemma_buffer_unchanged(*old(memory), *memory);
                }
                if v0 == 0 {
                    return Ok(());
                }
                match offset_target(memory, *o) {
                    Ok(a) => {
                        let p = memory.pointer;
                        memory.cells[p] = 0;
                        let x = memory.cells[a];
                        let d0 = signed_mod_cell(*v);
                        let d = d0.wrapping_mul(v0);
                        proof {
                            vstd::arithmetic::div_mod::lemma_mul_mod_noop_left(
                                *v as int,
                                v0 as int,
                                256,
                            );
                            lemma_wrap8_add_residue(x, d, (*v as int) * v0);
                        }
                        memory.cells[a] = x.wrapping_add(d);
                        proof {
                            lemma_buffer_unchanged(*old(memory), *memory);
                        }
                        Ok(())
                    },
                    Err(e) => Err(e),
                }
            },
            Expr::Loop { exprs, one_time } => {
                if *one_time {
                    let times = memory.val();
                    proof {
                        lemma_buffer_unchanged(*old(memory), *memory);
                    }
                    if times == 0 {
                        return Ok(());
                    }
                    let r = run_scaled(exprs, memory, times);
                    proof {
                        lemma_buffer_unchanged(*old(memory), *memory);
                    }
                    r
                } else {
                    let ghost s0 = memory.abs();
                    let mut fl = fuel;
                    proof {
                        lemma_buffer_unchanged(*old(memory), *memory);
                    }
                    while memory.val() != 0
                        invariant
                            s0 == old(memory).abs(),
                            memory.wf(),
                            buffer_advances(*old(memory), *memory),
                            *self == (Expr::Loop { exprs: *exprs, one_time: false }),
                            self.wf(),
                            sem_expr(*self, s0, fuel as nat) == sem_expr(
                                *self,
                                memory.abs(),
                                fl as nat,
                            ),
                        decreases fl,
                    {
                        if fl == 0 {
                            return Err(RuntimeError::OutOfFuel);
                        }
                        fl = fl - 1;
                        let ghost mid = *memory;
                        match execute(exprs, memory, fl) {
                            Ok(()) => {
                                proof {
                                    lemma_buffer_advances_trans(*old(memory), mid, *memory);
                                }
                            },
                            Err(e) => {
                                proof {
                                    lemma_buffer_advances_trans(*old(memory), mid, *memory);
                                }
                                return Err(e);
                            },
                        }
                    }
                    Ok(())
                }
            },
        }
    }

    /// Applies this node's effect to the memory: a synonym of `run_effect`
    /// for callers that use the shorter name.
    pub fn effect(&self, memory: &mut Memory, fuel: u64) -> (r: Result<(), RuntimeError>)
        requires
            old(memory).wf(),
            self.wf(),
        ensures
            final(memory).wf(),
            r is Ok ==> sem_expr(*self, old(memory).abs(), fuel as nat) == Step::Next(
                final(memory).abs(),
            ),
            r is Err ==> sem_expr(*self, old(memory).abs(), fuel as nat) == Step::Abort(
                r->Err_0,
            ),
            buffer_advances(*old(memory), *final(memory)),
    {
        self.run_effect(memory, fuel)
    }
}

/// Runs a whole instruction sequence left to right, stopping at the first
/// runtime error; the result is exactly what `sem_seq` assigns to it.
pub fn execute(exprs: &Vec<Expr>, memory: &mut Memory, fuel: u64) -> (r: Result<(), RuntimeError>)
    requires
        old(memory).wf(),
        wf_seq(exprs@),
    ensures
        final(memory).wf(),
        r is Ok ==> sem_seq(exprs@, old(memory).abs(), fuel as nat) == Step::Next(
            final(memory).abs(),
        ),
        r is Err ==> sem_seq(exprs@, old(memory).abs(), fuel as nat) == Step::Abort(r->Err_0),
        buffer_advances(*old(memory), *final(memory)),
    decreases exprs,
{
    let ghost s0 = memory.abs();
    proof {
        assert(exprs@.skip(0) =~= exprs@);
        lemma_buffer_unchanged(*old(memory), *memory);
    }
    let n = exprs.len();
    let mut i: usize = 0;
    while i < n
        invariant
            s0 == old(memory).abs(),
            i <= n,
            n == exprs@.len(),
            memory.wf(),
            buffer_advances(*old(memory), *memory),
            wf_seq(exprs@),
            sem_seq(exprs@, s0, fuel as nat) == sem_seq(
                exprs@.skip(i as int),
                memory.abs(),
                fuel as nat,
            ),
        decreases n - i,
    {
        let ghost rest = exprs@.skip(i as int);
        proof {
            assert(rest[0] == exprs@[i as int]);
            assert(rest.drop_first() =~= exprs@.skip(i + 1));
        }
        let ghost mid = *memory;
        match exprs[i].run_effect(memory, fuel) {
            Ok(()) => {
                proof {
                    lemma_buffer_advances_trans(*old(memory), mid, *memory);
                }
            },
            Err(e) => {
                proof {
                    lemma_buffer_advances_trans(*old(memory), mid, *memory);
                }
                return Err(e);
            },
        }
        i = i + 1;
    }
    Ok(())
}

/// The absolute tape index `pointer + o`, or the runtime error when it falls
/// outside the tape.
fn offset_target(memory: &Memory, o: i32) -> (r: Result<usize, RuntimeError>)
    requires
        memory.wf(),
    ensures
        match r {
            Ok(a) => 0 <= memory.pointer + o < memory.cells@.len() && a == memory.pointer + o,
            Err(e) => {
                &&& !(0 <= memory.pointer + o < memory.cells@.len())
                &&& e == (if memory.pointer + o < 0 {
                    RuntimeError::PointerUnderflow
                } else {
                    RuntimeError::PointerOverflow
                })
            },
        },
{
    if o >= 0 {
        let off = o as usize;
        let room = memory.cells.len() - memory.pointer;
        if off < room {
            Ok(memory.pointer + off)
        } else {
            Err(RuntimeError::PointerOverflow)
        }
    } else {
        let mag = (-(o as i64)) as usize;
        if mag <= memory.pointer {
            Ok(memory.pointer - mag)
        } else {
            Err(RuntimeError::PointerUnderflow)
        }
    }
}

/// The cell-width residue of a signed delta, as the byte every wrapping cell
/// operation adds.
fn signed_mod_cell(v: i32) -> (d: u8)
    ensures
        d as int == (v as int) % 256,
{
    if v >= 0 {
        ((v as u32) % 256) as u8
    } else {
        let m = (-(v as i64)) as u64;
        let rem = (m % 256) as u8;
        proof {
            lemma_neg_mod(v as int, m as int);
        }
        if rem == 0 {
            0
        } else {
            ((256 - rem as u32) % 256) as u8
        }
    }
}

/// For a negative `v` with magnitude `m`, the cell-width residue of `v` is
/// `256 - m % 256`, folded to 0 when `m % 256 == 0`.
proof fn lemma_neg_mod(v: int, m: int)
    requires
        v < 0,
        m == -v,
    ensures
        (m % 256) == 0 ==> v % 256 == 0,
        (m % 256) != 0 ==> v % 256 == 256 - (m % 256),
{
    let q = m / 256;
    let r = m % 256;
    vstd::arithmetic::div_mod::lemma_fundamental_div_mod(m, 256);
    assert(m == 256 * q + r);
    if r == 0 {
        assert(v == 256 * (-q));
        vstd::arithmetic::div_mod::lemma_mod_multiples_vanish(-q, 0, 256);
    } else {
        assert(v == 256 * (-q - 1) + (256 - r));
        vstd::arithmetic::div_mod::lemma_mod_multiples_vanish(-q - 1, 256 - r, 256);
        vstd::arithmetic::div_mod::lemma_small_mod((256 - r) as nat, 256);
    }
}

/// Wrapping-adding the cell-width residue of a signed delta to a cell equals
/// adding the delta itself modulo the cell width.
proof fn lemma_wrap8_add_residue(x: u8, d: u8, v: int)
    requires
        d == v % 256,
    ensures
        crate::arith::wrap8(x + v) == if x + d > 255 {
            (x + d - 256) as u8
        } else {
            (x + d) as u8
        },
{
    vstd::arithmetic::div_mod::lemma_add_mod_noop_right(x as int, v, 256);
    let s = x + d;
    if s > 255 {
        vstd::arithmetic::div_mod::lemma_mod_sub_multiples_vanish(s, 256);
        vstd::arithmetic::div_mod::lemma_small_mod((s - 256) as nat, 256);
    } else {
        vstd::arithmetic::div_mod::lemma_small_mod(s as nat, 256);
    }
}

} // verus!
