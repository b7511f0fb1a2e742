use vstd::prelude::*;
use crate::arith::{lemma_wrap8_add, lemma_wrap8_sub, wrap8};

verus! {

/// A runtime invariant violation: execution stops at once when one occurs.
#[derive(Debug, PartialEq, Eq, Structural, Clone, Copy)]
pub enum RuntimeError {
    /// The pointer would move left of index 0.
    PointerUnderflow,
    /// The pointer would move at or past the tape's upper bound.
    PointerOverflow,
    /// An input instruction ran with no input byte left.
    InputExhausted,
    /// The executor's loop-iteration budget ran out before the program ended.
    OutOfFuel,
}

/// The number of cells of a fresh tape.
pub const TAPE_LEN: usize = 30000;

/// The output buffer is flushed to the output stream whenever it reaches this
/// many bytes, and unconditionally at the end of a run.
pub const FLUSH_THRESHOLD: usize = 64;

/// The tape memory: a fixed array of byte cells, a data pointer, the input
/// bytes still to be consumed, and the output stream with its small buffer.
#[derive(Debug)]
pub struct Memory {
    /// The cell array.
    pub cells: Vec<u8>,
    /// The index of the current cell.
    pub pointer: usize,
    /// The bytes available to input instructions.
    pub input: Vec<u8>,
    /// How many of the input bytes were already consumed.
    pub input_pos: usize,
    /// Output bytes not yet moved to the stream.
    pub output_buffer: Vec<u8>,
    /// The output stream: every byte emitted so far, in order, once flushed.
    pub output: Vec<u8>,
}

impl Memory {
    /// The pointer stays inside the tape and the input cursor inside the input.
    pub open spec fn wf(self) -> bool {
        &&& self.pointer < self.cells@.len()
        &&& self.input_pos <= self.input@.len()
    }

    /// The whole output emitted so far, buffered or already on the stream.
    pub open spec fn emitted(self) -> Seq<u8> {
        self.output@ + self.output_buffer@
    }

    /// The input bytes not yet consumed.
    pub open spec fn pending_input(self) -> Seq<u8> {
        self.input@.skip(self.input_pos as int)
    }

    /// A fresh tape: all cells zero, the pointer at index 0, no input and no
    /// output.
    pub fn new() -> (m: Memory)
        ensures
            m.wf(),
            m.cells@ == Seq::new(TAPE_LEN as nat, |i: int| 0u8),
            m.pointer == 0,
            m.input@.len() == 0,
            m.input_pos == 0,
            m.output_buffer@.len() == 0,
            m.output@.len() == 0,
    {
        let cells: Vec<u8> = vec![0u8; TAPE_LEN];
        proof {
            assert(cells@ =~= Seq::new(TAPE_LEN as nat, |i: int| 0u8));
        }
        Memory {
            cells,
            pointer: 0,
            input: Vec::new(),
            input_pos: 0,
            output_buffer: Vec::new(),
            output: Vec::new(),
        }
    }

    /// The value of the current cell.
    pub fn val(&self) -> (v: u8)
        requires
            self.wf(),
        ensures
            v == self.cells@[self.pointer as int],
    {
        self.cells[self.pointer]
    }

    /// Adds `c`, modulo the cell width, to the current cell.
    pub fn increment_cell(&mut self, c: u32)
        requires
            old(self).wf(),
        ensures
            final(self).wf(),
            final(self).cells@ == old(self).cells@.update(
                old(self).pointer as int,
                wrap8(old(self).cells@[old(self).pointer as int] + c),
            ),
            final(self).pointer == old(self).pointer,
            final(self).input@ == old(self).input@,
            final(self).input_pos == old(self).input_pos,
            final(self).output_buffer@ == old(self).output_buffer@,
            final(self).output@ == old(self).output@,
    {
        let p = self.pointer;
        let x = self.cells[p];
        let d: u8 = (c % 256) as u8;
        proof {
            lemma_wrap8_add(x, c as int);
        }
        self.cells[p] = x.wrapping_add(d);
    }

    /// Subtracts `c`, modulo the cell width, from the current cell.
    pub fn decrement_cell(&mut self, c: u32)
        requires
            old(self).wf(),
        ensures
            final(self).wf(),
            final(self).cells@ == old(self).cells@.update(
                old(self).pointer as int,
                wrap8(old(self).cells@[old(self).pointer as int] - c),
            ),
            final(self).pointer == old(self).pointer,
            final(self).input@ == old(self).input@,
            final(self).input_pos == old(self).input_pos,
            final(self).output_buffer@ == old(self).output_buffer@,
            final(self).output@ == old(self).output@,
    {
        let p = self.pointer;
        let x = self.cells[p];
        let d: u8 = (c % 256) as u8;
        proof {
            lemma_wrap8_sub(x, c as int);
        }
        self.cells[p] = x.wrapping_sub(d);
    }

    /// Moves the pointer `c` cells to the right. The caller must have checked
    /// that the move stays inside the tape.
    pub fn move_pointer_right(&mut self, c: u32)
        requires
            old(self).wf(),
            old(self).pointer + c < old(self).cells@.len(),
        ensures
            final(self).wf(),
            final(self).pointer == old(self).pointer + c,
            final(self).cells@ == old(self).cells@,
            final(self).input@ == old(self).input@,
            final(self).input_pos == old(self).input_pos,
            final(self).output_buffer@ == old(self).output_buffer@,
            final(self).output@ == old(self).output@,
    {
        let n = self.cells.len();
        self.pointer = self.pointer + c as usize;
    }

    /// Moves the pointer `c` cells to the left. The caller must have checked
    /// that the move does not pass index 0.
    pub fn move_pointer_left(&mut self, c: u32)
        requires
            old(self).wf(),
            c <= old(self).pointer,
        ensures
            final(self).wf(),
            final(self).pointer == old(self).pointer - c,
            final(self).cells@ == old(self).cells@,
            final(self).input@ == old(self).input@,
            final(self).input_pos == old(self).input_pos,
            final(self).output_buffer@ == old(self).output_buffer@,
            final(self).output@ == old(self).output@,
    {
        self.pointer = self.pointer - c as usize;
    }

    /// Appends the current cell to the emitted output. The byte goes into
    /// the buffer; if the buffer thereby reaches the flush threshold it is
    /// flushed whole to the stream, otherwise the stream is untouched.
    pub fn output_cell(&mut self)
        requires
            old(self).wf(),
        ensures
            final(self).wf(),
            final(self).emitted() == old(self).emitted().push(
                old(self).cells@[old(self).pointer as int],
            ),
            old(self).output_buffer@.len() + 1 >= FLUSH_THRESHOLD ==> {
                &&& final(self).output@ == old(self).output@
                    + old(self).output_buffer@.push(old(self).cells@[old(self).pointer as int])
                &&& final(self).output_buffer@.len() == 0
            },
            old(self).output_buffer@.len() + 1 < FLUSH_THRESHOLD ==> {
                &&& final(self).output@ == old(self).output@
                &&& final(self).output_buffer@ == old(self).output_buffer@.push(
                    old(self).cells@[old(self).pointer as int],
                )
            },
            final(self).cells@ == old(self).cells@,
            final(self).pointer == old(self).pointer,
            final(self).input@ == old(self).input@,
            final(self).input_pos == old(self).input_pos,
    {
        let v = self.cells[self.pointer];
        self.output_buffer.push(v);
        if self.output_buffer.len() >= FLUSH_THRESHOLD {
            self.flush();
        }
        proof {
            assert(self.emitted() =~= old(self).emitted().push(
                old(self).cells@[old(self).pointer as int],
            ));
        }
    }

    /// Moves every buffered output byte to the output stream. The emitted
    /// output is unchanged; only its split between buffer and stream moves.
    pub fn flush(&mut self)
        requires
            old(self).wf(),
        ensures
            final(self).wf(),
            final(self).output@ == old(self).output@ + old(self).output_buffer@,
            final(self).output_buffer@.len() == 0,
            final(self).emitted() == old(self).emitted(),
            final(self).cells@ == old(self).cells@,
            final(self).pointer == old(self).pointer,
            final(self).input@ == old(self).input@,
            final(self).input_pos == old(self).input_pos,
    {
        let mut drained: Vec<u8> = Vec::new();
        core::mem::swap(&mut drained, &mut self.output_buffer);
        self.output.append(&mut drained);
        proof {
            assert(self.emitted() =~= old(self).emitted());
        }
    }

    /// Stores the next input byte into the current cell, or reports that the
    /// input is exhausted and leaves the memory unchanged.
    pub fn input_cell(&mut self) -> (r: Result<(), RuntimeError>)
        requires
            old(self).wf(),
        ensures
            final(self).wf(),
            old(self).pending_input().len() > 0 ==> {
                &&& r is Ok
                &&& final(self).cells@ == old(self).cells@.update(
                    old(self).pointer as int,
                    old(self).pending_input()[0],
                )
                &&& final(self).pending_input() == old(self).pending_input().drop_first()
                &&& final(self).input@ == old(self).input@
            },
            old(self).pending_input().len() == 0 ==> {
                &&& r == Result::<(), RuntimeError>::Err(RuntimeError::InputExhausted)
                &&& *final(self) == *old(self)
            },
            final(self).pointer == old(self).pointer,
            final(self).output_buffer@ == old(self).output_buffer@,
            final(self).output@ == old(self).output@,
    {
        if self.input_pos < self.input.len() {
            let b = self.input[self.input_pos];
            self.cells[self.pointer] = b;
            self.input_pos = self.input_pos + 1;
            proof {
                assert(self.pending_input() =~= old(self).pending_input().drop_first());
            }
            Ok(())
        } else {
            Err(RuntimeError::InputExhausted)
        }
    }
}

/// How the stream/buffer split advances across one verified operation:
/// starting under the flush threshold, the buffer ends holding exactly the
/// bytes emitted since the last flush — its length is the old length plus
/// the newly emitted bytes, reduced modulo the threshold — and stays under
/// the threshold. Since the emitted output is always the stream followed by
/// the buffer, this length pins the whole split.
pub open spec fn buffer_advances(pre: Memory, post: Memory) -> bool {
    pre.output_buffer@.len() < FLUSH_THRESHOLD ==> {
        &&& post.emitted().len() >= pre.emitted().len()
        &&& post.output_buffer@.len() == (pre.output_buffer@.len() + post.emitted().len()
            - pre.emitted().len()) % (FLUSH_THRESHOLD as int)
        &&& post.output_buffer@.len() < FLUSH_THRESHOLD
    }
}

/// An operation that leaves stream and buffer alone advances the split
/// trivially.
pub proof fn lemma_buffer_unchanged(pre: Memory, post: Memory)
    requires
        post.output@ == pre.output@,
        post.output_buffer@ == pre.output_buffer@,
    ensures
        buffer_advances(pre, post),
{
    if pre.output_buffer@.len() < FLUSH_THRESHOLD {
        vstd::arithmetic::div_mod::lemma_small_mod(
            pre.output_buffer@.len(),
            FLUSH_THRESHOLD as nat,
        );
    }
}

/// The split relation composes across consecutive operations.
pub proof fn lemma_buffer_advances_trans(a: Memory, b: Memory, c: Memory)
    requires
        buffer_advances(a, b),
        buffer_advances(b, c),
    ensures
        buffer_advances(a, c),
{
    if a.output_buffer@.len() < FLUSH_THRESHOLD {
        let t = FLUSH_THRESHOLD as int;
        let k1 = b.emitted().len() - a.emitted().len();
        vstd::arithmetic::div_mod::lemma_add_mod_noop_right(
            c.emitted().len() - b.emitted().len(),
            a.output_buffer@.len() + k1,
            t,
        );
    }
}

/// Emitting one byte advances the split by one position, wrapping to an
/// empty buffer at the threshold — the shape `output_cell` leaves behind.
pub proof fn lemma_buffer_after_output(pre: Memory, post: Memory)
    requires
        post.emitted().len() == pre.emitted().len() + 1,
        pre.output_buffer@.len() + 1 >= FLUSH_THRESHOLD ==> post.output_buffer@.len() == 0,
        pre.output_buffer@.len() + 1 < FLUSH_THRESHOLD ==> post.output_buffer@.len() == pre.output_buffer@.len() + 1,
    ensures
        buffer_advances(pre, post),
{
    if pre.output_buffer@.len() < FLUSH_THRESHOLD {
        let t = FLUSH_THRESHOLD as int;
        let b1 = pre.output_buffer@.len() + 1;
        if b1 >= t {
            assert(b1 == t);
            vstd::arithmetic::div_mod::lemma_mod_multiples_basic(1, t);
        } else {
            vstd::arithmetic::div_mod::lemma_small_mod(b1 as nat, t as nat);
        }
    }
}

/// When an operation emits nothing, the split relation forces stream and
/// buffer themselves to be untouched: the buffer keeps its length, and the
/// unchanged emitted output then determines both parts.
pub proof fn lemma_split_determined(pre: Memory, post: Memory)
    requires
        pre.output_buffer@.len() < FLUSH_THRESHOLD,
        post.emitted() == pre.emitted(),
        buffer_advances(pre, post),
    ensures
        post.output@ == pre.output@,
        post.output_buffer@ == pre.output_buffer@,
{
    vstd::arithmetic::div_mod::lemma_small_mod(pre.output_buffer@.len(), FLUSH_THRESHOLD as nat);
    assert(post.output_buffer@.len() == pre.output_buffer@.len());
    assert(post.output@.len() == pre.output@.len());
    assert(post.output@ =~= pre.output@) by {
        assert forall|i: int| 0 <= i < pre.output@.len() implies post.output@[i]
            == pre.output@[i] by {
            assert(post.emitted()[i] == post.output@[i]);
            assert(pre.emitted()[i] == pre.output@[i]);
        };
    };
    assert(post.output_buffer@ =~= pre.output_buffer@) by {
        assert forall|i: int| 0 <= i < pre.output_buffer@.len() implies post.output_buffer@[i]
            == pre.output_buffer@[i] by {
            let j = pre.output@.len() + i;
            assert(post.emitted()[j] == post.output_buffer@[i]);
            assert(pre.emitted()[j] == pre.output_buffer@[i]);
        };
    };
}

} // verus!
