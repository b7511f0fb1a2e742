use vstd::prelude::*;
use crate::executor::execute;
use crate::expr::{wf_seq, Expr};
use crate::memory::{Memory, RuntimeError};
use crate::parser::{builds, StructuralError};
use crate::semantics::{init_state, sem_seq, Step};
use crate::token::Token;

verus! {

/// Everything that can stop a run: a structural error found before any
/// execution, or a runtime invariant violation during execution.
#[derive(Debug, PartialEq, Eq, Structural, Clone, Copy)]
pub enum InterpretError {
    Parse(StructuralError),
    Runtime(RuntimeError),
}

/// The whole pipeline around one source text: parsing it into the optimized
/// instruction tree, and running that tree on a fresh tape.
pub struct Interpreter {
    /// The source text.
    pub source: String,
    /// The instruction tree, filled by `parse`.
    pub exprs: Vec<Expr>,
}

impl Interpreter {
    /// The characters of the source text held by this interpreter.
    pub open spec fn src(&self) -> Seq<char> {
        self.source@
    }

    /// Wraps a source text, with no instructions parsed yet.
    pub fn new(source: String) -> (r: Interpreter)
        ensures
            r.src() == source@,
            r.exprs@ == Seq::<Expr>::empty(),
    {
        Interpreter { source, exprs: Vec::new() }
    }

    /// Tokenizes and builds the source into `self.exprs`: afterwards the tree
    /// is exactly what the builder relation assigns to the source, and every
    /// node is well-formed. On a structural error the tree is left unchanged.
    pub fn parse(&mut self) -> (r: Result<(), StructuralError>)
        ensures
            final(self).src() == old(self).src(),
            r matches Ok(_) ==> builds(old(self).src(), Ok(final(self).exprs@)) && wf_seq(
                final(self).exprs@,
            ),
            r matches Err(e) ==> builds(old(self).src(), Err(e)) && final(self).exprs@ == old(
                self,
            ).exprs@,
    {
        let tokens = Token::tokenize(self.source.as_str());
        match Expr::from_tokens(tokens) {
            Ok(es) => {
                self.exprs = es;
                Ok(())
            },
            Err(e) => Err(e),
        }
    }

    /// Parses the source and runs it against a fresh tape with the given
    /// input bytes, under the given loop-iteration budget. On success the
    /// returned memory is exactly the final state of the semantics, with all
    /// output flushed to its stream.
    pub fn run(&mut self, input: Vec<u8>, fuel: u64) -> (r: Result<Memory, InterpretError>)
        ensures
            final(self).src() == old(self).src(),
            match r {
                Ok(m) => {
                    &&& builds(old(self).src(), Ok(final(self).exprs@))
                    &&& wf_seq(final(self).exprs@)
                    &&& sem_seq(final(self).exprs@, init_state(input@), fuel as nat)
                        == Step::Next(m.abs())
                    &&& m.wf()
                    &&& m.output_buffer@.len() == 0
                    &&& m.output@ == m.abs().out
                },
                Err(InterpretError::Parse(e)) => builds(old(self).src(), Err(e)),
                Err(InterpretError::Runtime(e)) => {
                    &&& builds(old(self).src(), Ok(final(self).exprs@))
                    &&& wf_seq(final(self).exprs@)
                    &&& sem_seq(final(self).exprs@, init_state(input@), fuel as nat)
                        == Step::Abort(e)
                },
            },
    {
        match self.parse() {
            Ok(()) => {},
            Err(e) => {
                return Err(InterpretError::Parse(e));
            },
        }
        let mut memory = Memory::new();
        memory.input = input;
        proof {
            assert(memory.pending_input() =~= memory.input@);
            assert(memory.emitted() =~= Seq::<u8>::empty());
            assert(memory.cells@ =~= init_state(memory.input@).tape);
            assert(memory.abs() == init_state(memory.input@));
        }
        match execute(&self.exprs, &mut memory, fuel) {
            Ok(()) => {
                let ghost pre = memory.abs();
                memory.flush();
                proof {
                    assert(memory.abs() == pre);
                    assert(memory.output@ =~= memory.emitted());
                }
                Ok(memory)
            },
            Err(e) => Err(InterpretError::Runtime(e)),
        }
    }
}

} // verus!
