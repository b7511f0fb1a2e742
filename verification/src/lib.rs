//! A verified interpreter for a minimal esoteric instruction language over a
//! linear byte tape: a lexer, a structural builder with run-length folding, a
//! peephole optimizer that rewrites idiomatic loop shapes into specialized
//! opcodes, and a tree-walking executor over a tape-memory model with modeled
//! byte input and buffered byte output.

pub mod arith;
pub mod executor;
pub mod expr;
pub mod interpreter;
pub mod laws;
pub mod memory;
pub mod parser;
pub mod semantics;
pub mod token;

pub use expr::Expr;
pub use interpreter::Interpreter;
pub use interpreter::InterpretError;
pub use memory::Memory;
pub use memory::RuntimeError;
pub use parser::Parser;
pub use parser::StructuralError;
pub use token::Token;
