//! A compiler and runtime for the eight-opcode tape language: a parser into a
//! run-length encoded tree, a reference semantics, a tree-walking interpreter,
//! and the lowering of the tree into the operations that the native code
//! generator emits.
pub mod ir;
pub mod parser;
pub mod semantics;
pub mod interp;
pub mod codegen;
pub mod correctness;

pub use ir::{Instruction, MEMORY_SIZE};
pub use parser::{parse, ParseError};
pub use semantics::RunError;
pub use interp::{eval, run, Environment};
pub use codegen::{lower, Op, State, MAX_IMM};
