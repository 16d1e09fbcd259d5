//! The core of a JIT compiler for a small S-expression language with
//! tagged 63-bit integers and booleans: the tagged value encoding, the
//! parser from S-expressions to expressions, the code generator from
//! expressions to an x86-64-shaped instruction list and its textual form,
//! the per-session state of the interactive evaluator, and a model of how
//! the instruction list runs, over which the generator's laws are proved.
pub mod instructions;
pub mod text;
pub mod value;
pub mod expressions;
pub mod counter;
pub mod context;
pub mod compile_helpers;
pub mod compile;
pub mod session;
pub mod semantics;
pub mod parse;
