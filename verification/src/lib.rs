use vstd::prelude::*;

pub mod text;
pub mod signal_hierarchy;
pub mod ast;
pub mod lexer;
pub mod grammar;
pub mod parser;
pub mod value;
pub mod semantics;
pub mod evaluator;
pub mod tracer;
pub mod cpp_witness;
pub mod plan;
pub mod recording;
pub mod bignum;

verus! {
} // verus!
