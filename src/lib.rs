//! Code generation for an eight-instruction tape machine: a builder that tracks
//! the data pointer, hands out tape cells in LIFO order and emits structured
//! algorithms, a tail-trimming pass over the result, and a small mnemonic
//! front end.
use vstd::prelude::*;

pub mod instr;
pub mod model;
pub mod optimizer;
pub mod builder;
pub mod parse;
pub mod codegen;
pub mod tape;

verus! {

} // verus!
