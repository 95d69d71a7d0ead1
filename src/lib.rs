use vstd::prelude::*;

pub mod codegen;
pub mod grammar;
pub mod lexer;
pub mod parser;
pub mod source_text;
pub mod text;

verus! {

} // verus!
