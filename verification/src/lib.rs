use vstd::prelude::*;

pub mod span;
pub mod text;
pub mod scanner;
pub mod stack;
pub mod value;
pub mod objects;
pub mod chunk;
pub mod names;
pub mod errors;
pub mod vm;
pub mod grammar;
pub mod parser;
pub mod compiler;
pub mod program;
pub mod codegen;
pub mod syntax;
pub mod repl;

verus! {
} // verus!
