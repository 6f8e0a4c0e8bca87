use vstd::prelude::*;

pub mod text;
pub mod keyed;
pub mod token;
pub mod lex_error;
pub mod lexicon;
pub mod lexer;
pub mod ast;
pub mod parse_error;
pub mod parser;
pub mod types;
pub mod symbol_table;
pub mod semantic_error;
pub mod analyzer;
pub mod laws;
pub mod bytecode;
pub mod vm_error;
pub mod vm_control;
pub mod compiler;
pub mod repl;
pub mod cli;

verus! {

} // verus!
