//! Front end of a small scripting language: a tokenizer that turns source
//! text into a flat token sequence, and a recursive-descent parser that
//! turns that sequence into an abstract syntax tree.

pub mod lexer;
pub mod parser;
