//! A tree-walking interpreter for a small dynamically typed scripting
//! language: a scanner from source text to tokens, a recursive-descent parser
//! from tokens to statements, and an evaluator over lexically nested scopes.
//! Each stage is proved against a specification written as spec functions:
//! `scanner::scan`, `parser::parse_result` and `interpreter::exec_list`.

pub mod common;
pub mod environment;
pub mod error;
pub mod interpreter;
pub mod parser;
pub mod scanner;
pub mod utils;
