//! A small interpreted scripting language: a lexer, a precedence-climbing
//! parser and a tree-walking evaluator, each with a mathematical model and
//! contracts that tie the executable code to it.
pub mod ast;
pub mod lexer;
pub mod text;
pub mod text_ops;
pub mod value;
pub mod eval;
pub mod laws;
pub mod server;
pub mod parser;
