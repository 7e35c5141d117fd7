//! A minimal programming language: a token-stream parser that builds an
//! abstract syntax tree by ordered-choice recursive descent, and a
//! tree-walking evaluator with a function table and a call stack.
//!
//! The tokenizer is an external collaborator: callers hand the parser an
//! already classified token sequence (see `parser::Token`).

pub mod interpreter;
pub mod laws;
pub mod parser;
