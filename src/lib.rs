//! Single-digit arithmetic expressions: a lexer, a precedence-climbing
//! parser, a prefix renderer and an exact evaluator.

pub mod lexer;
pub mod expr;
pub mod eval;
pub mod laws;
