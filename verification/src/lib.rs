//! Front end for a small parenthesized language: a character-driven lexer,
//! a token-stream validator, and a stack-based tree builder.

pub mod environment;
pub mod ir_generation;
pub mod lexer;
pub mod numeric;
pub mod parser;
pub mod relex;
pub mod syntax_analysis;
pub mod text;
