//! The pipeline, leaf first: tokens, the tokenizer, the parser, exact
//! numbers and their text, the evaluator, and expressions written back as
//! text.

pub mod ast;
pub mod dice;
pub mod lexer;
pub mod number;
pub mod parser;
pub mod powers;
pub mod render;
pub mod tokens;
pub mod unparse;
