//! A front end for a minimal S-expression language: a lexer that turns source
//! text into tokens, and a recursive-descent parser that turns tokens into a
//! tree of call expressions.

pub mod grammar;
pub mod lexical;
pub mod nesting;
pub mod parser;
pub mod tokenizer;
