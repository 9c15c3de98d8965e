//! Parsing of duration expressions: a tokenizer and a grammar over its tokens.

pub mod case;
pub mod spacing;
pub mod grammar;
pub mod joining;
pub mod tokens;

pub use grammar::Parser;
pub use tokens::{Token, Tokenizer};
