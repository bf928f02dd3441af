//! A tokenizer for a small imperative scripting language: it turns source
//! bytes into a list of tokens, with every step proved against a model of
//! the lexical grammar.
pub mod grammar;
pub mod laws;
pub mod lexer;
pub mod token;

pub use lexer::{get_token, run, Lexer};
pub use token::{LexError, Token};
