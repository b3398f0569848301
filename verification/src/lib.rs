//! A lexer for a small expression and statement language.
//!
//! The lexer walks a borrowed byte buffer and hands out one token per step,
//! checking on the way that `()`, `{}` and `[]` nest correctly.

pub mod brackets;
pub mod bytes;
pub mod error;
pub mod grammar;
pub mod laws;
pub mod lexer;
pub mod token;

pub use error::LexError;
pub use lexer::Lexer;
pub use token::{Bracket, BracketState, Token, TokenType, TokenView};
