//! A single-pass scanner that turns script source text into lexical tokens.
//!
//! The behaviour of the scanner is given by the spec function [`grammar::scan`];
//! [`Lexer::next_token`] is proved to follow it exactly.
mod error;
pub mod grammar;
pub mod laws;
mod lexer;
mod text;
mod token;

pub use lexer::{tokenize, views, Lexer};
pub use error::{ErrorKind, LexError};
pub use token::{result_view, ConversionView, Token, TokenView, TypeConversion};
