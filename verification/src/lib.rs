//! A lexical scanner for a small dynamically-typed scripting language.
//!
//! The scanner turns raw source bytes into an ordered sequence of classified
//! tokens with source-location metadata. Lexemes are kept as spans (byte
//! ranges) into the original buffer, never copied. Lexical errors are
//! collected as diagnostic values and never abort the scan.

pub mod tokens;
pub mod lexer;
pub mod laws;

pub use crate::lexer::Diagnostic;
pub use crate::lexer::Lexer;
pub use crate::tokens::Keyword;
pub use crate::tokens::Span;
pub use crate::tokens::Token;
pub use crate::tokens::TokenType;
