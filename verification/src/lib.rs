//! A lexer and parser for an indentation-sensitive, line-oriented outline
//! format: key/value lines, quoted text, quote lines, verbatim blocks and
//! nested sections.
//!
//! The lexer turns a [`source::SourceBuffer`] into a token stream from which
//! the buffer can be rebuilt byte for byte; the parser turns that stream into
//! a tree and a list of diagnostics, and never gives up on malformed input.

pub mod source;
pub mod tokens;
pub mod scan;
pub mod lexer;
pub mod error;
pub mod nodes;
pub mod parser;

pub use crate::error::ParsingError;
pub use crate::lexer::lex;
pub use crate::nodes::SyntaxElement;
pub use crate::parser::{parse, parse_tokens};
pub use crate::tokens::{Token, TokenType};
