//! A JSON lexer and recursive-descent parser whose behaviour is stated in
//! contracts over mathematical models of the text, the tokens and the value
//! tree, and proved against them.
//!
//! The pipeline is pull-driven: the [`Parser`] asks the [`Lexer`] for one
//! token at a time, and the lexer asks the [`Cursor`] for one character at a
//! time.

pub mod position;
pub mod error;
pub mod cursor;
pub mod token;
pub mod lexical;
pub mod lexer;
pub mod value;
pub mod syntax;
pub mod parser;
pub mod encode;
pub mod proofs;

pub use cursor::Cursor;
pub use encode::encode;
pub use lexer::Lexer;
pub use error::{ErrorKind, JsonError, LexError, ParseError};
pub use parser::{parse, Parser, DEFAULT_MAX_DEPTH};
pub use position::Position;
pub use token::{Token, TokenKind};
pub use value::Value;
