//! The errors of lexing and parsing. Every error is fatal to the parse and
//! carries the position at which the offending token starts.

use crate::position::Position;
use vstd::prelude::*;

verus! {

/// Malformed syntax inside one token.
#[derive(Clone, Copy, Debug, PartialEq, Eq, Structural)]
pub enum LexError {
    /// A backslash in a string is followed by a character that starts no
    /// escape, or `\u` is not followed by four hexadecimal digits.
    InvalidEscape,
    /// The input ends before the closing quote of a string.
    UnterminatedString,
    /// A number departs from `-?(0|[1-9]\d*)(\.\d+)?([eE][+-]?\d+)?`.
    InvalidNumber,
    /// A word that starts like `true`, `false` or `null` is not that word.
    /// Holds the first character that departs from it, or `None` where the
    /// input ends inside the word.
    UnknownLiteral(Option<char>),
    /// A character that can start no token.
    UnexpectedCharacter(char),
}

/// Malformed structure among well-formed tokens.
#[derive(Clone, Copy, Debug, PartialEq, Eq, Structural)]
pub enum ParseError {
    /// A token stands where the grammar allows another one.
    UnexpectedToken,
    /// An object key is not followed by a colon.
    ExpectedColon,
    /// A comma is directly followed by the closing bracket or brace.
    TrailingComma,
    /// Something other than whitespace follows the top-level value.
    TrailingContent,
    /// Arrays and objects are nested deeper than the parser's limit.
    MaxDepthExceeded,
}

/// What went wrong: one of the lexical or one of the structural errors.
#[derive(Clone, Copy, Debug, PartialEq, Eq, Structural)]
pub enum ErrorKind {
    Lex(LexError),
    Parse(ParseError),
}

/// The single error that a failed parse reports: the first problem found and
/// the position at which the offending token starts.
#[derive(Clone, Copy, Debug, PartialEq, Eq, Structural)]
pub struct JsonError {
    pub kind: ErrorKind,
    pub position: Position,
}

/// The text that describes an error of the given kind.
pub open spec fn message_text(kind: ErrorKind) -> Seq<char> {
    match kind {
        ErrorKind::Lex(LexError::InvalidEscape) => "invalid escape sequence in string"@,
        ErrorKind::Lex(LexError::UnterminatedString) => "unterminated string"@,
        ErrorKind::Lex(LexError::InvalidNumber) => "invalid number"@,
        ErrorKind::Lex(LexError::UnknownLiteral(_)) => "unknown literal"@,
        ErrorKind::Lex(LexError::UnexpectedCharacter(_)) => "unexpected character"@,
        ErrorKind::Parse(ParseError::UnexpectedToken) => "unexpected token"@,
        ErrorKind::Parse(ParseError::ExpectedColon) => "expected a colon after the object key"@,
        ErrorKind::Parse(ParseError::TrailingComma) => "trailing comma"@,
        ErrorKind::Parse(ParseError::TrailingContent) => "trailing content after the value"@,
        ErrorKind::Parse(ParseError::MaxDepthExceeded) => "maximum nesting depth exceeded"@,
    }
}

impl JsonError {
    /// Byte offset at which the offending token starts.
    pub fn offset(&self) -> (r: usize)
        ensures
            r == self.position.offset,
    {
        self.position.offset
    }

    /// Line on which the offending token starts, counted from 1.
    pub fn line(&self) -> (r: usize)
        ensures
            r == self.position.line,
    {
        self.position.line
    }

    /// Column at which the offending token starts.
    pub fn column(&self) -> (r: usize)
        ensures
            r == self.position.column,
    {
        self.position.column
    }

    /// Whether the error comes from the lexer.
    pub fn is_lexical(&self) -> (r: bool)
        ensures
            r == (self.kind is Lex),
    {
        match self.kind {
            ErrorKind::Lex(_) => true,
            ErrorKind::Parse(_) => false,
        }
    }

    /// A description of the error for a human reader.
    pub fn message(&self) -> (r: String)
        ensures
            r@ == message_text(self.kind),
    {
        match self.kind {
            ErrorKind::Lex(LexError::InvalidEscape) => "invalid escape sequence in string".to_owned(),
            ErrorKind::Lex(LexError::UnterminatedString) => "unterminated string".to_owned(),
            ErrorKind::Lex(LexError::InvalidNumber) => "invalid number".to_owned(),
            ErrorKind::Lex(LexError::UnknownLiteral(_)) => "unknown literal".to_owned(),
            ErrorKind::Lex(LexError::UnexpectedCharacter(_)) => "unexpected character".to_owned(),
            ErrorKind::Parse(ParseError::UnexpectedToken) => "unexpected token".to_owned(),
            ErrorKind::Parse(ParseError::ExpectedColon) => "expected a colon after the object key".to_owned(),
            ErrorKind::Parse(ParseError::TrailingComma) => "trailing comma".to_owned(),
            ErrorKind::Parse(ParseError::TrailingContent) => "trailing content after the value".to_owned(),
            ErrorKind::Parse(ParseError::MaxDepthExceeded) => "maximum nesting depth exceeded".to_owned(),
        }
    }
}

} // verus!
