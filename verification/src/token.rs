//! Tokens: the classified, fully resolved lexical units of a JSON text.

use crate::position::Position;
use vstd::prelude::*;

verus! {

/// What a token is. String escapes are already decoded; a number holds its
/// literal as written, which matches the number grammar.
#[derive(Clone, Debug, PartialEq, Eq)]
pub enum TokenKind {
    BraceOpen,
    BraceClose,
    BracketOpen,
    BracketClose,
    Colon,
    Comma,
    String(String),
    Number(String),
    Boolean(bool),
    Null,
    EndOfInput,
}

/// A token together with the position at which it starts.
#[derive(Clone, Debug, PartialEq, Eq)]
pub struct Token {
    pub kind: TokenKind,
    pub position: Position,
}

/// The mathematical model of a token kind: texts are character sequences.
pub ghost enum Lexeme {
    BraceOpen,
    BraceClose,
    BracketOpen,
    BracketClose,
    Colon,
    Comma,
    String(Seq<char>),
    Number(Seq<char>),
    Boolean(bool),
    Null,
    EndOfInput,
}

impl View for TokenKind {
    type V = Lexeme;

    open spec fn view(&self) -> Lexeme {
        match self {
            TokenKind::BraceOpen => Lexeme::BraceOpen,
            TokenKind::BraceClose => Lexeme::BraceClose,
            TokenKind::BracketOpen => Lexeme::BracketOpen,
            TokenKind::BracketClose => Lexeme::BracketClose,
            TokenKind::Colon => Lexeme::Colon,
            TokenKind::Comma => Lexeme::Comma,
            TokenKind::String(text) => Lexeme::String(text@),
            TokenKind::Number(text) => Lexeme::Number(text@),
            TokenKind::Boolean(b) => Lexeme::Boolean(*b),
            TokenKind::Null => Lexeme::Null,
            TokenKind::EndOfInput => Lexeme::EndOfInput,
        }
    }
}

} // verus!
