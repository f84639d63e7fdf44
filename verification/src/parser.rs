//! The parser: builds a value tree from the tokens by recursive descent.

use crate::error::{ErrorKind, JsonError, ParseError};
use crate::lexer::{token_is, Lexer};
use crate::lexical::{lemma_lex_at, lex_at};
use crate::position::Position;
use crate::proofs::nesting::{lemma_parsed_depth_within_limit, lemma_value_depth};
use crate::proofs::wellformed::{lemma_parsed_well_formed, lemma_value_well_formed};
use crate::syntax::{
    array_at, document_at, following, items_at, lemma_following, member_at, members_at, object_at,
    parse_text, value_at, Following,
};
use crate::token::{Lexeme, Token, TokenKind};
use crate::value::{
    insert_member, items_view, lemma_array_view, lemma_no_members, lemma_object_view,
    members_view, Json, Value,
};
use vstd::prelude::*;

verus! {

/// How deep arrays and objects may be nested unless the parser is told
/// otherwise.
pub const DEFAULT_MAX_DEPTH: usize = 512;

/// The characters of `text`, in order.
pub fn chars_of(text: &str) -> (r: Vec<char>)
    ensures
        r@ == text@,
{
    let mut out: Vec<char> = Vec::new();
    for c in it: text.chars()
        invariant
            out@ == it.seq().take(it.index() as int),
    {
        out.push(c);
    }
    out
}

/// Parses `text` as one JSON document, with the default limit on nesting.
/// The value of a document is well formed and nests within the limit.
pub fn parse(text: &str) -> (r: Result<Value, JsonError>)
    ensures
        match parse_text(text@, DEFAULT_MAX_DEPTH as nat) {
            Ok(v) => r is Ok && r->Ok_0@ == v,
            Err(e) => r == Err::<Value, JsonError>(e),
        },
        r is Ok ==> r->Ok_0@.well_formed() && r->Ok_0@.depth_within(DEFAULT_MAX_DEPTH as nat),
{
    proof {
        lemma_parsed_well_formed(text@, DEFAULT_MAX_DEPTH as nat);
        lemma_parsed_depth_within_limit(text@, DEFAULT_MAX_DEPTH as nat);
    }
    let mut parser = Parser::new(chars_of(text));
    parser.parse()
}

/// The error of kind `kind` at `position`.
fn parse_error(kind: ParseError, position: Position) -> (e: JsonError)
    ensures
        e == (JsonError { kind: ErrorKind::Parse(kind), position }),
{
    JsonError { kind: ErrorKind::Parse(kind), position }
}

/// The token that closes an object (with `in_object`) or an array.
pub open spec fn closer(in_object: bool) -> Lexeme {
    if in_object {
        Lexeme::BraceClose
    } else {
        Lexeme::BracketClose
    }
}

/// Whether `kind` closes an object (with `in_object`) or an array.
fn closes(kind: &TokenKind, in_object: bool) -> (r: bool)
    ensures
        r == (kind@ == closer(in_object)),
{
    match kind {
        TokenKind::BraceClose => in_object,
        TokenKind::BracketClose => !in_object,
        _ => false,
    }
}

/// A recursive-descent parser over the tokens of one text.
#[derive(Debug)]
pub struct Parser {
    lexer: Lexer,
    max_depth: usize,
}

impl Parser {
    /// The whole text that the parser reads.
    pub closed spec fn text(&self) -> Seq<char> {
        self.lexer.text()
    }

    /// The number of characters consumed so far.
    pub closed spec fn index(&self) -> int {
        self.lexer.index()
    }

    /// How deep arrays and objects may be nested.
    pub closed spec fn limit(&self) -> nat {
        self.max_depth as nat
    }

    /// The parser reads the same text, under the same limit, as `before`, and
    /// has not gone back.
    pub open spec fn went_on(&self, before: &Parser) -> bool {
        &&& self.text() == before.text()
        &&& self.limit() == before.limit()
        &&& 0 <= before.index() <= self.index() <= self.text().len()
    }

    /// The result `r` of the parser, which has come to `self`, is the result
    /// `model` of the grammar.
    pub open spec fn yields(
        &self,
        r: Result<Value, JsonError>,
        model: Result<(Json, int), JsonError>,
    ) -> bool {
        match model {
            Ok((v, end)) => r is Ok && r->Ok_0@ == v && self.index() == end,
            Err(e) => r == Err::<Value, JsonError>(e),
        }
    }

    /// The parser has just read `token`, which is the token of the text from
    /// `from` on.
    pub open spec fn holds(&self, token: Token, from: int) -> bool {
        &&& lex_at(self.text(), from) is Ok
        &&& token_is(token, lex_at(self.text(), from)->Ok_0, self.text())
        &&& self.index() == lex_at(self.text(), from)->Ok_0.end
    }

    /// A parser at the start of `input`, with the default limit on nesting.
    pub fn new(input: Vec<char>) -> (p: Parser)
        ensures
            p.text() == input@,
            p.index() == 0,
            p.limit() == DEFAULT_MAX_DEPTH,
    {
        Parser { lexer: Lexer::new(input), max_depth: DEFAULT_MAX_DEPTH }
    }

    /// A parser at the start of `input` that lets arrays and objects nest
    /// `max_depth` deep.
    pub fn with_max_depth(input: Vec<char>, max_depth: usize) -> (p: Parser)
        ensures
            p.text() == input@,
            p.index() == 0,
            p.limit() == max_depth,
    {
        Parser { lexer: Lexer::new(input), max_depth }
    }

    /// Reads the next token.
    fn next(&mut self) -> (r: Result<Token, JsonError>)
        ensures
            final(self).went_on(old(self)),
            match lex_at(old(self).text(), old(self).index()) {
                Ok(lexed) => r is Ok && final(self).holds(r->Ok_0, old(self).index()),
                Err(e) => r == Err::<Token, JsonError>(e),
            },
    {
        self.lexer.next_token()
    }

    /// Parses the whole input as one document: one value and nothing but
    /// whitespace after it. The value of a document is well formed and nests
    /// within the limit.
    pub fn parse(&mut self) -> (r: Result<Value, JsonError>)
        ensures
            final(self).went_on(old(self)),
            match document_at(old(self).text(), old(self).index(), old(self).limit()) {
                Ok(v) => r is Ok && r->Ok_0@ == v,
                Err(e) => r == Err::<Value, JsonError>(e),
            },
            r is Ok ==> r->Ok_0@.well_formed() && r->Ok_0@.depth_within(old(self).limit()),
    {
        proof {
            lemma_value_well_formed(self.text(), self.index(), 0, self.limit());
            lemma_value_depth(self.text(), self.index(), 0, self.limit());
        }
        let value: Value = match self.parse_value(0) {
            Ok(v) => v,
            Err(e) => {
                return Err(e);
            },
        };
        let token: Token = match self.next() {
            Ok(t) => t,
            Err(e) => {
                return Err(e);
            },
        };
        match token.kind {
            TokenKind::EndOfInput => Ok(value),
            _ => Err(parse_error(ParseError::TrailingContent, token.position)),
        }
    }

    /// Parses one value that stands inside `depth` arrays and objects.
    pub fn parse_value(&mut self, depth: usize) -> (r: Result<Value, JsonError>)
        ensures
            final(self).went_on(old(self)),
            final(self).yields(
                r,
                value_at(old(self).text(), old(self).index(), depth as nat, old(self).limit()),
            ),
        decreases old(self).limit() - depth, 1nat,
    {
        let ghost from = self.index();
        let first: Token = match self.next() {
            Ok(t) => t,
            Err(e) => {
                return Err(e);
            },
        };
        self.value_from(first, Ghost(from), depth)
    }

    /// Parses the value that starts with the token `first`, which was read
    /// from `from` on.
    fn value_from(&mut self, first: Token, Ghost(from): Ghost<int>, depth: usize) -> (r: Result<
        Value,
        JsonError,
    >)
        requires
            old(self).holds(first, from),
            0 <= old(self).index() <= old(self).text().len(),
        ensures
            final(self).went_on(old(self)),
            final(self).yields(r, value_at(old(self).text(), from, depth as nat, old(self).limit())),
        decreases old(self).limit() - depth, 0nat,
    {
        let position: Position = first.position;
        match first.kind {
            TokenKind::Null => Ok(Value::Null),
            TokenKind::Boolean(b) => Ok(Value::Boolean(b)),
            TokenKind::Number(text) => Ok(Value::Number(text)),
            TokenKind::String(text) => Ok(Value::String(text)),
            TokenKind::BracketOpen => {
                if depth >= self.max_depth {
                    Err(parse_error(ParseError::MaxDepthExceeded, position))
                } else {
                    self.parse_array(depth + 1)
                }
            },
            TokenKind::BraceOpen => {
                if depth >= self.max_depth {
                    Err(parse_error(ParseError::MaxDepthExceeded, position))
                } else {
                    self.parse_object(depth + 1)
                }
            },
            _ => Err(parse_error(ParseError::UnexpectedToken, position)),
        }
    }

    /// Reads what follows an item of an array (or, with `in_object`, a member
    /// of an object): `None` for the closing token; for a comma the token
    /// after it, with which the next item starts.
    fn after_item(&mut self, in_object: bool) -> (r: Result<Option<Token>, JsonError>)
        ensures
            final(self).went_on(old(self)),
            match following(old(self).text(), old(self).index(), closer(in_object)) {
                Err(e) => r == Err::<Option<Token>, JsonError>(e),
                Ok(Following::Closed { end }) => r is Ok && r->Ok_0 is None && final(self).index()
                    == end,
                Ok(Following::More { from }) => r is Ok && r->Ok_0 is Some && final(self).holds(
                    r->Ok_0->0,
                    from,
                ) && r->Ok_0->0.kind@ != closer(in_object),
            },
    {
        let separator: Token = match self.next() {
            Ok(t) => t,
            Err(e) => {
                return Err(e);
            },
        };
        if closes(&separator.kind, in_object) {
            return Ok(None);
        }
        match separator.kind {
            TokenKind::Comma => {
                let token: Token = match self.next() {
                    Ok(t) => t,
                    Err(e) => {
                        return Err(e);
                    },
                };
                if closes(&token.kind, in_object) {
                    Err(parse_error(ParseError::TrailingComma, separator.position))
                } else {
                    Ok(Some(token))
                }
            },
            _ => Err(parse_error(ParseError::UnexpectedToken, separator.position)),
        }
    }

    /// Parses the rest of an array, after its opening bracket. Its items
    /// stand at depth `depth`.
    pub fn parse_array(&mut self, depth: usize) -> (r: Result<Value, JsonError>)
        ensures
            final(self).went_on(old(self)),
            final(self).yields(
                r,
                array_at(old(self).text(), old(self).index(), depth as nat, old(self).limit()),
            ),
        decreases old(self).limit() - depth, 3nat,
    {
        let ghost s = self.text();
        let ghost mut from = self.index();
        let mut token: Token = match self.next() {
            Ok(t) => t,
            Err(e) => {
                return Err(e);
            },
        };
        let mut items: Vec<Value> = Vec::new();
        assert(items_view(items@) =~= Seq::<Json>::empty());
        if closes(&token.kind, false) {
            proof {
                lemma_array_view(items);
            }
            return Ok(Value::Array(items));
        }
        loop
            invariant
                self.went_on(old(self)),
                s == old(self).text(),
                self.holds(token, from),
                !(token.kind@ is BracketClose),
                0 <= from,
                array_at(s, old(self).index(), depth as nat, old(self).limit()) == items_at(
                    s,
                    from,
                    items_view(items@),
                    depth as nat,
                    old(self).limit(),
                ),
            decreases s.len() - from,
        {
            proof {
                lemma_lex_at(s, from);
            }
            let ghost before = items_view(items@);
            let value: Value = match self.value_from(token, Ghost(from), depth) {
                Ok(v) => v,
                Err(e) => {
                    return Err(e);
                },
            };
            let ghost after_value = self.index();
            items.push(value);
            assert(items_view(items@) =~= before.push(value@));
            proof {
                lemma_following(s, after_value, Lexeme::BracketClose);
            }
            match self.after_item(false) {
                Err(e) => {
                    return Err(e);
                },
                Ok(None) => {
                    proof {
                        lemma_array_view(items);
                    }
                    return Ok(Value::Array(items));
                },
                Ok(Some(next)) => {
                    token = next;
                    proof {
                        from = following(s, after_value, Lexeme::BracketClose)->Ok_0->from;
                    }
                },
            }
        }
    }

    /// Parses one member of an object, which starts with the token `first`,
    /// read from `from` on: a string key, a colon and a value.
    fn member_from(&mut self, first: Token, Ghost(from): Ghost<int>, depth: usize) -> (r: Result<
        (String, Value),
        JsonError,
    >)
        requires
            old(self).holds(first, from),
            0 <= old(self).index() <= old(self).text().len(),
        ensures
            final(self).went_on(old(self)),
            match member_at(old(self).text(), from, depth as nat, old(self).limit()) {
                Ok((m, end)) => r is Ok && r->Ok_0.0@ == m.key && r->Ok_0.1@ == m.value && final(self).index() == end,
                Err(e) => r == Err::<(String, Value), JsonError>(e),
            },
        decreases old(self).limit() - depth, 2nat,
    {
        let position: Position = first.position;
        let key: String = match first.kind {
            TokenKind::String(text) => text,
            _ => {
                return Err(parse_error(ParseError::UnexpectedToken, position));
            },
        };
        let colon: Token = match self.next() {
            Ok(t) => t,
            Err(e) => {
                return Err(e);
            },
        };
        match colon.kind {
            TokenKind::Colon => {},
            _ => {
                return Err(parse_error(ParseError::ExpectedColon, colon.position));
            },
        }
        match self.parse_value(depth) {
            Ok(value) => Ok((key, value)),
            Err(e) => Err(e),
        }
    }

    /// Parses the rest of an object, after its opening brace. Its members
    /// stand at depth `depth`.
    pub fn parse_object(&mut self, depth: usize) -> (r: Result<Value, JsonError>)
        ensures
            final(self).went_on(old(self)),
            final(self).yields(
                r,
                object_at(old(self).text(), old(self).index(), depth as nat, old(self).limit()),
            ),
        decreases old(self).limit() - depth, 3nat,
    {
        let ghost s = self.text();
        let ghost mut from = self.index();
        let mut token: Token = match self.next() {
            Ok(t) => t,
            Err(e) => {
                return Err(e);
            },
        };
        let mut members: Vec<(String, Value)> = Vec::new();
        proof {
            lemma_no_members(members);
            lemma_object_view(members);
        }
        if closes(&token.kind, true) {
            proof {
                lemma_no_members(members);
            }
            return Ok(Value::Object(members));
        }
        loop
            invariant
                self.went_on(old(self)),
                s == old(self).text(),
                self.holds(token, from),
                !(token.kind@ is BraceClose),
                0 <= from,
                object_at(s, old(self).index(), depth as nat, old(self).limit()) == members_at(
                    s,
                    from,
                    members_view(members@),
                    depth as nat,
                    old(self).limit(),
                ),
            decreases s.len() - from,
        {
            proof {
                lemma_lex_at(s, from);
            }
            let (key, value) = match self.member_from(token, Ghost(from), depth) {
                Ok(member) => member,
                Err(e) => {
                    return Err(e);
                },
            };
            let ghost after_value = self.index();
            insert_member(&mut members, key, value);
            proof {
                lemma_following(s, after_value, Lexeme::BraceClose);
            }
            match self.after_item(true) {
                Err(e) => {
                    return Err(e);
                },
                Ok(None) => {
                    proof {
                        lemma_object_view(members);
                    }
                    return Ok(Value::Object(members));
                },
                Ok(Some(next)) => {
                    token = next;
                    proof {
                        from = following(s, after_value, Lexeme::BraceClose)->Ok_0->from;
                    }
                },
            }
        }
    }
}

} // verus!
