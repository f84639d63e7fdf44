//! The structural grammar of JSON as functions on a character sequence and an
//! index into it. The parser is proved to compute exactly these functions.

use crate::error::{ErrorKind, JsonError, ParseError};
use crate::lexical::{lemma_lex_at, lex_at};
use crate::position::position_at;
use crate::token::Lexeme;
use crate::value::{put_member, Json, Member};
use vstd::prelude::*;

verus! {

/// The error of kind `kind` for a token that starts at index `at`.
pub open spec fn parse_error_at(s: Seq<char>, kind: ParseError, at: int) -> JsonError {
    JsonError { kind: ErrorKind::Parse(kind), position: position_at(s, at) }
}

/// The value that is read from index `i` on, inside `depth` arrays and
/// objects of which at most `max` may be nested, and the index after it; or
/// the first error met.
pub open spec fn value_at(s: Seq<char>, i: int, depth: nat, max: nat) -> Result<
    (Json, int),
    JsonError,
>
    decreases s.len() - i, 0nat,
{
    match lex_at(s, i) {
        Err(e) => Err(e),
        Ok(t) => match t.token {
            Lexeme::Null => Ok((Json::Null, t.end)),
            Lexeme::Boolean(b) => Ok((Json::Boolean(b), t.end)),
            Lexeme::Number(text) => Ok((Json::Number(text), t.end)),
            Lexeme::String(text) => Ok((Json::String(text), t.end)),
            Lexeme::BracketOpen => {
                if depth >= max {
                    Err(parse_error_at(s, ParseError::MaxDepthExceeded, t.start))
                } else {
                    proof {
                        lemma_lex_at(s, i);
                    }
                    array_at(s, t.end, depth + 1, max)
                }
            },
            Lexeme::BraceOpen => {
                if depth >= max {
                    Err(parse_error_at(s, ParseError::MaxDepthExceeded, t.start))
                } else {
                    proof {
                        lemma_lex_at(s, i);
                    }
                    object_at(s, t.end, depth + 1, max)
                }
            },
            _ => Err(parse_error_at(s, ParseError::UnexpectedToken, t.start)),
        },
    }
}

/// What follows an item of an array or a member of an object.
pub ghost enum Following {
    /// The closing token, which ends before `end`.
    Closed { end: int },
    /// A comma, after which another item is read from `from` on.
    More { from: int },
}

/// What follows the item that ends before `j`, in an array or object that
/// the token `close` closes: the closing token, or a comma with another item
/// after it. A comma directly before the closing token is a trailing comma;
/// any other token is unexpected.
pub open spec fn following(s: Seq<char>, j: int, close: Lexeme) -> Result<Following, JsonError> {
    match lex_at(s, j) {
        Err(e) => Err(e),
        Ok(sep) => if sep.token == close {
            Ok(Following::Closed { end: sep.end })
        } else if sep.token is Comma {
            match lex_at(s, sep.end) {
                Err(e) => Err(e),
                Ok(next) => if next.token == close {
                    Err(parse_error_at(s, ParseError::TrailingComma, sep.start))
                } else {
                    Ok(Following::More { from: sep.end })
                },
            }
        } else {
            Err(parse_error_at(s, ParseError::UnexpectedToken, sep.start))
        },
    }
}

/// After a comma the next item is read from a later index, within the text.
pub proof fn lemma_following(s: Seq<char>, j: int, close: Lexeme)
    ensures
        following(s, j, close) matches Ok(Following::More { from }) ==> 0 <= j < from <= s.len(),
        following(s, j, close) matches Ok(Following::Closed { end }) ==> (0 <= j <= s.len() ==> j
            <= end <= s.len()),
{
    lemma_lex_at(s, j);
}

/// The array whose opening bracket ends before `i`, and the index after its
/// closing bracket. Its items stand at depth `depth`.
pub open spec fn array_at(s: Seq<char>, i: int, depth: nat, max: nat) -> Result<
    (Json, int),
    JsonError,
>
    decreases s.len() - i, 2nat,
{
    match lex_at(s, i) {
        Err(e) => Err(e),
        Ok(t) => if t.token is BracketClose {
            Ok((Json::Array(Seq::empty()), t.end))
        } else {
            items_at(s, i, Seq::empty(), depth, max)
        },
    }
}

/// The array of which `items` are read and whose next item is read from `i`
/// on.
///
/// A value takes at least one character ([`lemma_value_at`]); the test on
/// the index after it is there to show that the definition ends.
pub open spec fn items_at(s: Seq<char>, i: int, items: Seq<Json>, depth: nat, max: nat) -> Result<
    (Json, int),
    JsonError,
>
    decreases s.len() - i, 1nat,
{
    match value_at(s, i, depth, max) {
        Err(e) => Err(e),
        Ok((v, j)) => if j <= i {
            Err(parse_error_at(s, ParseError::UnexpectedToken, i))
        } else {
            match following(s, j, Lexeme::BracketClose) {
                Err(e) => Err(e),
                Ok(Following::Closed { end }) => Ok((Json::Array(items.push(v)), end)),
                Ok(Following::More { from }) => {
                    proof {
                        lemma_following(s, j, Lexeme::BracketClose);
                    }
                    items_at(s, from, items.push(v), depth, max)
                },
            }
        },
    }
}

/// The member of an object that is read from `i` on: a string key, a colon
/// and a value; and the index after it.
pub open spec fn member_at(s: Seq<char>, i: int, depth: nat, max: nat) -> Result<
    (Member, int),
    JsonError,
>
    decreases s.len() - i, 1nat,
{
    match lex_at(s, i) {
        Err(e) => Err(e),
        Ok(k) => match k.token {
            Lexeme::String(key) => match lex_at(s, k.end) {
                Err(e) => Err(e),
                Ok(colon) => if colon.token is Colon {
                    proof {
                        lemma_lex_at(s, i);
                        lemma_lex_at(s, k.end);
                    }
                    match value_at(s, colon.end, depth, max) {
                        Err(e) => Err(e),
                        Ok((value, j)) => Ok((Member { key, value }, j)),
                    }
                } else {
                    Err(parse_error_at(s, ParseError::ExpectedColon, colon.start))
                },
            },
            _ => Err(parse_error_at(s, ParseError::UnexpectedToken, k.start)),
        },
    }
}

/// The object whose opening brace ends before `i`, and the index after its
/// closing brace. Its members stand at depth `depth`.
pub open spec fn object_at(s: Seq<char>, i: int, depth: nat, max: nat) -> Result<
    (Json, int),
    JsonError,
>
    decreases s.len() - i, 3nat,
{
    match lex_at(s, i) {
        Err(e) => Err(e),
        Ok(t) => if t.token is BraceClose {
            Ok((Json::Object(Seq::empty()), t.end))
        } else {
            members_at(s, i, Seq::empty(), depth, max)
        },
    }
}

/// The object of which `members` are read and whose next member is read from
/// `i` on. A key that is already present gets the new value.
///
/// A member takes at least one character ([`lemma_value_at`]); the test on
/// the index after it is there to show that the definition ends.
pub open spec fn members_at(
    s: Seq<char>,
    i: int,
    members: Seq<Member>,
    depth: nat,
    max: nat,
) -> Result<(Json, int), JsonError>
    decreases s.len() - i, 2nat,
{
    match member_at(s, i, depth, max) {
        Err(e) => Err(e),
        Ok((m, j)) => if j <= i {
            Err(parse_error_at(s, ParseError::UnexpectedToken, i))
        } else {
            match following(s, j, Lexeme::BraceClose) {
                Err(e) => Err(e),
                Ok(Following::Closed { end }) => Ok(
                    (Json::Object(put_member(members, m.key, m.value)), end),
                ),
                Ok(Following::More { from }) => {
                    proof {
                        lemma_following(s, j, Lexeme::BraceClose);
                    }
                    members_at(s, from, put_member(members, m.key, m.value), depth, max)
                },
            }
        },
    }
}

/// The value of a whole document read from `i` on: one value, after which
/// nothing but whitespace may follow.
pub open spec fn document_at(s: Seq<char>, i: int, max: nat) -> Result<Json, JsonError> {
    match value_at(s, i, 0, max) {
        Err(e) => Err(e),
        Ok((v, j)) => match lex_at(s, j) {
            Err(e) => Err(e),
            Ok(t) => if t.token is EndOfInput {
                Ok(v)
            } else {
                Err(parse_error_at(s, ParseError::TrailingContent, t.start))
            },
        },
    }
}

/// The value of the text `s` as a JSON document with at most `max` nested
/// arrays and objects, or the first error met.
pub open spec fn parse_text(s: Seq<char>, max: nat) -> Result<Json, JsonError> {
    document_at(s, 0, max)
}

/// A value takes at least one character and ends within the text.
pub proof fn lemma_value_at(s: Seq<char>, i: int, depth: nat, max: nat)
    ensures
        value_at(s, i, depth, max) matches Ok((v, j)) ==> 0 <= i < j <= s.len(),
    decreases s.len() - i, 0nat,
{
    lemma_lex_at(s, i);
    if let Ok(t) = lex_at(s, i) {
        if depth < max {
            if t.token is BracketOpen {
                lemma_array_at(s, t.end, depth + 1, max);
            } else if t.token is BraceOpen {
                lemma_object_at(s, t.end, depth + 1, max);
            }
        }
    }
}

/// The rest of an array takes at least one character and ends within the
/// text.
pub proof fn lemma_array_at(s: Seq<char>, i: int, depth: nat, max: nat)
    ensures
        array_at(s, i, depth, max) matches Ok((v, j)) ==> 0 <= i < j <= s.len(),
    decreases s.len() - i, 2nat,
{
    lemma_lex_at(s, i);
    if let Ok(t) = lex_at(s, i) {
        if !(t.token is BracketClose) {
            lemma_items_at(s, i, Seq::empty(), depth, max);
        }
    }
}

/// The items of an array and its closing bracket take at least one character
/// and end within the text.
pub proof fn lemma_items_at(s: Seq<char>, i: int, items: Seq<Json>, depth: nat, max: nat)
    ensures
        items_at(s, i, items, depth, max) matches Ok((v, j)) ==> 0 <= i < j <= s.len(),
    decreases s.len() - i, 1nat,
{
    lemma_value_at(s, i, depth, max);
    if let Ok((v, j)) = value_at(s, i, depth, max) {
        lemma_following(s, j, Lexeme::BracketClose);
        if let Ok(Following::More { from }) = following(s, j, Lexeme::BracketClose) {
            lemma_items_at(s, from, items.push(v), depth, max);
        }
    }
}

/// A member of an object takes at least one character and ends within the
/// text.
pub proof fn lemma_member_at(s: Seq<char>, i: int, depth: nat, max: nat)
    ensures
        member_at(s, i, depth, max) matches Ok((m, j)) ==> 0 <= i < j <= s.len(),
    decreases s.len() - i, 1nat,
{
    lemma_lex_at(s, i);
    if let Ok(k) = lex_at(s, i) {
        lemma_lex_at(s, k.end);
        if let Ok(colon) = lex_at(s, k.end) {
            if k.token is String && colon.token is Colon {
                lemma_value_at(s, colon.end, depth, max);
            }
        }
    }
}

/// The rest of an object takes at least one character and ends within the
/// text.
pub proof fn lemma_object_at(s: Seq<char>, i: int, depth: nat, max: nat)
    ensures
        object_at(s, i, depth, max) matches Ok((v, j)) ==> 0 <= i < j <= s.len(),
    decreases s.len() - i, 3nat,
{
    lemma_lex_at(s, i);
    if let Ok(t) = lex_at(s, i) {
        if !(t.token is BraceClose) {
            lemma_members_at(s, i, Seq::empty(), depth, max);
        }
    }
}

/// The members of an object and its closing brace take at least one
/// character and end within the text.
pub proof fn lemma_members_at(s: Seq<char>, i: int, members: Seq<Member>, depth: nat, max: nat)
    ensures
        members_at(s, i, members, depth, max) matches Ok((v, j)) ==> 0 <= i < j <= s.len(),
    decreases s.len() - i, 2nat,
{
    lemma_member_at(s, i, depth, max);
    if let Ok((m, j)) = member_at(s, i, depth, max) {
        lemma_following(s, j, Lexeme::BraceClose);
        if let Ok(Following::More { from }) = following(s, j, Lexeme::BraceClose) {
            lemma_members_at(s, from, put_member(members, m.key, m.value), depth, max);
        }
    }
}

/// The token with which a value starts.
pub open spec fn starts_value(t: Lexeme) -> bool {
    t is Null || t is Boolean || t is Number || t is String || t is BracketOpen || t is BraceOpen
}

/// Where a value is read, the first token is one that starts a value.
pub proof fn lemma_value_starts(s: Seq<char>, i: int, depth: nat, max: nat)
    requires
        value_at(s, i, depth, max) is Ok,
    ensures
        lex_at(s, i) is Ok,
        starts_value(lex_at(s, i)->Ok_0.token),
{
}

/// Where the items of an array are read, the first token is one that starts
/// a value.
pub proof fn lemma_items_start(s: Seq<char>, i: int, items: Seq<Json>, depth: nat, max: nat)
    requires
        items_at(s, i, items, depth, max) is Ok,
    ensures
        lex_at(s, i) is Ok,
        starts_value(lex_at(s, i)->Ok_0.token),
{
    assert(value_at(s, i, depth, max) is Ok);
    lemma_value_starts(s, i, depth, max);
}

/// Where a member of an object is read, the first token is a string.
pub proof fn lemma_member_starts(s: Seq<char>, i: int, depth: nat, max: nat)
    requires
        member_at(s, i, depth, max) is Ok,
    ensures
        lex_at(s, i) is Ok,
        lex_at(s, i)->Ok_0.token is String,
{
}

/// Where the members of an object are read, the first token is a string.
pub proof fn lemma_members_start(s: Seq<char>, i: int, members: Seq<Member>, depth: nat, max: nat)
    requires
        members_at(s, i, members, depth, max) is Ok,
    ensures
        lex_at(s, i) is Ok,
        lex_at(s, i)->Ok_0.token is String,
{
    assert(member_at(s, i, depth, max) is Ok);
    lemma_member_starts(s, i, depth, max);
}

} // verus!
