//! Trailing commas: no text is accepted in which a comma stands directly
//! before a closing bracket or brace.

use crate::error::ParseError;
use crate::lexical::{lemma_lex_at, lex_at};
use crate::syntax::{
    array_at, following, items_at, lemma_array_at, lemma_following, lemma_items_at,
    lemma_members_at, lemma_object_at, member_at, members_at, object_at, parse_error_at,
    parse_text, starts_value, value_at, Following,
};
use crate::token::Lexeme;
use crate::value::{put_member, Json, Member};
use vstd::prelude::*;

verus! {

/// The token that is read from `i` on is a comma, and the token after it
/// closes an array or an object.
pub open spec fn trailing_comma_at(s: Seq<char>, i: int) -> bool {
    &&& lex_at(s, i) matches Ok(comma)
    &&& comma.token is Comma
    &&& lex_at(s, comma.end) matches Ok(next)
    &&& (next.token is BracketClose || next.token is BraceClose)
}

/// The text from `i` up to `j` is made of whole tokens, none of which is a
/// trailing comma.
pub open spec fn no_trailing_comma(s: Seq<char>, i: int, j: int) -> bool
    decreases j - i,
{
    if i >= j {
        i == j
    } else {
        match lex_at(s, i) {
            Ok(t) => i < t.end <= j && !trailing_comma_at(s, i) && no_trailing_comma(s, t.end, j),
            Err(_) => false,
        }
    }
}

/// Two stretches of whole tokens without a trailing comma make one.
proof fn lemma_join(s: Seq<char>, i: int, j: int, k: int)
    requires
        no_trailing_comma(s, i, j),
        no_trailing_comma(s, j, k),
    ensures
        no_trailing_comma(s, i, k),
    decreases j - i,
{
    if i < j {
        let t = lex_at(s, i)->Ok_0;
        lemma_join(s, t.end, j, k);
        lemma_reaches(s, j, k);
    }
}

/// A stretch of whole tokens does not end before it starts.
proof fn lemma_reaches(s: Seq<char>, i: int, j: int)
    requires
        no_trailing_comma(s, i, j),
    ensures
        i <= j,
{
}

/// One token that is no comma is a stretch without a trailing comma.
proof fn lemma_single(s: Seq<char>, i: int)
    requires
        lex_at(s, i) is Ok,
        !(lex_at(s, i)->Ok_0.token is Comma),
        !(lex_at(s, i)->Ok_0.token is EndOfInput),
    ensures
        no_trailing_comma(s, i, lex_at(s, i)->Ok_0.end),
{
    lemma_lex_at(s, i);
    let t = lex_at(s, i)->Ok_0;
    assert(no_trailing_comma(s, t.end, t.end));
}

proof fn lemma_value_commas(s: Seq<char>, i: int, depth: nat, max: nat)
    ensures
        value_at(s, i, depth, max) matches Ok((v, j)) ==> no_trailing_comma(s, i, j) && starts_value(
            lex_at(s, i)->Ok_0.token,
        ),
    decreases s.len() - i, 0nat,
{
    lemma_lex_at(s, i);
    if let Ok((v, j)) = value_at(s, i, depth, max) {
        let t = lex_at(s, i)->Ok_0;
        if t.token is BracketOpen {
            lemma_array_commas(s, t.end, depth + 1, max);
            lemma_array_at(s, t.end, depth + 1, max);
        } else if t.token is BraceOpen {
            lemma_object_commas(s, t.end, depth + 1, max);
            lemma_object_at(s, t.end, depth + 1, max);
        } else {
            lemma_single(s, i);
        }
    }
}

proof fn lemma_array_commas(s: Seq<char>, i: int, depth: nat, max: nat)
    ensures
        array_at(s, i, depth, max) matches Ok((v, j)) ==> no_trailing_comma(s, i, j),
    decreases s.len() - i, 2nat,
{
    if let Ok((v, j)) = array_at(s, i, depth, max) {
        let t = lex_at(s, i)->Ok_0;
        if t.token is BracketClose {
            lemma_single(s, i);
        } else {
            lemma_items_commas(s, i, Seq::empty(), depth, max);
        }
    }
}

/// After an item that is followed by its closing token or by a comma and
/// another value, the stretch up to the end of what follows has no trailing
/// comma.
proof fn lemma_following_commas(s: Seq<char>, j: int, close: Lexeme, end: int)
    requires
        close is BracketClose || close is BraceClose,
        match following(s, j, close) {
            Ok(Following::Closed { end: e }) => end == e,
            Ok(Following::More { from }) => no_trailing_comma(s, from, end) && from < end
                && lex_at(s, from) is Ok && starts_value(lex_at(s, from)->Ok_0.token),
            Err(_) => false,
        },
    ensures
        no_trailing_comma(s, j, end),
{
    lemma_lex_at(s, j);
    let sep = lex_at(s, j)->Ok_0;
    if sep.token == close {
        lemma_single(s, j);
    } else {
        lemma_reaches(s, sep.end, end);
    }
}

proof fn lemma_items_commas(s: Seq<char>, i: int, items: Seq<Json>, depth: nat, max: nat)
    ensures
        items_at(s, i, items, depth, max) matches Ok((v, j)) ==> no_trailing_comma(s, i, j),
    decreases s.len() - i, 1nat,
{
    if let Ok((v, end)) = items_at(s, i, items, depth, max) {
        lemma_value_commas(s, i, depth, max);
        let j = value_at(s, i, depth, max)->Ok_0.1;
        lemma_following(s, j, Lexeme::BracketClose);
        if let Ok(Following::More { from }) = following(s, j, Lexeme::BracketClose) {
            lemma_items_commas(s, from, items.push(value_at(s, i, depth, max)->Ok_0.0), depth, max);
            lemma_items_at(s, from, items.push(value_at(s, i, depth, max)->Ok_0.0), depth, max);
            lemma_value_commas(s, from, depth, max);
        }
        lemma_following_commas(s, j, Lexeme::BracketClose, end);
        lemma_join(s, i, j, end);
    }
}

proof fn lemma_member_commas(s: Seq<char>, i: int, depth: nat, max: nat)
    ensures
        member_at(s, i, depth, max) matches Ok((m, j)) ==> no_trailing_comma(s, i, j) && starts_value(
            lex_at(s, i)->Ok_0.token,
        ),
    decreases s.len() - i, 1nat,
{
    if let Ok((m, j)) = member_at(s, i, depth, max) {
        lemma_lex_at(s, i);
        let k = lex_at(s, i)->Ok_0;
        lemma_lex_at(s, k.end);
        let colon = lex_at(s, k.end)->Ok_0;
        lemma_value_commas(s, colon.end, depth, max);
        lemma_single(s, i);
        lemma_single(s, k.end);
        lemma_join(s, k.end, colon.end, j);
        lemma_join(s, i, k.end, j);
    }
}

proof fn lemma_object_commas(s: Seq<char>, i: int, depth: nat, max: nat)
    ensures
        object_at(s, i, depth, max) matches Ok((v, j)) ==> no_trailing_comma(s, i, j),
    decreases s.len() - i, 3nat,
{
    if let Ok((v, j)) = object_at(s, i, depth, max) {
        let t = lex_at(s, i)->Ok_0;
        if t.token is BraceClose {
            lemma_single(s, i);
        } else {
            lemma_members_commas(s, i, Seq::empty(), depth, max);
        }
    }
}

proof fn lemma_members_commas(s: Seq<char>, i: int, members: Seq<Member>, depth: nat, max: nat)
    ensures
        members_at(s, i, members, depth, max) matches Ok((v, j)) ==> no_trailing_comma(s, i, j),
    decreases s.len() - i, 2nat,
{
    if let Ok((v, end)) = members_at(s, i, members, depth, max) {
        lemma_member_commas(s, i, depth, max);
        let m = member_at(s, i, depth, max)->Ok_0.0;
        let j = member_at(s, i, depth, max)->Ok_0.1;
        lemma_following(s, j, Lexeme::BraceClose);
        if let Ok(Following::More { from }) = following(s, j, Lexeme::BraceClose) {
            let after = put_member(members, m.key, m.value);
            lemma_members_commas(s, from, after, depth, max);
            lemma_members_at(s, from, after, depth, max);
            lemma_member_commas(s, from, depth, max);
        }
        lemma_following_commas(s, j, Lexeme::BraceClose, end);
        lemma_join(s, i, j, end);
    }
}

/// A trailing comma is never accepted: where a text is parsed to a value,
/// the text up to the end of that value is made of whole tokens of which no
/// comma stands directly before a closing bracket or brace, and only the end
/// of the input follows.
pub proof fn lemma_trailing_comma_never_accepted(s: Seq<char>, max: nat)
    ensures
        parse_text(s, max) is Ok ==> {
            let end = value_at(s, 0, 0, max)->Ok_0.1;
            &&& value_at(s, 0, 0, max) is Ok
            &&& no_trailing_comma(s, 0, end)
            &&& lex_at(s, end) is Ok
            &&& lex_at(s, end)->Ok_0.token is EndOfInput
        },
{
    lemma_value_commas(s, 0, 0, max);
}

/// A comma directly before the token that closes the array or object is
/// reported as a trailing comma, at the place of the comma.
pub proof fn lemma_trailing_comma_reported(s: Seq<char>, j: int, close: Lexeme)
    requires
        lex_at(s, j) is Ok,
        lex_at(s, j)->Ok_0.token is Comma,
        close !is Comma,
        lex_at(s, lex_at(s, j)->Ok_0.end) is Ok,
        lex_at(s, lex_at(s, j)->Ok_0.end)->Ok_0.token == close,
    ensures
        following(s, j, close) == Err::<Following, _>(
            parse_error_at(s, ParseError::TrailingComma, lex_at(s, j)->Ok_0.start),
        ),
{
}

} // verus!
