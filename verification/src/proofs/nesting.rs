//! The limit on nesting: what is parsed stays within it, and a text that
//! nests deeper is rejected where it passes the limit.

use crate::error::ParseError;
use crate::lexical::{lemma_lex_at, lex_at, skip_whitespace};
use crate::syntax::{
    array_at, following, items_at, lemma_following, member_at, members_at, object_at,
    parse_error_at, parse_text, value_at, Following,
};
use crate::token::Lexeme;
use crate::value::{lemma_put_member_holds, put_member, Json, Member};
use vstd::prelude::*;

verus! {

/// Every one of `items` nests at most `limit` deep.
pub open spec fn items_within(items: Seq<Json>, limit: nat) -> bool {
    forall|k: int| 0 <= k < items.len() ==> (#[trigger] items[k]).depth_within(limit)
}

/// The value of every one of `members` nests at most `limit` deep.
pub open spec fn members_within(members: Seq<Member>, limit: nat) -> bool {
    forall|k: int| 0 <= k < members.len() ==> (#[trigger] members[k]).value.depth_within(limit)
}

/// A value that is parsed inside `depth` arrays and objects nests at most
/// `max - depth` deep itself.
pub proof fn lemma_value_depth(s: Seq<char>, i: int, depth: nat, max: nat)
    requires
        depth <= max,
    ensures
        value_at(s, i, depth, max) matches Ok((v, j)) ==> v.depth_within((max - depth) as nat),
    decreases s.len() - i, 0nat,
{
    lemma_lex_at(s, i);
    if let Ok(t) = lex_at(s, i) {
        if depth < max {
            if t.token is BracketOpen {
                lemma_array_depth(s, t.end, depth + 1, max);
            } else if t.token is BraceOpen {
                lemma_object_depth(s, t.end, depth + 1, max);
            }
        }
    }
}

proof fn lemma_array_depth(s: Seq<char>, i: int, depth: nat, max: nat)
    requires
        1 <= depth <= max,
    ensures
        array_at(s, i, depth, max) matches Ok((v, j)) ==> v.depth_within((max - depth + 1) as nat),
    decreases s.len() - i, 2nat,
{
    if let Ok(t) = lex_at(s, i) {
        if !(t.token is BracketClose) {
            lemma_items_depth(s, i, Seq::empty(), depth, max);
        }
    }
}

proof fn lemma_items_depth(s: Seq<char>, i: int, items: Seq<Json>, depth: nat, max: nat)
    requires
        1 <= depth <= max,
        items_within(items, (max - depth) as nat),
    ensures
        items_at(s, i, items, depth, max) matches Ok((v, j)) ==> v.depth_within(
            (max - depth + 1) as nat,
        ),
    decreases s.len() - i, 1nat,
{
    lemma_value_depth(s, i, depth, max);
    if let Ok((v, j)) = value_at(s, i, depth, max) {
        if j > i {
            lemma_following(s, j, Lexeme::BracketClose);
            assert(items_within(items.push(v), (max - depth) as nat));
            if let Ok(Following::More { from }) = following(s, j, Lexeme::BracketClose) {
                lemma_items_depth(s, from, items.push(v), depth, max);
            }
        }
    }
}

proof fn lemma_member_depth(s: Seq<char>, i: int, depth: nat, max: nat)
    requires
        depth <= max,
    ensures
        member_at(s, i, depth, max) matches Ok((m, j)) ==> m.value.depth_within(
            (max - depth) as nat,
        ),
    decreases s.len() - i, 1nat,
{
    lemma_lex_at(s, i);
    if let Ok(k) = lex_at(s, i) {
        lemma_lex_at(s, k.end);
        if let Ok(colon) = lex_at(s, k.end) {
            if k.token is String && colon.token is Colon {
                lemma_value_depth(s, colon.end, depth, max);
            }
        }
    }
}

proof fn lemma_object_depth(s: Seq<char>, i: int, depth: nat, max: nat)
    requires
        1 <= depth <= max,
    ensures
        object_at(s, i, depth, max) matches Ok((v, j)) ==> v.depth_within((max - depth + 1) as nat),
    decreases s.len() - i, 3nat,
{
    if let Ok(t) = lex_at(s, i) {
        if !(t.token is BraceClose) {
            lemma_members_depth(s, i, Seq::empty(), depth, max);
        }
    }
}

proof fn lemma_members_depth(s: Seq<char>, i: int, members: Seq<Member>, depth: nat, max: nat)
    requires
        1 <= depth <= max,
        members_within(members, (max - depth) as nat),
    ensures
        members_at(s, i, members, depth, max) matches Ok((v, j)) ==> v.depth_within(
            (max - depth + 1) as nat,
        ),
    decreases s.len() - i, 2nat,
{
    lemma_member_depth(s, i, depth, max);
    if let Ok((m, j)) = member_at(s, i, depth, max) {
        if j > i {
            lemma_following(s, j, Lexeme::BraceClose);
            lemma_put_member_holds(members, m.key, m.value);
            let after = put_member(members, m.key, m.value);
            assert(members_within(after, (max - depth) as nat)) by {
                assert forall|k: int| 0 <= k < after.len() implies (#[trigger] after[k]).value.depth_within(
                    (max - depth) as nat,
                ) by {
                    if after[k] != (Member { key: m.key, value: m.value }) {
                        let n = choose|n: int| 0 <= n < members.len() && members[n] == after[k];
                        assert(members[n].value.depth_within((max - depth) as nat));
                    }
                }
            }
            if let Ok(Following::More { from }) = following(s, j, Lexeme::BraceClose) {
                lemma_members_depth(s, from, after, depth, max);
            }
        }
    }
}

/// In the value of a document, arrays and objects nest at most as deep as
/// the limit allows.
pub proof fn lemma_parsed_depth_within_limit(s: Seq<char>, max: nat)
    ensures
        parse_text(s, max) matches Ok(v) ==> v.depth_within(max),
{
    lemma_value_depth(s, 0, 0, max);
}

/// A text that opens more arrays in a row than the limit allows is rejected
/// at the first bracket beyond the limit, whatever follows: the parser never
/// descends deeper than the limit.
pub proof fn lemma_deep_nesting_rejected(s: Seq<char>, max: nat)
    requires
        max < s.len(),
        forall|k: int| 0 <= k <= max ==> s[k] == '[',
    ensures
        parse_text(s, max) == Err::<Json, _>(
            parse_error_at(s, ParseError::MaxDepthExceeded, max as int),
        ),
{
    lemma_opening_brackets(s, 0, max);
}

proof fn lemma_opening_brackets(s: Seq<char>, i: nat, max: nat)
    requires
        i <= max < s.len(),
        forall|k: int| 0 <= k <= max ==> s[k] == '[',
    ensures
        value_at(s, i as int, i, max) == Err::<(Json, int), _>(
            parse_error_at(s, ParseError::MaxDepthExceeded, max as int),
        ),
    decreases max - i,
{
    reveal(lex_at);
    assert(s[i as int] == '[');
    assert(skip_whitespace(s, i as int) == i);
    if i < max {
        let next = (i + 1) as int;
        assert(s[next] == '[');
        assert(skip_whitespace(s, next) == next);
        lemma_opening_brackets(s, (i + 1) as nat, max);
    }
}

} // verus!
