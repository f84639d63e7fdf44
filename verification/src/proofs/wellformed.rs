//! What is parsed is well formed: its numbers are numbers of the grammar and
//! its objects hold each key once.

use crate::lexical::{is_digit, lemma_lex_at, lemma_number_end, lex_at, number_end, skip_whitespace};
use crate::proofs::local::lemma_number_local;
use crate::syntax::{
    array_at, following, items_at, lemma_following, member_at, members_at, object_at, parse_text,
    value_at, Following,
};
use crate::token::Lexeme;
use crate::value::{
    distinct_keys, lemma_put_member, lemma_put_member_holds, put_member, Json, Member,
};
use vstd::prelude::*;

verus! {

/// Every one of `items` is well formed.
pub open spec fn items_well_formed(items: Seq<Json>) -> bool {
    forall|k: int| 0 <= k < items.len() ==> (#[trigger] items[k]).well_formed()
}

/// The value of every one of `members` is well formed.
pub open spec fn members_well_formed(members: Seq<Member>) -> bool {
    forall|k: int| 0 <= k < members.len() ==> (#[trigger] members[k]).value.well_formed()
}

/// The literal of a number token is a number of the grammar by itself.
pub proof fn lemma_number_token(s: Seq<char>, start: int)
    requires
        0 <= start <= s.len(),
        number_end(s, start) is Some,
    ensures
        number_end(s.subrange(start, number_end(s, start)->0), 0) == Some(
            number_end(s, start)->0 - start,
        ),
{
    lemma_number_end(s, start);
    let end = number_end(s, start)->0;
    let text = s.subrange(start, end);
    assert forall|k: int| start <= k < end implies #[trigger] s[k] == text[k - start + 0] by {}
    lemma_number_local(s, start, text, 0, end - start);
}

/// A value that is parsed is well formed.
pub proof fn lemma_value_well_formed(s: Seq<char>, i: int, depth: nat, max: nat)
    ensures
        value_at(s, i, depth, max) matches Ok((v, j)) ==> v.well_formed(),
    decreases s.len() - i, 0nat,
{
    lemma_lex_at(s, i);
    if let Ok(t) = lex_at(s, i) {
        if t.token is Number {
            reveal(lex_at);
            let start = skip_whitespace(s, i);
            assert(s[start] == '-' || is_digit(s[start]));
            lemma_number_token(s, start);
        } else if depth < max {
            if t.token is BracketOpen {
                lemma_array_well_formed(s, t.end, depth + 1, max);
            } else if t.token is BraceOpen {
                lemma_object_well_formed(s, t.end, depth + 1, max);
            }
        }
    }
}

proof fn lemma_array_well_formed(s: Seq<char>, i: int, depth: nat, max: nat)
    ensures
        array_at(s, i, depth, max) matches Ok((v, j)) ==> v.well_formed(),
    decreases s.len() - i, 2nat,
{
    if let Ok(t) = lex_at(s, i) {
        if !(t.token is BracketClose) {
            lemma_items_well_formed(s, i, Seq::empty(), depth, max);
        }
    }
}

proof fn lemma_items_well_formed(s: Seq<char>, i: int, items: Seq<Json>, depth: nat, max: nat)
    requires
        items_well_formed(items),
    ensures
        items_at(s, i, items, depth, max) matches Ok((v, j)) ==> v.well_formed(),
    decreases s.len() - i, 1nat,
{
    lemma_value_well_formed(s, i, depth, max);
    if let Ok((v, j)) = value_at(s, i, depth, max) {
        if j > i {
            lemma_following(s, j, Lexeme::BracketClose);
            assert(items_well_formed(items.push(v)));
            if let Ok(Following::More { from }) = following(s, j, Lexeme::BracketClose) {
                lemma_items_well_formed(s, from, items.push(v), depth, max);
            }
        }
    }
}

proof fn lemma_member_well_formed(s: Seq<char>, i: int, depth: nat, max: nat)
    ensures
        member_at(s, i, depth, max) matches Ok((m, j)) ==> m.value.well_formed(),
    decreases s.len() - i, 1nat,
{
    lemma_lex_at(s, i);
    if let Ok(k) = lex_at(s, i) {
        lemma_lex_at(s, k.end);
        if let Ok(colon) = lex_at(s, k.end) {
            if k.token is String && colon.token is Colon {
                lemma_value_well_formed(s, colon.end, depth, max);
            }
        }
    }
}

proof fn lemma_object_well_formed(s: Seq<char>, i: int, depth: nat, max: nat)
    ensures
        object_at(s, i, depth, max) matches Ok((v, j)) ==> v.well_formed(),
    decreases s.len() - i, 3nat,
{
    if let Ok(t) = lex_at(s, i) {
        if !(t.token is BraceClose) {
            lemma_members_well_formed(s, i, Seq::empty(), depth, max);
        }
    }
}

proof fn lemma_members_well_formed(
    s: Seq<char>,
    i: int,
    members: Seq<Member>,
    depth: nat,
    max: nat,
)
    requires
        distinct_keys(members),
        members_well_formed(members),
    ensures
        members_at(s, i, members, depth, max) matches Ok((v, j)) ==> v.well_formed(),
    decreases s.len() - i, 2nat,
{
    lemma_member_well_formed(s, i, depth, max);
    if let Ok((m, j)) = member_at(s, i, depth, max) {
        if j > i {
            lemma_following(s, j, Lexeme::BraceClose);
            lemma_put_member(members, m.key, m.value);
            lemma_put_member_holds(members, m.key, m.value);
            let after = put_member(members, m.key, m.value);
            assert(members_well_formed(after)) by {
                assert forall|k: int| 0 <= k < after.len() implies (
                #[trigger] after[k]).value.well_formed() by {
                    if after[k] != (Member { key: m.key, value: m.value }) {
                        let n = choose|n: int| 0 <= n < members.len() && members[n] == after[k];
                        assert(members[n].value.well_formed());
                    }
                }
            }
            if let Ok(Following::More { from }) = following(s, j, Lexeme::BraceClose) {
                lemma_members_well_formed(s, from, after, depth, max);
            }
        }
    }
}

/// The value of a document is well formed: every number in it is a number
/// of the grammar, and no object in it holds a key twice.
pub proof fn lemma_parsed_well_formed(s: Seq<char>, max: nat)
    ensures
        parse_text(s, max) matches Ok(v) ==> v.well_formed(),
{
    lemma_value_well_formed(s, 0, 0, max);
}

} // verus!
