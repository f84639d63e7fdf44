//! Whitespace between tokens is insignificant: the value of a text depends
//! on its tokens alone, and whitespace between two tokens changes none.

use crate::error::JsonError;
use crate::lexical::{is_whitespace, lemma_lex_at, lemma_skip_whitespace, lex_at, skip_whitespace};
use crate::proofs::local::{lemma_lex_local, moved_window, same_ending};
use crate::syntax::{
    array_at, following, items_at, lemma_following, lemma_member_at, lemma_value_at, member_at,
    members_at, object_at, parse_text, value_at, Following,
};
use crate::token::Lexeme;
use crate::value::{put_member, Json, Member};
use vstd::prelude::*;

verus! {

/// The tokens of `s1` from `i1` on are, kind by kind, the tokens of `s2`
/// from `i2` on, up to the end of the input or to a token that is malformed
/// in both.
pub open spec fn same_tokens(s1: Seq<char>, i1: int, s2: Seq<char>, i2: int) -> bool
    decreases s1.len() - i1,
{
    match (lex_at(s1, i1), lex_at(s2, i2)) {
        (Ok(a), Ok(b)) => a.token == b.token && (a.token is EndOfInput || {
            proof {
                lemma_lex_at(s1, i1);
            }
            same_tokens(s1, a.end, s2, b.end)
        }),
        (Err(_), Err(_)) => true,
        _ => false,
    }
}

/// Two results of reading a value are alike: both fail, or both give the
/// same value and the same tokens follow.
pub open spec fn alike(
    s1: Seq<char>,
    r1: Result<(Json, int), JsonError>,
    s2: Seq<char>,
    r2: Result<(Json, int), JsonError>,
) -> bool {
    match (r1, r2) {
        (Ok((v1, j1)), Ok((v2, j2))) => v1 == v2 && same_tokens(s1, j1, s2, j2),
        (Err(_), Err(_)) => true,
        _ => false,
    }
}

/// Two results of reading a member are alike: both fail, or both give the
/// same member and the same tokens follow.
pub open spec fn members_alike(
    s1: Seq<char>,
    r1: Result<(Member, int), JsonError>,
    s2: Seq<char>,
    r2: Result<(Member, int), JsonError>,
) -> bool {
    match (r1, r2) {
        (Ok((m1, j1)), Ok((m2, j2))) => m1 == m2 && same_tokens(s1, j1, s2, j2),
        (Err(_), Err(_)) => true,
        _ => false,
    }
}

/// Two results of reading what follows an item are alike: both fail, or both
/// close, or both go on, and the same tokens follow.
pub open spec fn followings_alike(
    s1: Seq<char>,
    r1: Result<Following, JsonError>,
    s2: Seq<char>,
    r2: Result<Following, JsonError>,
) -> bool {
    match (r1, r2) {
        (Ok(Following::Closed { end: e1 }), Ok(Following::Closed { end: e2 })) => same_tokens(
            s1,
            e1,
            s2,
            e2,
        ),
        (Ok(Following::More { from: f1 }), Ok(Following::More { from: f2 })) => same_tokens(
            s1,
            f1,
            s2,
            f2,
        ),
        (Err(_), Err(_)) => true,
        _ => false,
    }
}

proof fn lemma_following_alike(s1: Seq<char>, j1: int, s2: Seq<char>, j2: int, close: Lexeme)
    requires
        same_tokens(s1, j1, s2, j2),
        close is BracketClose || close is BraceClose,
    ensures
        followings_alike(s1, following(s1, j1, close), s2, following(s2, j2, close)),
{
    if let Ok(a) = lex_at(s1, j1) {
        let b = lex_at(s2, j2)->Ok_0;
        if a.token is Comma {
            assert(same_tokens(s1, a.end, s2, b.end));
        }
    }
}

proof fn lemma_value_alike(s1: Seq<char>, i1: int, s2: Seq<char>, i2: int, depth: nat, max: nat)
    requires
        same_tokens(s1, i1, s2, i2),
    ensures
        alike(s1, value_at(s1, i1, depth, max), s2, value_at(s2, i2, depth, max)),
    decreases s1.len() - i1, 0nat,
{
    lemma_lex_at(s1, i1);
    if let Ok(a) = lex_at(s1, i1) {
        let b = lex_at(s2, i2)->Ok_0;
        if depth < max {
            if a.token is BracketOpen {
                lemma_array_alike(s1, a.end, s2, b.end, depth + 1, max);
            } else if a.token is BraceOpen {
                lemma_object_alike(s1, a.end, s2, b.end, depth + 1, max);
            }
        }
    }
}

proof fn lemma_array_alike(s1: Seq<char>, i1: int, s2: Seq<char>, i2: int, depth: nat, max: nat)
    requires
        same_tokens(s1, i1, s2, i2),
    ensures
        alike(s1, array_at(s1, i1, depth, max), s2, array_at(s2, i2, depth, max)),
    decreases s1.len() - i1, 2nat,
{
    if let Ok(a) = lex_at(s1, i1) {
        if !(a.token is BracketClose) {
            lemma_items_alike(s1, i1, s2, i2, Seq::empty(), depth, max);
        }
    }
}

proof fn lemma_items_alike(
    s1: Seq<char>,
    i1: int,
    s2: Seq<char>,
    i2: int,
    items: Seq<Json>,
    depth: nat,
    max: nat,
)
    requires
        same_tokens(s1, i1, s2, i2),
    ensures
        alike(s1, items_at(s1, i1, items, depth, max), s2, items_at(s2, i2, items, depth, max)),
    decreases s1.len() - i1, 1nat,
{
    lemma_value_alike(s1, i1, s2, i2, depth, max);
    lemma_value_at(s1, i1, depth, max);
    lemma_value_at(s2, i2, depth, max);
    if let Ok((v, j1)) = value_at(s1, i1, depth, max) {
        let j2 = value_at(s2, i2, depth, max)->Ok_0.1;
        let close = Lexeme::BracketClose;
        lemma_following_alike(s1, j1, s2, j2, close);
        lemma_following(s1, j1, close);
        if let Ok(Following::More { from }) = following(s1, j1, close) {
            let from2 = following(s2, j2, close)->Ok_0->from;
            lemma_items_alike(s1, from, s2, from2, items.push(v), depth, max);
        }
    }
}

proof fn lemma_member_alike(s1: Seq<char>, i1: int, s2: Seq<char>, i2: int, depth: nat, max: nat)
    requires
        same_tokens(s1, i1, s2, i2),
    ensures
        members_alike(s1, member_at(s1, i1, depth, max), s2, member_at(s2, i2, depth, max)),
    decreases s1.len() - i1, 1nat,
{
    lemma_lex_at(s1, i1);
    if let Ok(k1) = lex_at(s1, i1) {
        let k2 = lex_at(s2, i2)->Ok_0;
        if k1.token is String {
            assert(same_tokens(s1, k1.end, s2, k2.end));
            lemma_lex_at(s1, k1.end);
            if let Ok(c1) = lex_at(s1, k1.end) {
                let c2 = lex_at(s2, k2.end)->Ok_0;
                if c1.token is Colon {
                    assert(same_tokens(s1, c1.end, s2, c2.end));
                    lemma_value_alike(s1, c1.end, s2, c2.end, depth, max);
                }
            }
        }
    }
}

proof fn lemma_object_alike(s1: Seq<char>, i1: int, s2: Seq<char>, i2: int, depth: nat, max: nat)
    requires
        same_tokens(s1, i1, s2, i2),
    ensures
        alike(s1, object_at(s1, i1, depth, max), s2, object_at(s2, i2, depth, max)),
    decreases s1.len() - i1, 3nat,
{
    if let Ok(a) = lex_at(s1, i1) {
        if !(a.token is BraceClose) {
            lemma_members_alike(s1, i1, s2, i2, Seq::empty(), depth, max);
        }
    }
}

proof fn lemma_members_alike(
    s1: Seq<char>,
    i1: int,
    s2: Seq<char>,
    i2: int,
    members: Seq<Member>,
    depth: nat,
    max: nat,
)
    requires
        same_tokens(s1, i1, s2, i2),
    ensures
        alike(
            s1,
            members_at(s1, i1, members, depth, max),
            s2,
            members_at(s2, i2, members, depth, max),
        ),
    decreases s1.len() - i1, 2nat,
{
    lemma_member_alike(s1, i1, s2, i2, depth, max);
    lemma_member_at(s1, i1, depth, max);
    lemma_member_at(s2, i2, depth, max);
    if let Ok((m, j1)) = member_at(s1, i1, depth, max) {
        let j2 = member_at(s2, i2, depth, max)->Ok_0.1;
        let close = Lexeme::BraceClose;
        lemma_following_alike(s1, j1, s2, j2, close);
        lemma_following(s1, j1, close);
        if let Ok(Following::More { from }) = following(s1, j1, close) {
            let from2 = following(s2, j2, close)->Ok_0->from;
            lemma_members_alike(
                s1,
                from,
                s2,
                from2,
                put_member(members, m.key, m.value),
                depth,
                max,
            );
        }
    }
}

/// Two documents have the same outcome: both fail, or both give the same
/// value.
pub open spec fn same_outcome(r1: Result<Json, JsonError>, r2: Result<Json, JsonError>) -> bool {
    match (r1, r2) {
        (Ok(v1), Ok(v2)) => v1 == v2,
        (Err(_), Err(_)) => true,
        _ => false,
    }
}

/// The value of a text depends on its tokens alone: two texts with the same
/// tokens are parsed to the same value, or both are rejected.
pub proof fn lemma_same_tokens_same_value(s1: Seq<char>, s2: Seq<char>, max: nat)
    requires
        same_tokens(s1, 0, s2, 0),
    ensures
        same_outcome(parse_text(s1, max), parse_text(s2, max)),
{
    lemma_value_alike(s1, 0, s2, 0, 0, max);
}

/// The tokens of two texts are the same from where the rest of the one is
/// the rest of the other.
proof fn lemma_tokens_moved(s1: Seq<char>, s2: Seq<char>, d: int, x: int)
    requires
        0 <= x <= s1.len(),
        0 <= x + d,
        s2.len() == s1.len() + d,
        forall|k: int| x <= k < s1.len() ==> #[trigger] s1[k] == s2[k + d],
    ensures
        same_tokens(s1, x, s2, x + d),
    decreases s1.len() - x,
{
    lemma_lex_at(s1, x);
    lemma_lex_at(s2, x + d);
    match lex_at(s1, x) {
        Ok(t) => {
            assert(moved_window(s1, s2, d, x, t.end));
            assert(same_ending(s1, s2, d, t));
            lemma_lex_local(s1, s2, d, x);
            if !(t.token is EndOfInput) {
                lemma_tokens_moved(s1, s2, d, t.end);
            }
        },
        Err(_) => {
            if let Ok(t2) = lex_at(s2, x + d) {
                assert forall|k: int| x + d <= k < t2.end implies #[trigger] s2[k] == s1[k + (-d)] by {
                    let k1 = k - d;
                    assert(s1[k1] == s2[k1 + d]);
                }
                assert(moved_window(s2, s1, -d, x + d, t2.end));
                if t2.end < s2.len() {
                    let k1 = t2.end - d;
                    assert(s1[k1] == s2[k1 + d]);
                }
                assert(same_ending(s2, s1, -d, t2));
                lemma_lex_local(s2, s1, -d, x + d);
                assert(false);
            }
        },
    }
}

/// From anywhere inside a run of whitespace the same token is read.
proof fn lemma_whitespace_run(s: Seq<char>, i: int, k: int)
    requires
        0 <= i <= k <= s.len(),
        forall|j: int| i <= j < k ==> is_whitespace(#[trigger] s[j]),
    ensures
        lex_at(s, i) == lex_at(s, k),
    decreases k - i,
{
    reveal(lex_at);
    if i < k {
        assert(is_whitespace(s[i]));
        lemma_whitespace_run(s, i + 1, k);
    }
}

/// A token that is read on the way from `i` ends before `q`, or `q` is `i`
/// itself.
pub open spec fn token_end(s: Seq<char>, i: int, q: int) -> bool
    decreases q - i,
{
    i == q || (i < q && match lex_at(s, i) {
        Ok(t) => !(t.token is EndOfInput) && t.end <= q && {
            proof {
                lemma_lex_at(s, i);
            }
            token_end(s, t.end, q)
        },
        Err(_) => false,
    })
}

/// The text `s` with `ws` put in before index `p`.
pub open spec fn with_inserted(s: Seq<char>, p: int, ws: Seq<char>) -> Seq<char> {
    s.subrange(0, p) + ws + s.subrange(p, s.len() as int)
}

/// Every character of `ws` is whitespace.
pub open spec fn all_whitespace(ws: Seq<char>) -> bool {
    forall|k: int| 0 <= k < ws.len() ==> is_whitespace(#[trigger] ws[k])
}

proof fn lemma_tokens_before(s: Seq<char>, s2: Seq<char>, i: int, q: int, p: int)
    requires
        0 <= i,
        token_end(s, i, q),
        q <= p <= s.len(),
        p <= s2.len(),
        forall|k: int| 0 <= k < p ==> #[trigger] s[k] == s2[k],
        p == s2.len() || is_whitespace(s2[p]) || (p < s.len() && s[p] == s2[p]),
        p == s2.len() ==> p == s.len(),
        same_tokens(s, q, s2, q),
    ensures
        same_tokens(s, i, s2, i),
    decreases q - i,
{
    if i < q {
        lemma_lex_at(s, i);
        let t = lex_at(s, i)->Ok_0;
        assert(moved_window(s, s2, 0, i, t.end));
        assert(same_ending(s, s2, 0, t)) by {
            if t.end < p {
                assert(s[t.end] == s2[t.end]);
            }
        }
        lemma_lex_local(s, s2, 0, i);
        lemma_tokens_before(s, s2, t.end, q, p);
    }
}

/// Whitespace between two tokens changes no token: where `q` is the end of
/// a token of `s` (or its start) and `p` lies in the whitespace after `q`,
/// the text with whitespace put in at `p` has the same tokens as `s`.
pub proof fn lemma_whitespace_keeps_tokens(s: Seq<char>, q: int, p: int, ws: Seq<char>)
    requires
        token_end(s, 0, q),
        0 <= q <= p <= skip_whitespace(s, q),
        p <= s.len(),
        all_whitespace(ws),
    ensures
        same_tokens(s, 0, with_inserted(s, p, ws), 0),
{
    let s2 = with_inserted(s, p, ws);
    let d = ws.len() as int;
    assert(s2.len() == s.len() + d);
    assert forall|k: int| p <= k < s.len() implies #[trigger] s[k] == s2[k + d] by {}
    assert forall|k: int| 0 <= k < p implies #[trigger] s[k] == s2[k] by {}
    lemma_tokens_moved(s, s2, d, p);
    lemma_skip_whitespace(s, q);
    lemma_whitespace_run(s, q, p);
    assert forall|j: int| q <= j < p + d implies is_whitespace(#[trigger] s2[j]) by {
        if j < p {
            assert(s2[j] == s[j]);
        } else {
            assert(s2[j] == ws[j - p]);
        }
    }
    lemma_whitespace_run(s2, q, p + d);
    assert(same_tokens(s, q, s2, q));
    if d > 0 {
        assert(s2[p] == ws[0]);
    } else if p < s.len() {
        assert(s2[p] == s[p]);
    }
    lemma_tokens_before(s, s2, 0, q, p);
}

/// Whitespace between two tokens is insignificant: the text with whitespace
/// put in after a token, or before the first, is parsed to the same value as
/// the text without it, or both are rejected.
pub proof fn lemma_whitespace_insignificant(
    s: Seq<char>,
    q: int,
    p: int,
    ws: Seq<char>,
    max: nat,
)
    requires
        token_end(s, 0, q),
        0 <= q <= p <= skip_whitespace(s, q),
        p <= s.len(),
        all_whitespace(ws),
    ensures
        same_outcome(parse_text(s, max), parse_text(with_inserted(s, p, ws), max)),
{
    lemma_whitespace_keeps_tokens(s, q, p, ws);
    lemma_same_tokens_same_value(s, with_inserted(s, p, ws), max);
}

} // verus!
