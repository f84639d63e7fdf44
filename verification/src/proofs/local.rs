//! Lexing is local: what a token is depends on its own characters and, for a
//! number, on whether the character after it could go on with it.

use crate::error::{JsonError, LexError};
use crate::lexical::{
    digit_at, escape_at, exponent_end, fraction_end, has_char, hex4, integer_end, is_digit,
    is_high_surrogate, is_whitespace, lemma_lex_at, lemma_match_word, lemma_scan_string_end,
    lemma_skip_digits, lemma_skip_whitespace, lex_at, low_surrogate_at, match_word, number_end,
    scan_string, sign_end, skip_digits, skip_whitespace, token_at, word_false, word_null,
    word_true, Lexed,
};
use vstd::prelude::*;

verus! {

/// The `n` characters of `s1` from `i1` on are the `n` characters of `s2`
/// from `i2` on.
pub open spec fn same_window(s1: Seq<char>, i1: int, s2: Seq<char>, i2: int, n: int) -> bool {
    &&& 0 <= i1
    &&& 0 <= i2
    &&& 0 <= n
    &&& i1 + n <= s1.len()
    &&& i2 + n <= s2.len()
    &&& forall|k: int| i1 <= k < i1 + n ==> #[trigger] s1[k] == s2[k - i1 + i2]
}

/// The text `s` holds the text `e` from index `i` on.
#[verifier::opaque]
pub open spec fn holds_at(s: Seq<char>, i: int, e: Seq<char>) -> bool {
    same_window(e, 0, s, i, e.len() as int)
}

/// Nothing stands at `j` with which a number before it could go on.
pub open spec fn quiet_at(s: Seq<char>, j: int) -> bool {
    !(0 <= j < s.len()) || !(is_digit(s[j]) || s[j] == '.' || s[j] == 'e' || s[j] == 'E' || s[j]
        == '+' || s[j] == '-')
}

/// A text that holds `a + b` holds `a`, and `b` after it.
pub proof fn lemma_holds_parts(s: Seq<char>, i: int, a: Seq<char>, b: Seq<char>)
    requires
        holds_at(s, i, a + b),
    ensures
        holds_at(s, i, a),
        holds_at(s, i + a.len(), b),
{
    reveal(holds_at);
    let e = a + b;
    assert forall|k: int| 0 <= k < a.len() implies #[trigger] a[k] == s[k - 0 + i] by {
        assert(e[k] == a[k]);
    }
    assert forall|k: int| 0 <= k < b.len() implies #[trigger] b[k] == s[k - 0 + (i + a.len())] by {
        assert(e[k + a.len()] == b[k]);
    }
}

/// A text that holds `e` has the characters of `e` in their places.
pub proof fn lemma_holds_char(s: Seq<char>, i: int, e: Seq<char>, k: int)
    requires
        holds_at(s, i, e),
        0 <= k < e.len(),
    ensures
        0 <= i + k < s.len(),
        s[i + k] == e[k],
{
    reveal(holds_at);
    assert(e[k] == s[k - 0 + i]);
}

/// A text that holds `e` has room for it.
pub proof fn lemma_holds_room(s: Seq<char>, i: int, e: Seq<char>)
    requires
        holds_at(s, i, e),
    ensures
        0 <= i,
        i + e.len() <= s.len(),
        same_window(e, 0, s, i, e.len() as int),
        s.subrange(i, i + e.len()) == e,
{
    reveal(holds_at);
    assert forall|k: int| 0 <= k < e.len() implies s[i + k] == e[k] by {
        assert(e[k] == s[k - 0 + i]);
    }
    assert(s.subrange(i, i + e.len()) =~= e);
}

/// A text holds itself from its start on.
pub proof fn lemma_holds_itself(s: Seq<char>)
    ensures
        holds_at(s, 0, s),
{
    reveal(holds_at);
}

/// Skipping digits inside a window on which two texts agree ends at the same
/// place in both, where the second text has no digit directly after the
/// window if the first is skipped up to there.
pub proof fn lemma_skip_digits_local(s1: Seq<char>, s2: Seq<char>, d: int, p: int, bound: int)
    requires
        0 <= p <= bound <= s1.len(),
        0 <= p + d,
        bound + d <= s2.len(),
        forall|k: int| p <= k < bound ==> #[trigger] s1[k] == s2[k + d],
        skip_digits(s1, p) <= bound,
        skip_digits(s1, p) == bound ==> !digit_at(s2, bound + d),
    ensures
        skip_digits(s2, p + d) == skip_digits(s1, p) + d,
    decreases bound - p,
{
    lemma_skip_digits(s1, p);
    if p < bound {
        assert(s1[p] == s2[p + d]);
        if is_digit(s1[p]) {
            lemma_skip_digits_local(s1, s2, d, p + 1, bound);
        }
    }
}

/// The parts of a number end in order, within the text.
pub proof fn lemma_number_parts(s: Seq<char>, i: int)
    requires
        0 <= i <= s.len(),
        number_end(s, i) is Some,
    ensures
        ({
            let a = sign_end(s, i);
            let b = integer_end(s, a)->0;
            let c = fraction_end(s, b)->0;
            let e = exponent_end(s, c)->0;
            &&& integer_end(s, a) is Some
            &&& fraction_end(s, b) is Some
            &&& exponent_end(s, c) is Some
            &&& number_end(s, i) == Some(e)
            &&& i <= a < b <= c <= e <= s.len()
        }),
{
    let a = sign_end(s, i);
    lemma_skip_digits(s, a);
    let b = integer_end(s, a)->0;
    if has_char(s, b, '.') {
        lemma_skip_digits(s, b + 1);
    }
    let c = fraction_end(s, b)->0;
    if has_char(s, c, 'e') || has_char(s, c, 'E') {
        if has_char(s, c + 1, '+') || has_char(s, c + 1, '-') {
            lemma_skip_digits(s, c + 2);
        } else {
            lemma_skip_digits(s, c + 1);
        }
    }
}

/// A number is the same number in any text that has its characters, unless
/// the character after them could go on with it: a number that ends before
/// `i1 + n` in `s1` ends before `i2 + n` in `s2` where the texts agree on
/// those `n` characters and `s2` has nothing after them that goes on with a
/// number, or the same character as `s1`.
pub proof fn lemma_number_local(s1: Seq<char>, i1: int, s2: Seq<char>, i2: int, n: int)
    requires
        same_window(s1, i1, s2, i2, n),
        number_end(s1, i1) == Some(i1 + n),
        quiet_at(s2, i2 + n) || same_window(s1, i1, s2, i2, n + 1),
    ensures
        number_end(s2, i2) == Some(i2 + n),
{
    let d = i2 - i1;
    let bound = i1 + n;
    lemma_number_parts(s1, i1);
    let a = sign_end(s1, i1);
    let b = integer_end(s1, a)->0;
    let c = fraction_end(s1, b)->0;
    let e = exponent_end(s1, c)->0;
    assert(e == bound);
    assert forall|k: int| i1 <= k < bound implies #[trigger] s1[k] == s2[k + d] by {
        assert(s1[k] == s2[k - i1 + i2]);
    }
    // What stands at the bound in `s2` either stands there in `s1` too, or
    // goes on with no number.
    assert(bound < s1.len() && bound + d < s2.len() && s1[bound] == s2[bound + d] || quiet_at(
        s2,
        bound + d,
    )) by {
        if !quiet_at(s2, i2 + n) {
            assert(s1[bound] == s2[bound - i1 + i2]);
        }
    }
    assert(sign_end(s2, i2) == a + d);
    // the integer part
    assert(s1[a] == s2[a + d]);
    if s1[a] != '0' {
        lemma_skip_digits(s1, a);
        lemma_skip_digits_local(s1, s2, d, a, bound);
    }
    assert(integer_end(s2, a + d) == Some(b + d));
    // the fraction
    if has_char(s1, b, '.') {
        lemma_skip_digits(s1, b + 1);
        assert(b < bound);
        assert(s1[b + 1] == s2[b + 1 + d]);
        lemma_skip_digits_local(s1, s2, d, b + 1, bound);
    }
    assert(fraction_end(s2, b + d) == Some(c + d));
    // the exponent
    if has_char(s1, c, 'e') || has_char(s1, c, 'E') {
        let digits = if has_char(s1, c + 1, '+') || has_char(s1, c + 1, '-') {
            c + 2
        } else {
            c + 1
        };
        lemma_skip_digits(s1, digits);
        assert(digits < bound);
        assert(c < bound);
        assert(s1[c + 1] == s2[c + 1 + d]);
        assert(s1[digits] == s2[digits + d]);
        lemma_skip_digits_local(s1, s2, d, digits, bound);
    }
    assert(exponent_end(s2, c + d) == Some(e + d));
}

/// The characters of `s1` from `from` up to `bound` stand in `s2`, moved by
/// `d`.
pub open spec fn moved_window(s1: Seq<char>, s2: Seq<char>, d: int, from: int, bound: int) -> bool {
    &&& 0 <= from
    &&& 0 <= from + d
    &&& bound <= s1.len()
    &&& bound + d <= s2.len()
    &&& forall|k: int| from <= k < bound ==> #[trigger] s1[k] == s2[k + d]
}

/// Whitespace is skipped alike in two texts that agree up to and with the
/// first character that is none.
pub proof fn lemma_skip_whitespace_local(s1: Seq<char>, s2: Seq<char>, d: int, p: int, bound: int)
    requires
        moved_window(s1, s2, d, p, bound),
        p <= bound,
        skip_whitespace(s1, p) < bound || (skip_whitespace(s1, p) == bound && (bound + d
            == s2.len() || !is_whitespace(s2[bound + d]))),
    ensures
        skip_whitespace(s2, p + d) == skip_whitespace(s1, p) + d,
    decreases bound - p,
{
    lemma_skip_whitespace(s1, p);
    if p < bound {
        assert(s1[p] == s2[p + d]);
        if is_whitespace(s1[p]) {
            lemma_skip_whitespace_local(s1, s2, d, p + 1, bound);
        }
    }
}

/// A word that is matched in one text is matched in any text that has the
/// same characters there.
pub proof fn lemma_word_local(
    s1: Seq<char>,
    s2: Seq<char>,
    d: int,
    i: int,
    word: Seq<char>,
    k: int,
)
    requires
        0 <= k <= word.len(),
        match_word(s1, i, word, k) is Ok,
        moved_window(s1, s2, d, i, i + word.len()),
    ensures
        match_word(s2, i + d, word, k) == Ok::<int, LexError>(i + d + word.len()),
    decreases word.len() - k,
{
    if k < word.len() {
        assert(s1[i + k] == s2[i + k + d]);
        lemma_word_local(s1, s2, d, i, word, k + 1);
    }
}

/// Four hexadecimal digits have the same value in any text that has the
/// same characters there.
pub proof fn lemma_hex4_local(s1: Seq<char>, s2: Seq<char>, d: int, i: int, bound: int)
    requires
        hex4(s1, i) is Ok,
        moved_window(s1, s2, d, i, bound),
        i + 4 <= bound,
    ensures
        hex4(s2, i + d) == hex4(s1, i),
{
    assert(s1[i] == s2[i + d]);
    assert(s1[i + 1] == s2[i + 1 + d]);
    assert(s1[i + 2] == s2[i + 2 + d]);
    assert(s1[i + 3] == s2[i + 3 + d]);
}

/// An escape inside a string that ends before `bound` denotes the same
/// character in any text that has the same characters up to `bound`.
pub proof fn lemma_escape_local(
    s1: Seq<char>,
    s2: Seq<char>,
    d: int,
    i: int,
    bound: int,
    acc: Seq<char>,
)
    requires
        escape_at(s1, i) is Ok,
        scan_string(s1, escape_at(s1, i)->Ok_0.1, acc) is Ok,
        scan_string(s1, escape_at(s1, i)->Ok_0.1, acc)->Ok_0.1 <= bound,
        moved_window(s1, s2, d, i, bound),
    ensures
        escape_at(s2, i + d) == Ok::<(char, int), LexError>(
            (escape_at(s1, i)->Ok_0.0, escape_at(s1, i)->Ok_0.1 + d),
        ),
{
    let c = escape_at(s1, i)->Ok_0.0;
    let j = escape_at(s1, i)->Ok_0.1;
    lemma_scan_string_end(s1, j, acc);
    assert(s1[i] == s2[i + d]);
    if s1[i] == 'u' {
        let u = hex4(s1, i + 1)->Ok_0;
        let after = i + 5;
        lemma_hex4_local(s1, s2, d, i + 1, bound);
        if is_high_surrogate(u) {
            assert(s1[after] == s2[after + d]);
            if has_char(s1, after, '\\') {
                // The backslash opens a pair or, after a lone surrogate, the
                // next escape of the string.
                if low_surrogate_at(s1, after) is None {
                    assert(j == after);
                    let next = escape_at(s1, after + 1)->Ok_0;
                    assert(escape_at(s1, after + 1) is Ok);
                    lemma_scan_string_end(s1, next.1, acc.push(next.0));
                }
                assert(s1[after + 1] == s2[after + 1 + d]);
                if has_char(s1, after + 1, 'u') {
                    assert(hex4(s1, after + 2) is Ok);
                    lemma_hex4_local(s1, s2, d, after + 2, bound);
                }
            }
            assert(low_surrogate_at(s2, after + d) == low_surrogate_at(s1, after));
        }
    }
}

/// A string is the same string in any text that has its characters: where
/// the scan of a string ends before `bound` in `s1`, it decodes the same text
/// in any `s2` that has the same characters up to `bound`.
pub proof fn lemma_scan_string_local(
    s1: Seq<char>,
    s2: Seq<char>,
    d: int,
    i: int,
    bound: int,
    acc: Seq<char>,
)
    requires
        scan_string(s1, i, acc) is Ok,
        scan_string(s1, i, acc)->Ok_0.1 <= bound,
        moved_window(s1, s2, d, i, bound),
    ensures
        scan_string(s2, i + d, acc) == Ok::<(Seq<char>, int), LexError>(
            (scan_string(s1, i, acc)->Ok_0.0, scan_string(s1, i, acc)->Ok_0.1 + d),
        ),
    decreases s1.len() - i,
{
    lemma_scan_string_end(s1, i, acc);
    assert(s1[i] == s2[i + d]);
    if s1[i] == '"' {
    } else if s1[i] == '\\' {
        let c = escape_at(s1, i + 1)->Ok_0.0;
        let j = escape_at(s1, i + 1)->Ok_0.1;
        lemma_escape_local(s1, s2, d, i + 1, bound, acc.push(c));
        lemma_scan_string_local(s1, s2, d, j, bound, acc.push(c));
    } else {
        lemma_scan_string_local(s1, s2, d, i + 1, bound, acc.push(s1[i]));
    }
}

/// What stands after a token in the second text lets the token end there as
/// in the first: the same character, the end of the text, or whitespace
/// after a token that is not the end of the input.
pub open spec fn same_ending(s1: Seq<char>, s2: Seq<char>, d: int, t: Lexed) -> bool {
    ||| (t.end < s1.len() && t.end + d < s2.len() && s1[t.end] == s2[t.end + d])
    ||| t.end + d == s2.len()
    ||| (t.end + d < s2.len() && is_whitespace(s2[t.end + d]) && !(t.token is EndOfInput))
}

/// The token that starts at `start` in `s1` starts at `start + d` in any
/// text that has its characters there and lets it end there.
proof fn lemma_token_local(s1: Seq<char>, s2: Seq<char>, d: int, start: int)
    requires
        0 <= start < s1.len(),
        token_at(s1, start) is Ok,
        start < token_at(s1, start)->Ok_0.end,
        moved_window(s1, s2, d, start, token_at(s1, start)->Ok_0.end),
        same_ending(s1, s2, d, token_at(s1, start)->Ok_0),
    ensures
        token_at(s2, start + d) == Ok::<Lexed, LexError>(
            Lexed {
                token: token_at(s1, start)->Ok_0.token,
                start: start + d,
                end: token_at(s1, start)->Ok_0.end + d,
            },
        ),
{
    let t = token_at(s1, start)->Ok_0;
    let c = s1[start];
    assert(s1[start] == s2[start + d]);
    if c == '"' {
        lemma_scan_string_local(s1, s2, d, start + 1, t.end, Seq::empty());
    } else if c == '-' || is_digit(c) {
        lemma_number_token_local(s1, s2, d, start, t.end);
    } else if c == 't' {
        lemma_match_word(s1, start, word_true(), 0);
        lemma_word_local(s1, s2, d, start, word_true(), 0);
    } else if c == 'f' {
        lemma_match_word(s1, start, word_false(), 0);
        lemma_word_local(s1, s2, d, start, word_false(), 0);
    } else if c == 'n' {
        lemma_match_word(s1, start, word_null(), 0);
        lemma_word_local(s1, s2, d, start, word_null(), 0);
    }
}

/// A number that ends before `end` in `s1` is the same number, with the same
/// literal, in any text that has its characters and lets it end there.
proof fn lemma_number_token_local(s1: Seq<char>, s2: Seq<char>, d: int, start: int, end: int)
    requires
        number_end(s1, start) == Some(end),
        start <= end,
        moved_window(s1, s2, d, start, end),
        (end < s1.len() && end + d < s2.len() && s1[end] == s2[end + d]) || end + d == s2.len() || (
        end + d < s2.len() && is_whitespace(s2[end + d])),
    ensures
        number_end(s2, start + d) == Some(end + d),
        s2.subrange(start + d, end + d) == s1.subrange(start, end),
{
    assert forall|k: int| start <= k < start + (end - start) implies #[trigger] s1[k] == s2[k
        - start + (start + d)] by {
        assert(s1[k] == s2[k + d]);
    }
    if end < s1.len() && end + d < s2.len() && s1[end] == s2[end + d] {
        assert(same_window(s1, start, s2, start + d, end - start + 1));
    }
    lemma_number_local(s1, start, s2, start + d, end - start);
    let text1 = s1.subrange(start, end);
    let text2 = s2.subrange(start + d, end + d);
    assert(text2 =~= text1) by {
        assert forall|k: int| 0 <= k < text1.len() implies #[trigger] text2[k] == text1[k] by {
            assert(s1[start + k] == s2[start + k + d]);
        }
    }
}

/// A token is the same token in any text that has its characters and lets
/// it end there: where `s1` holds the token `t` from `i` on, and `s2` has
/// the same characters, moved by `d`, from `i` up to the token's end, and
/// after them the same character as `s1`, or whitespace, or nothing, `s2`
/// holds the same token, moved by `d`.
pub proof fn lemma_lex_local(s1: Seq<char>, s2: Seq<char>, d: int, i: int)
    requires
        lex_at(s1, i) is Ok,
        moved_window(s1, s2, d, i, lex_at(s1, i)->Ok_0.end),
        i <= s1.len(),
        same_ending(s1, s2, d, lex_at(s1, i)->Ok_0),
    ensures
        lex_at(s2, i + d) == Ok::<Lexed, JsonError>(
            Lexed {
                token: lex_at(s1, i)->Ok_0.token,
                start: lex_at(s1, i)->Ok_0.start + d,
                end: lex_at(s1, i)->Ok_0.end + d,
            },
        ),
{
    reveal(lex_at);
    let t = lex_at(s1, i)->Ok_0;
    lemma_lex_at(s1, i);
    let start = t.start;
    lemma_skip_whitespace(s1, i);
    if start < s1.len() {
        assert(s1[start] == s2[start + d]);
    }
    lemma_skip_whitespace_local(s1, s2, d, i, t.end);
    assert(skip_whitespace(s2, i + d) == start + d);
    if start < s1.len() {
        assert(token_at(s1, start) == Ok::<Lexed, LexError>(t));
        assert(moved_window(s1, s2, d, start, t.end));
        lemma_token_local(s1, s2, d, start);
    }
}

} // verus!
