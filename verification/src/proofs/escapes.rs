//! Escapes: a backslash of the source never reaches the decoded text as it
//! stands.

use crate::lexical::{escape_at, scan_string};
use vstd::prelude::*;

verus! {

/// No escape in the string body from `i` on denotes a backslash.
pub open spec fn no_backslash_escape(s: Seq<char>, i: int) -> bool
    decreases s.len() - i,
{
    if !(0 <= i < s.len()) || s[i] == '"' {
        true
    } else if s[i] == '\\' {
        match escape_at(s, i + 1) {
            Ok((c, j)) => c != '\\' && no_backslash_escape(s, j),
            Err(_) => true,
        }
    } else {
        no_backslash_escape(s, i + 1)
    }
}

/// The text `t` holds no backslash.
pub open spec fn backslash_free(t: Seq<char>) -> bool {
    forall|k: int| 0 <= k < t.len() ==> t[k] != '\\'
}

/// The decoded text of a string holds a backslash only where an escape
/// denotes one: every backslash of the source starts an escape and is
/// resolved with it. So a string of which no escape denotes a backslash is
/// decoded to a text without any.
pub proof fn lemma_decoded_text_has_no_raw_backslash(s: Seq<char>, i: int, acc: Seq<char>)
    requires
        backslash_free(acc),
        no_backslash_escape(s, i),
    ensures
        scan_string(s, i, acc) matches Ok((text, end)) ==> backslash_free(text),
    decreases s.len() - i,
{
    if 0 <= i < s.len() && s[i] != '"' {
        if s[i] == '\\' {
            if let Ok((c, j)) = escape_at(s, i + 1) {
                lemma_decoded_text_has_no_raw_backslash(s, j, acc.push(c));
            }
        } else {
            lemma_decoded_text_has_no_raw_backslash(s, i + 1, acc.push(s[i]));
        }
    }
}

} // verus!
