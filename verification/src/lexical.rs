//! The lexical grammar of JSON as functions on a character sequence and an
//! index into it. The lexer is proved to compute exactly these functions.

use crate::error::{ErrorKind, JsonError, LexError};
use crate::position::position_at;
use crate::token::Lexeme;
use vstd::prelude::*;

verus! {

/// Insignificant whitespace: space, tab, newline, carriage return.
pub open spec fn is_whitespace(c: char) -> bool {
    c == ' ' || c == '\t' || c == '\n' || c == '\r'
}

/// A decimal digit.
pub open spec fn is_digit(c: char) -> bool {
    '0' <= c <= '9'
}

/// A hexadecimal digit, in either case.
pub open spec fn is_hex_digit(c: char) -> bool {
    ('0' <= c <= '9') || ('a' <= c <= 'f') || ('A' <= c <= 'F')
}

/// The value of a hexadecimal digit.
pub open spec fn hex_value(c: char) -> int {
    if '0' <= c <= '9' {
        c as int - '0' as int
    } else if 'a' <= c <= 'f' {
        c as int - 'a' as int + 10
    } else {
        c as int - 'A' as int + 10
    }
}

/// The text holds the character `c` at index `i`.
pub open spec fn has_char(s: Seq<char>, i: int, c: char) -> bool {
    0 <= i < s.len() && s[i] == c
}

/// The text holds a decimal digit at index `i`.
pub open spec fn digit_at(s: Seq<char>, i: int) -> bool {
    0 <= i < s.len() && is_digit(s[i])
}

/// The first index from `i` on that holds no whitespace.
pub open spec fn skip_whitespace(s: Seq<char>, i: int) -> int
    decreases s.len() - i,
{
    if 0 <= i < s.len() && is_whitespace(s[i]) {
        skip_whitespace(s, i + 1)
    } else {
        i
    }
}

/// The first index from `i` on that holds no decimal digit.
pub open spec fn skip_digits(s: Seq<char>, i: int) -> int
    decreases s.len() - i,
{
    if digit_at(s, i) {
        skip_digits(s, i + 1)
    } else {
        i
    }
}

/// The index after an optional minus sign at `i`.
pub open spec fn sign_end(s: Seq<char>, i: int) -> int {
    if has_char(s, i, '-') {
        i + 1
    } else {
        i
    }
}

/// The index after the integer part `0|[1-9]\d*` at `i`; `None` where no
/// digit stands at `i` or a zero is followed by another digit.
pub open spec fn integer_end(s: Seq<char>, i: int) -> Option<int> {
    if !digit_at(s, i) {
        None
    } else if s[i] == '0' {
        if digit_at(s, i + 1) {
            None
        } else {
            Some(i + 1)
        }
    } else {
        Some(skip_digits(s, i))
    }
}

/// The index after an optional fraction `\.\d+` at `i`; `None` where a point
/// is followed by no digit.
pub open spec fn fraction_end(s: Seq<char>, i: int) -> Option<int> {
    if has_char(s, i, '.') {
        if digit_at(s, i + 1) {
            Some(skip_digits(s, i + 1))
        } else {
            None
        }
    } else {
        Some(i)
    }
}

/// The index after an optional exponent `[eE][+-]?\d+` at `i`; `None` where
/// the exponent mark, with its sign, is followed by no digit.
pub open spec fn exponent_end(s: Seq<char>, i: int) -> Option<int> {
    if has_char(s, i, 'e') || has_char(s, i, 'E') {
        let d = if has_char(s, i + 1, '+') || has_char(s, i + 1, '-') {
            i + 2
        } else {
            i + 1
        };
        if digit_at(s, d) {
            Some(skip_digits(s, d))
        } else {
            None
        }
    } else {
        Some(i)
    }
}

/// The index after the number `-?(0|[1-9]\d*)(\.\d+)?([eE][+-]?\d+)?` that
/// starts at `i`; `None` where the text at `i` departs from that grammar.
pub open spec fn number_end(s: Seq<char>, i: int) -> Option<int> {
    match integer_end(s, sign_end(s, i)) {
        None => None,
        Some(b) => match fraction_end(s, b) {
            None => None,
            Some(c) => exponent_end(s, c),
        },
    }
}

/// The whole of `t` is one number of the grammar.
pub open spec fn is_number_text(t: Seq<char>) -> bool {
    number_end(t, 0) == Some(t.len() as int)
}

/// Matching `word` against the text at `i`, from the `k`-th character of the
/// word on: the index after the word, or the error that names the first
/// character that departs from it.
pub open spec fn match_word(s: Seq<char>, i: int, word: Seq<char>, k: int) -> Result<int, LexError>
    decreases word.len() - k,
{
    if k >= word.len() {
        Ok(i + word.len())
    } else if has_char(s, i + k, word[k]) {
        match_word(s, i, word, k + 1)
    } else {
        Err(
            LexError::UnknownLiteral(
                if 0 <= i + k < s.len() {
                    Some(s[i + k])
                } else {
                    None
                },
            ),
        )
    }
}

/// The word `true`.
pub open spec fn word_true() -> Seq<char> {
    seq!['t', 'r', 'u', 'e']
}

/// The word `false`.
pub open spec fn word_false() -> Seq<char> {
    seq!['f', 'a', 'l', 's', 'e']
}

/// The word `null`.
pub open spec fn word_null() -> Seq<char> {
    seq!['n', 'u', 'l', 'l']
}

/// The character that the escape letter `c` stands for, for the escapes
/// `\" \\ \/ \b \f \n \r \t`.
pub open spec fn simple_escape(c: char) -> Option<char> {
    if c == '"' {
        Some('"')
    } else if c == '\\' {
        Some('\\')
    } else if c == '/' {
        Some('/')
    } else if c == 'b' {
        Some('\u{8}')
    } else if c == 'f' {
        Some('\u{c}')
    } else if c == 'n' {
        Some('\n')
    } else if c == 'r' {
        Some('\r')
    } else if c == 't' {
        Some('\t')
    } else {
        None
    }
}

/// What is wrong with index `i` as a hexadecimal digit of a `\u` escape:
/// the input has ended, or another character stands there.
pub open spec fn hex_problem(s: Seq<char>, i: int) -> Option<LexError> {
    if !(0 <= i < s.len()) {
        Some(LexError::UnterminatedString)
    } else if !is_hex_digit(s[i]) {
        Some(LexError::InvalidEscape)
    } else {
        None
    }
}

/// The value of the four hexadecimal digits at `i`, or the first problem met
/// from left to right.
pub open spec fn hex4(s: Seq<char>, i: int) -> Result<int, LexError> {
    if let Some(e) = hex_problem(s, i) {
        Err(e)
    } else if let Some(e) = hex_problem(s, i + 1) {
        Err(e)
    } else if let Some(e) = hex_problem(s, i + 2) {
        Err(e)
    } else if let Some(e) = hex_problem(s, i + 3) {
        Err(e)
    } else {
        Ok(
            4096 * hex_value(s[i]) + 256 * hex_value(s[i + 1]) + 16 * hex_value(s[i + 2])
                + hex_value(s[i + 3]),
        )
    }
}

/// The first half of a surrogate pair.
pub open spec fn is_high_surrogate(u: int) -> bool {
    0xD800 <= u <= 0xDBFF
}

/// The second half of a surrogate pair.
pub open spec fn is_low_surrogate(u: int) -> bool {
    0xDC00 <= u <= 0xDFFF
}

/// The code point that a surrogate pair stands for.
pub open spec fn surrogate_pair(high: int, low: int) -> char {
    (0x10000 + (high - 0xD800) * 0x400 + (low - 0xDC00)) as char
}

/// The character that stands for a surrogate without its partner.
pub open spec fn replacement() -> char {
    '\u{FFFD}'
}

/// The low surrogate that a `\uXXXX` escape at `j` denotes, if one stands
/// there.
pub open spec fn low_surrogate_at(s: Seq<char>, j: int) -> Option<int> {
    if has_char(s, j, '\\') && has_char(s, j + 1, 'u') {
        match hex4(s, j + 2) {
            Ok(low) => if is_low_surrogate(low) {
                Some(low)
            } else {
                None
            },
            Err(_) => None,
        }
    } else {
        None
    }
}

/// The character of a `\u` escape with value `u` whose digits end before `j`,
/// and the index after all that the escape takes: a high surrogate directly
/// followed by the escape of a low one combines with it into one code point;
/// any other surrogate becomes the replacement character.
pub open spec fn unicode_escape(s: Seq<char>, j: int, u: int) -> (char, int) {
    if is_high_surrogate(u) && low_surrogate_at(s, j) is Some {
        (surrogate_pair(u, low_surrogate_at(s, j)->0), j + 6)
    } else if is_high_surrogate(u) || is_low_surrogate(u) {
        (replacement(), j)
    } else {
        (u as char, j)
    }
}

/// The character that the escape at `i` (the index after the backslash)
/// denotes, and the index after the escape.
pub open spec fn escape_at(s: Seq<char>, i: int) -> Result<(char, int), LexError> {
    if !(0 <= i < s.len()) {
        Err(LexError::UnterminatedString)
    } else if s[i] == 'u' {
        match hex4(s, i + 1) {
            Ok(u) => Ok(unicode_escape(s, i + 5, u)),
            Err(e) => Err(e),
        }
    } else {
        match simple_escape(s[i]) {
            Some(c) => Ok((c, i + 1)),
            None => Err(LexError::InvalidEscape),
        }
    }
}

/// Scanning the body of a string from `i` on, with `acc` already decoded:
/// the decoded text and the index after the closing quote, or the first
/// error met.
pub open spec fn scan_string(s: Seq<char>, i: int, acc: Seq<char>) -> Result<
    (Seq<char>, int),
    LexError,
>
    decreases s.len() - i,
{
    if !(0 <= i < s.len()) {
        Err(LexError::UnterminatedString)
    } else if s[i] == '"' {
        Ok((acc, i + 1))
    } else if s[i] == '\\' {
        match escape_at(s, i + 1) {
            Ok((c, j)) => scan_string(s, j, acc.push(c)),
            Err(e) => Err(e),
        }
    } else {
        scan_string(s, i + 1, acc.push(s[i]))
    }
}

/// What is left of a string once the escape at `i` (the index after the
/// backslash) is decoded onto `acc`.
pub open spec fn scan_escape(s: Seq<char>, i: int, acc: Seq<char>) -> Result<
    (Seq<char>, int),
    LexError,
> {
    match escape_at(s, i) {
        Ok((c, j)) => scan_string(s, j, acc.push(c)),
        Err(e) => Err(e),
    }
}

/// What is left of a string once a `\u` escape with value `u`, whose digits
/// end before `j`, is decoded onto `acc`.
pub open spec fn scan_unicode(s: Seq<char>, j: int, u: int, acc: Seq<char>) -> Result<
    (Seq<char>, int),
    LexError,
> {
    scan_string(s, unicode_escape(s, j, u).1, acc.push(unicode_escape(s, j, u).0))
}

/// A token as the grammar sees it: its kind, the index at which it starts and
/// the index after its last character.
pub ghost struct Lexed {
    pub token: Lexeme,
    pub start: int,
    pub end: int,
}

/// The error of kind `kind` for a token that starts at index `at`.
pub open spec fn lex_error_at(s: Seq<char>, kind: LexError, at: int) -> JsonError {
    JsonError { kind: ErrorKind::Lex(kind), position: position_at(s, at) }
}

/// The token that starts at index `start`, where no whitespace stands.
pub open spec fn token_at(s: Seq<char>, start: int) -> Result<Lexed, LexError> {
    if !(0 <= start < s.len()) {
        Ok(Lexed { token: Lexeme::EndOfInput, start, end: start })
    } else {
        let c = s[start];
        if c == '{' {
            Ok(Lexed { token: Lexeme::BraceOpen, start, end: start + 1 })
        } else if c == '}' {
            Ok(Lexed { token: Lexeme::BraceClose, start, end: start + 1 })
        } else if c == '[' {
            Ok(Lexed { token: Lexeme::BracketOpen, start, end: start + 1 })
        } else if c == ']' {
            Ok(Lexed { token: Lexeme::BracketClose, start, end: start + 1 })
        } else if c == ':' {
            Ok(Lexed { token: Lexeme::Colon, start, end: start + 1 })
        } else if c == ',' {
            Ok(Lexed { token: Lexeme::Comma, start, end: start + 1 })
        } else if c == '"' {
            match scan_string(s, start + 1, Seq::empty()) {
                Ok((text, end)) => Ok(Lexed { token: Lexeme::String(text), start, end }),
                Err(e) => Err(e),
            }
        } else if c == '-' || is_digit(c) {
            match number_end(s, start) {
                Some(end) => Ok(
                    Lexed { token: Lexeme::Number(s.subrange(start, end)), start, end },
                ),
                None => Err(LexError::InvalidNumber),
            }
        } else if c == 't' {
            match match_word(s, start, word_true(), 0) {
                Ok(end) => Ok(Lexed { token: Lexeme::Boolean(true), start, end }),
                Err(e) => Err(e),
            }
        } else if c == 'f' {
            match match_word(s, start, word_false(), 0) {
                Ok(end) => Ok(Lexed { token: Lexeme::Boolean(false), start, end }),
                Err(e) => Err(e),
            }
        } else if c == 'n' {
            match match_word(s, start, word_null(), 0) {
                Ok(end) => Ok(Lexed { token: Lexeme::Null, start, end }),
                Err(e) => Err(e),
            }
        } else {
            Err(LexError::UnexpectedCharacter(c))
        }
    }
}

/// The next token from index `i` on, after any whitespace, or the error of
/// that token with the position at which it starts.
#[verifier::opaque]
pub open spec fn lex_at(s: Seq<char>, i: int) -> Result<Lexed, JsonError> {
    let start = skip_whitespace(s, i);
    match token_at(s, start) {
        Ok(lexed) => Ok(lexed),
        Err(e) => Err(lex_error_at(s, e, start)),
    }
}

/// The tokens from index `i` on, after the tokens `acc`, up to the end of the
/// input, which is not among them; or the first error met.
pub open spec fn tokens_at(s: Seq<char>, i: int, acc: Seq<Lexed>) -> Result<Seq<Lexed>, JsonError>
    decreases s.len() - i,
{
    match lex_at(s, i) {
        Err(e) => Err(e),
        Ok(t) => if t.token is EndOfInput {
            Ok(acc)
        } else {
            proof {
                lemma_lex_at(s, i);
            }
            tokens_at(s, t.end, acc.push(t))
        },
    }
}

} // verus!

verus! {

/// `skip_whitespace` stops within the text, passes whitespace only, and
/// stops at the end or at a character that is no whitespace.
pub proof fn lemma_skip_whitespace(s: Seq<char>, i: int)
    requires
        0 <= i <= s.len(),
    ensures
        i <= skip_whitespace(s, i) <= s.len(),
        forall|k: int| i <= k < skip_whitespace(s, i) ==> is_whitespace(#[trigger] s[k]),
        skip_whitespace(s, i) < s.len() ==> !is_whitespace(s[skip_whitespace(s, i)]),
    decreases s.len() - i,
{
    if i < s.len() && is_whitespace(s[i]) {
        lemma_skip_whitespace(s, i + 1);
    }
}

/// `skip_digits` stops within the text, passes digits only, and stops at the
/// end or at a character that is no digit.
pub proof fn lemma_skip_digits(s: Seq<char>, i: int)
    requires
        0 <= i <= s.len(),
    ensures
        i <= skip_digits(s, i) <= s.len(),
        forall|k: int| i <= k < skip_digits(s, i) ==> is_digit(#[trigger] s[k]),
        !digit_at(s, skip_digits(s, i)),
    decreases s.len() - i,
{
    if digit_at(s, i) {
        lemma_skip_digits(s, i + 1);
    }
}

/// A number takes at least one character and ends within the text.
pub proof fn lemma_number_end(s: Seq<char>, i: int)
    requires
        0 <= i <= s.len(),
    ensures
        number_end(s, i) is Some ==> i < number_end(s, i)->0 <= s.len(),
{
    let a = sign_end(s, i);
    if integer_end(s, a) is Some {
        lemma_skip_digits(s, a);
        let b = integer_end(s, a)->0;
        if fraction_end(s, b) is Some {
            if has_char(s, b, '.') {
                lemma_skip_digits(s, b + 1);
            }
            let c = fraction_end(s, b)->0;
            if exponent_end(s, c) is Some && (has_char(s, c, 'e') || has_char(s, c, 'E')) {
                if has_char(s, c + 1, '+') || has_char(s, c + 1, '-') {
                    lemma_skip_digits(s, c + 2);
                } else {
                    lemma_skip_digits(s, c + 1);
                }
            }
        }
    }
}

/// A word that matches from its `k`-th character on lies within the text and
/// agrees with it there.
pub proof fn lemma_match_word(s: Seq<char>, i: int, word: Seq<char>, k: int)
    requires
        0 <= i,
        0 <= k <= word.len(),
    ensures
        match_word(s, i, word, k) is Ok ==> {
            &&& match_word(s, i, word, k) == Ok::<int, LexError>(i + word.len())
            &&& (k < word.len() ==> i + word.len() <= s.len())
            &&& forall|n: int| k <= n < word.len() ==> s[i + n] == #[trigger] word[n]
        },
    decreases word.len() - k,
{
    if k < word.len() && has_char(s, i + k, word[k]) {
        lemma_match_word(s, i, word, k + 1);
    }
}

/// A string that ends does so after its start and within the text.
pub proof fn lemma_scan_string_end(s: Seq<char>, i: int, acc: Seq<char>)
    requires
        0 <= i,
    ensures
        scan_string(s, i, acc) is Ok ==> i < scan_string(s, i, acc)->Ok_0.1 <= s.len(),
    decreases s.len() - i,
{
    if 0 <= i < s.len() && s[i] != '"' {
        if s[i] == '\\' {
            if let Ok((c, j)) = escape_at(s, i + 1) {
                lemma_scan_string_end(s, j, acc.push(c));
            }
        } else {
            lemma_scan_string_end(s, i + 1, acc.push(s[i]));
        }
    }
}

/// A token starts where the whitespace from `i` on ends and lies within the
/// text. It is the end of the input exactly where nothing but whitespace is
/// left; any other token takes at least one character.
pub proof fn lemma_lex_at(s: Seq<char>, i: int)
    ensures
        lex_at(s, i) is Ok ==> {
            let t = lex_at(s, i)->Ok_0;
            &&& t.start == skip_whitespace(s, i)
            &&& t.start <= t.end
            &&& (t.token is EndOfInput <==> !(0 <= t.start < s.len()))
            &&& (t.token is EndOfInput ==> t.end == t.start)
            &&& (t.token !is EndOfInput ==> 0 <= i <= t.start < t.end <= s.len())
            &&& (0 <= i <= s.len() ==> i <= t.start <= t.end <= s.len())
        },
{
    reveal(lex_at);
    let start = skip_whitespace(s, i);
    if 0 <= i <= s.len() {
        lemma_skip_whitespace(s, i);
    }
    if lex_at(s, i) is Ok && 0 <= start < s.len() {
        let c = s[start];
        if c == '"' {
            lemma_scan_string_end(s, start + 1, Seq::empty());
        } else if c == '-' || is_digit(c) {
            lemma_number_end(s, start);
        } else if c == 't' {
            lemma_match_word(s, start, word_true(), 0);
        } else if c == 'f' {
            lemma_match_word(s, start, word_false(), 0);
        } else if c == 'n' {
            lemma_match_word(s, start, word_null(), 0);
        }
    }
}

/// Once the end of the input is reached it is reached again, however often
/// a token is asked for.
pub proof fn lemma_end_of_input_repeats(s: Seq<char>, i: int)
    requires
        0 <= i <= s.len(),
        lex_at(s, i) is Ok,
        lex_at(s, i)->Ok_0.token is EndOfInput,
    ensures
        lex_at(s, lex_at(s, i)->Ok_0.end) == lex_at(s, i),
        lex_at(s, i)->Ok_0.end == s.len(),
{
    reveal(lex_at);
    lemma_skip_whitespace(s, i);
    let end = lex_at(s, i)->Ok_0.end;
    assert(skip_whitespace(s, end) == end);
}

} // verus!
