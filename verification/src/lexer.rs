//! The lexer: classifies the next meaningful unit of input into one token.

use crate::cursor::Cursor;
use crate::error::{ErrorKind, JsonError, LexError};
use crate::lexical::{
    exponent_end, fraction_end, hex4, hex_problem, hex_value, integer_end, is_digit,
    is_hex_digit, is_whitespace, lemma_lex_at, lex_at, match_word, number_end, scan_string,
    scan_escape, scan_unicode, sign_end, simple_escape, skip_digits, skip_whitespace, tokens_at,
    word_false, word_null, word_true, Lexed,
};
use crate::position::{position_at, Position};
use crate::token::{Lexeme, Token, TokenKind};
use vstd::prelude::*;

verus! {

/// `std::string::String::push` appends one character to the end of the
/// string and changes nothing else.
pub assume_specification[ std::string::String::push ](s: &mut std::string::String, c: char)
    ensures
        final(s)@ == old(s)@.push(c),
;

/// `char::from_u32` gives the character with the given scalar value, and
/// `None` for a surrogate or a value above `0x10FFFF`.
pub assume_specification[ char::from_u32 ](i: u32) -> (r: Option<char>)
    ensures
        (i <= 0xD7FF || 0xE000 <= i <= 0x10FFFF) ==> r == Some(i as char),
        !(i <= 0xD7FF || 0xE000 <= i <= 0x10FFFF) ==> r is None,
;

/// Whether `c` is insignificant whitespace.
pub fn whitespace(c: char) -> (r: bool)
    ensures
        r == is_whitespace(c),
{
    c == ' ' || c == '\t' || c == '\n' || c == '\r'
}

/// Whether `c` is a decimal digit.
pub fn digit(c: char) -> (r: bool)
    ensures
        r == is_digit(c),
{
    '0' <= c && c <= '9'
}

/// The value of `c` as a hexadecimal digit, if it is one.
pub fn hex_digit(c: char) -> (r: Option<u32>)
    ensures
        r is Some <==> is_hex_digit(c),
        r is Some ==> r->0 == hex_value(c) && r->0 < 16,
{
    if '0' <= c && c <= '9' {
        Some(c as u32 - '0' as u32)
    } else if 'a' <= c && c <= 'f' {
        Some(c as u32 - 'a' as u32 + 10)
    } else if 'A' <= c && c <= 'F' {
        Some(c as u32 - 'A' as u32 + 10)
    } else {
        None
    }
}

/// The character that the escape letter `c` stands for, if it is one of
/// `" \ / b f n r t`.
pub fn escape_letter(c: char) -> (r: Option<char>)
    ensures
        r == simple_escape(c),
{
    if c == '"' {
        Some('"')
    } else if c == '\\' {
        Some('\\')
    } else if c == '/' {
        Some('/')
    } else if c == 'b' {
        Some('\u{8}')
    } else if c == 'f' {
        Some('\u{c}')
    } else if c == 'n' {
        Some('\n')
    } else if c == 'r' {
        Some('\r')
    } else if c == 't' {
        Some('\t')
    } else {
        None
    }
}

/// Whether a character is next and is whitespace.
fn is_whitespace_next(next: Option<char>) -> (r: bool)
    ensures
        r == (next is Some && is_whitespace(next->0)),
{
    match next {
        Some(c) => whitespace(c),
        None => false,
    }
}

/// Whether a character is next and is a decimal digit.
fn is_digit_next(next: Option<char>) -> (r: bool)
    ensures
        r == (next is Some && is_digit(next->0)),
{
    match next {
        Some(c) => digit(c),
        None => false,
    }
}

/// Whether the character `c` is next.
fn is_char_next(next: Option<char>, c: char) -> (r: bool)
    ensures
        r == (next == Some(c)),
{
    match next {
        Some(d) => d == c,
        None => false,
    }
}

/// The token `token` is the lexed token `lexed` of the text `s`.
pub open spec fn token_is(token: Token, lexed: Lexed, s: Seq<char>) -> bool {
    token.kind@ == lexed.token && token.position == position_at(s, lexed.start)
}

/// The tokens `tokens` are, one by one, the lexed tokens `lexed` of the text
/// `s`.
pub open spec fn tokens_are(tokens: Seq<Token>, lexed: Seq<Lexed>, s: Seq<char>) -> bool {
    &&& tokens.len() == lexed.len()
    &&& forall|k: int| 0 <= k < tokens.len() ==> token_is(#[trigger] tokens[k], lexed[k], s)
}

/// Produces the tokens of a text one at a time.
#[derive(Debug)]
pub struct Lexer {
    cursor: Cursor,
}

impl Lexer {
    /// The whole text that the lexer reads.
    pub closed spec fn text(&self) -> Seq<char> {
        self.cursor.text()
    }

    /// The number of characters consumed so far.
    pub closed spec fn index(&self) -> int {
        self.cursor.index()
    }

    /// The lexer has read the same text as `before` and stands at `end`,
    /// which lies at or after the place of `before`.
    pub open spec fn moved(&self, before: &Lexer, end: int) -> bool {
        &&& self.text() == before.text()
        &&& self.index() == end
        &&& 0 <= before.index() <= end <= self.text().len()
    }

    /// The lexer has read the same text as `before` and has not gone back.
    pub open spec fn went_on(&self, before: &Lexer) -> bool {
        &&& self.text() == before.text()
        &&& 0 <= before.index() <= self.index() <= self.text().len()
    }

    /// A lexer at the start of `input`.
    pub fn new(input: Vec<char>) -> (l: Lexer)
        ensures
            l.text() == input@,
            l.index() == 0,
    {
        Lexer { cursor: Cursor::new(input) }
    }

    /// The offset, line and column that the lexer has reached.
    pub fn position(&self) -> (p: Position)
        ensures
            p == position_at(self.text(), self.index()),
            0 <= self.index() <= self.text().len(),
    {
        self.cursor.position()
    }

    /// Consumes whitespace up to the next character that is none.
    fn skip_whitespace(&mut self)
        ensures
            final(self).moved(old(self), skip_whitespace(old(self).text(), old(self).index())),
    {
        let mut next: Option<char> = self.cursor.peek();
        while is_whitespace_next(next)
            invariant
                self.went_on(old(self)),
                next == self.cursor.next_char(),
                skip_whitespace(self.text(), self.index()) == skip_whitespace(
                    old(self).text(),
                    old(self).index(),
                ),
            decreases self.text().len() - self.index(),
        {
            self.cursor.advance();
            next = self.cursor.peek();
        }
    }

    /// Consumes decimal digits up to the next character that is none, and
    /// appends them to `text`.
    fn take_digits(&mut self, text: &mut String)
        ensures
            final(self).moved(old(self), skip_digits(old(self).text(), old(self).index())),
            final(text)@ == old(text)@ + old(self).text().subrange(
                old(self).index(),
                final(self).index(),
            ),
    {
        let mut next: Option<char> = self.cursor.peek();
        while is_digit_next(next)
            invariant
                self.went_on(old(self)),
                next == self.cursor.next_char(),
                skip_digits(self.text(), self.index()) == skip_digits(
                    old(self).text(),
                    old(self).index(),
                ),
                text@ == old(text)@ + self.text().subrange(old(self).index(), self.index()),
            decreases self.text().len() - self.index(),
        {
            let c: char = next.unwrap();
            self.cursor.advance();
            text.push(c);
            next = self.cursor.peek();
        }
    }

    /// Consumes one character and appends it to `text`.
    fn take_char(&mut self, text: &mut String)
        requires
            old(self).cursor.next_char() is Some,
        ensures
            final(self).moved(old(self), old(self).index() + 1),
            final(text)@ == old(text)@ + old(self).text().subrange(
                old(self).index(),
                old(self).index() + 1,
            ),
    {
        match self.cursor.advance() {
            Some(c) => {
                text.push(c);
                assert(old(text)@.push(c) =~= old(text)@ + old(self).text().subrange(
                    old(self).index(),
                    old(self).index() + 1,
                ));
            },
            None => {},
        }
    }

    /// Consumes an optional minus sign and appends it to `text`.
    fn lex_sign(&mut self, text: &mut String)
        ensures
            final(self).moved(old(self), sign_end(old(self).text(), old(self).index())),
            final(text)@ == old(text)@ + old(self).text().subrange(
                old(self).index(),
                final(self).index(),
            ),
    {
        if is_char_next(self.cursor.peek(), '-') {
            self.take_char(text);
        }
    }

    /// Consumes the integer part of a number and appends it to `text`.
    fn lex_integer(&mut self, text: &mut String) -> (r: Result<(), LexError>)
        ensures
            final(self).went_on(old(self)),
            match integer_end(old(self).text(), old(self).index()) {
                Some(end) => r is Ok && final(self).index() == end && final(text)@ == old(text)@
                    + old(self).text().subrange(old(self).index(), end),
                None => r == Err::<(), LexError>(LexError::InvalidNumber),
            },
    {
        let first: Option<char> = self.cursor.peek();
        if !is_digit_next(first) {
            return Err(LexError::InvalidNumber);
        }
        if is_char_next(first, '0') {
            self.take_char(text);
            if is_digit_next(self.cursor.peek()) {
                return Err(LexError::InvalidNumber);
            }
        } else {
            self.take_digits(text);
        }
        Ok(())
    }

    /// Consumes the fraction of a number, if one follows, and appends it to
    /// `text`.
    fn lex_fraction(&mut self, text: &mut String) -> (r: Result<(), LexError>)
        ensures
            final(self).went_on(old(self)),
            match fraction_end(old(self).text(), old(self).index()) {
                Some(end) => r is Ok && final(self).index() == end && final(text)@ == old(text)@
                    + old(self).text().subrange(old(self).index(), end),
                None => r == Err::<(), LexError>(LexError::InvalidNumber),
            },
    {
        let ghost s = self.text();
        let ghost start = self.index();
        if is_char_next(self.cursor.peek(), '.') {
            self.take_char(text);
            if !is_digit_next(self.cursor.peek()) {
                return Err(LexError::InvalidNumber);
            }
            self.take_digits(text);
            assert(s.subrange(start, start + 1) + s.subrange(start + 1, self.index())
                =~= s.subrange(start, self.index()));
        } else {
            assert(s.subrange(start, start) =~= Seq::<char>::empty());
        }
        Ok(())
    }

    /// Consumes the exponent of a number, if one follows, and appends it to
    /// `text`.
    fn lex_exponent(&mut self, text: &mut String) -> (r: Result<(), LexError>)
        ensures
            final(self).went_on(old(self)),
            match exponent_end(old(self).text(), old(self).index()) {
                Some(end) => r is Ok && final(self).index() == end && final(text)@ == old(text)@
                    + old(self).text().subrange(old(self).index(), end),
                None => r == Err::<(), LexError>(LexError::InvalidNumber),
            },
    {
        let ghost s = self.text();
        let ghost start = self.index();
        let mark: Option<char> = self.cursor.peek();
        if is_char_next(mark, 'e') || is_char_next(mark, 'E') {
            self.take_char(text);
            let sign: Option<char> = self.cursor.peek();
            if is_char_next(sign, '+') || is_char_next(sign, '-') {
                self.take_char(text);
            }
            let ghost digits = self.index();
            assert(text@ =~= old(text)@ + s.subrange(start, digits));
            if !is_digit_next(self.cursor.peek()) {
                return Err(LexError::InvalidNumber);
            }
            self.take_digits(text);
            assert(s.subrange(start, digits) + s.subrange(digits, self.index()) =~= s.subrange(
                start,
                self.index(),
            ));
        } else {
            assert(s.subrange(start, start) =~= Seq::<char>::empty());
        }
        Ok(())
    }

    /// Lexes a number. The token holds the literal as written.
    pub fn lex_number(&mut self) -> (r: Result<TokenKind, LexError>)
        ensures
            final(self).went_on(old(self)),
            match number_end(old(self).text(), old(self).index()) {
                Some(end) => r is Ok && r->Ok_0@ == Lexeme::Number(
                    old(self).text().subrange(old(self).index(), end),
                ) && final(self).index() == end,
                None => r == Err::<TokenKind, LexError>(LexError::InvalidNumber),
            },
    {
        let ghost s = self.text();
        let ghost start = self.index();
        let mut text = String::new();
        self.lex_sign(&mut text);
        let ghost a = self.index();
        match self.lex_integer(&mut text) {
            Ok(()) => {},
            Err(e) => {
                return Err(e);
            },
        }
        let ghost b = self.index();
        match self.lex_fraction(&mut text) {
            Ok(()) => {},
            Err(e) => {
                return Err(e);
            },
        }
        let ghost c = self.index();
        match self.lex_exponent(&mut text) {
            Ok(()) => {},
            Err(e) => {
                return Err(e);
            },
        }
        assert(text@ =~= s.subrange(start, self.index())) by {
            assert(text@ == Seq::<char>::empty() + s.subrange(start, a) + s.subrange(a, b)
                + s.subrange(b, c) + s.subrange(c, self.index()));
        }
        Ok(TokenKind::Number(text))
    }

    /// Matches the characters of `constant` against the input, consuming
    /// them. Fails at the first character that departs from the word.
    pub fn lex_constant(&mut self, constant: &str) -> (r: Result<(), LexError>)
        ensures
            final(self).went_on(old(self)),
            match match_word(old(self).text(), old(self).index(), constant@, 0) {
                Ok(end) => r is Ok && final(self).index() == end,
                Err(e) => r == Err::<(), LexError>(e),
            },
    {
        let ghost s = self.text();
        let ghost start = self.index();
        proof {
            use_type_invariant(&self.cursor);
            self.cursor.lemma_index_in_text();
        }
        for c in it: constant.chars()
            invariant
                self.went_on(old(self)),
                s == old(self).text(),
                start == old(self).index(),
                self.index() == start + it.index(),
                it.seq() == constant@,
                match_word(s, start, constant@, 0) == match_word(
                    s,
                    start,
                    constant@,
                    it.index() as int,
                ),
        {
            match self.cursor.advance() {
                Some(found) => {
                    if found != c {
                        return Err(LexError::UnknownLiteral(Some(found)));
                    }
                },
                None => {
                    return Err(LexError::UnknownLiteral(None));
                },
            }
        }
        Ok(())
    }

    /// Lexes the word `true`.
    fn lex_true(&mut self) -> (r: Result<TokenKind, LexError>)
        ensures
            final(self).went_on(old(self)),
            match match_word(old(self).text(), old(self).index(), word_true(), 0) {
                Ok(end) => r is Ok && r->Ok_0@ == Lexeme::Boolean(true) && final(self).index()
                    == end,
                Err(e) => r == Err::<TokenKind, LexError>(e),
            },
    {
        proof {
            reveal_strlit("true");
            assert("true"@ =~= word_true());
        }
        match self.lex_constant("true") {
            Ok(()) => Ok(TokenKind::Boolean(true)),
            Err(e) => Err(e),
        }
    }

    /// Lexes the word `false`.
    fn lex_false(&mut self) -> (r: Result<TokenKind, LexError>)
        ensures
            final(self).went_on(old(self)),
            match match_word(old(self).text(), old(self).index(), word_false(), 0) {
                Ok(end) => r is Ok && r->Ok_0@ == Lexeme::Boolean(false) && final(self).index()
                    == end,
                Err(e) => r == Err::<TokenKind, LexError>(e),
            },
    {
        proof {
            reveal_strlit("false");
            assert("false"@ =~= word_false());
        }
        match self.lex_constant("false") {
            Ok(()) => Ok(TokenKind::Boolean(false)),
            Err(e) => Err(e),
        }
    }

    /// Lexes the word `null`.
    fn lex_null(&mut self) -> (r: Result<TokenKind, LexError>)
        ensures
            final(self).went_on(old(self)),
            match match_word(old(self).text(), old(self).index(), word_null(), 0) {
                Ok(end) => r is Ok && r->Ok_0@ == Lexeme::Null && final(self).index() == end,
                Err(e) => r == Err::<TokenKind, LexError>(e),
            },
    {
        proof {
            reveal_strlit("null");
            assert("null"@ =~= word_null());
        }
        match self.lex_constant("null") {
            Ok(()) => Ok(TokenKind::Null),
            Err(e) => Err(e),
        }
    }

    /// Lexes an opening or closing brace.
    fn lex_object(&mut self) -> (r: TokenKind)
        requires
            old(self).cursor.next_char() == Some('{') || old(self).cursor.next_char() == Some('}'),
        ensures
            final(self).moved(old(self), old(self).index() + 1),
            r@ == if old(self).text()[old(self).index()] == '{' {
                Lexeme::BraceOpen
            } else {
                Lexeme::BraceClose
            },
    {
        match self.cursor.advance() {
            Some('{') => TokenKind::BraceOpen,
            _ => TokenKind::BraceClose,
        }
    }

    /// Lexes an opening or closing bracket.
    fn lex_array(&mut self) -> (r: TokenKind)
        requires
            old(self).cursor.next_char() == Some('[') || old(self).cursor.next_char() == Some(']'),
        ensures
            final(self).moved(old(self), old(self).index() + 1),
            r@ == if old(self).text()[old(self).index()] == '[' {
                Lexeme::BracketOpen
            } else {
                Lexeme::BracketClose
            },
    {
        match self.cursor.advance() {
            Some('[') => TokenKind::BracketOpen,
            _ => TokenKind::BracketClose,
        }
    }

    /// Lexes a colon or a comma.
    fn lex_delimiters(&mut self) -> (r: TokenKind)
        requires
            old(self).cursor.next_char() == Some(':') || old(self).cursor.next_char() == Some(','),
        ensures
            final(self).moved(old(self), old(self).index() + 1),
            r@ == if old(self).text()[old(self).index()] == ':' {
                Lexeme::Colon
            } else {
                Lexeme::Comma
            },
    {
        match self.cursor.advance() {
            Some(':') => TokenKind::Colon,
            _ => TokenKind::Comma,
        }
    }

    /// Reads one hexadecimal digit of a `\u` escape.
    fn read_hex_digit(&mut self) -> (r: Result<u32, LexError>)
        ensures
            final(self).went_on(old(self)),
            match hex_problem(old(self).text(), old(self).index()) {
                Some(e) => r == Err::<u32, LexError>(e),
                None => r == Ok::<u32, LexError>(
                    hex_value(old(self).text()[old(self).index()]) as u32,
                ) && r->Ok_0 < 16 && final(self).index() == old(self).index() + 1,
            },
    {
        match self.cursor.advance() {
            None => Err(LexError::UnterminatedString),
            Some(c) => match hex_digit(c) {
                Some(v) => Ok(v),
                None => Err(LexError::InvalidEscape),
            },
        }
    }

    /// Reads the four hexadecimal digits of a `\u` escape.
    fn read_hex4(&mut self) -> (r: Result<u32, LexError>)
        ensures
            final(self).went_on(old(self)),
            match hex4(old(self).text(), old(self).index()) {
                Err(e) => r == Err::<u32, LexError>(e),
                Ok(u) => r == Ok::<u32, LexError>(u as u32) && 0 <= u < 0x10000 && final(self).index() == old(self).index() + 4,
            },
    {
        let a: u32 = match self.read_hex_digit() {
            Ok(v) => v,
            Err(e) => {
                return Err(e);
            },
        };
        let b: u32 = match self.read_hex_digit() {
            Ok(v) => v,
            Err(e) => {
                return Err(e);
            },
        };
        let c: u32 = match self.read_hex_digit() {
            Ok(v) => v,
            Err(e) => {
                return Err(e);
            },
        };
        let d: u32 = match self.read_hex_digit() {
            Ok(v) => v,
            Err(e) => {
                return Err(e);
            },
        };
        Ok(4096 * a + 256 * b + 16 * c + d)
    }

    /// Decodes the rest of a `\u` escape, after the `u`, onto `text`. A high
    /// surrogate waits for the escape of a low one directly after it; alone,
    /// it becomes the replacement character and what follows is decoded for
    /// itself.
    fn lex_unicode(&mut self, text: &mut String) -> (r: Result<(), LexError>)
        ensures
            final(self).went_on(old(self)),
            match hex4(old(self).text(), old(self).index()) {
                Err(e) => r == Err::<(), LexError>(e),
                Ok(u) => match r {
                    Ok(()) => old(self).index() < final(self).index() && scan_unicode(
                        old(self).text(),
                        old(self).index() + 4,
                        u,
                        old(text)@,
                    ) == scan_string(old(self).text(), final(self).index(), final(text)@),
                    Err(e) => scan_unicode(
                        old(self).text(),
                        old(self).index() + 4,
                        u,
                        old(text)@,
                    ) == Err::<(Seq<char>, int), LexError>(e),
                },
            },
    {
        let ghost s = self.text();
        let ghost goal = match hex4(s, self.index()) {
            Ok(u) => scan_unicode(s, self.index() + 4, u, text@),
            Err(e) => Err(e),
        };
        let mut unit: u32 = match self.read_hex4() {
            Ok(v) => v,
            Err(e) => {
                return Err(e);
            },
        };
        loop
            invariant
                self.went_on(old(self)),
                old(self).index() < self.index(),
                unit < 0x10000,
                goal == scan_unicode(s, self.index(), unit as int, text@),
                s == old(self).text(),
                hex4(s, old(self).index()) is Ok,
                goal == scan_unicode(
                    s,
                    old(self).index() + 4,
                    hex4(s, old(self).index())->Ok_0,
                    old(text)@,
                ),
            decreases s.len() - self.index(),
        {
            if !(0xD800 <= unit && unit <= 0xDBFF) {
                let c: char = if 0xDC00 <= unit && unit <= 0xDFFF {
                    '\u{FFFD}'
                } else {
                    match char::from_u32(unit) {
                        Some(c) => c,
                        None => '\u{FFFD}',
                    }
                };
                text.push(c);
                return Ok(());
            }
            if !is_char_next(self.cursor.peek(), '\\') {
                text.push('\u{FFFD}');
                return Ok(());
            }
            self.cursor.advance();
            if !is_char_next(self.cursor.peek(), 'u') {
                text.push('\u{FFFD}');
                return match self.cursor.advance() {
                    None => Err(LexError::UnterminatedString),
                    Some(c) => match escape_letter(c) {
                        Some(d) => {
                            text.push(d);
                            Ok(())
                        },
                        None => Err(LexError::InvalidEscape),
                    },
                };
            }
            self.cursor.advance();
            let low: u32 = match self.read_hex4() {
                Ok(v) => v,
                Err(e) => {
                    return Err(e);
                },
            };
            if 0xDC00 <= low && low <= 0xDFFF {
                let code: u32 = 0x10000 + (unit - 0xD800) * 0x400 + (low - 0xDC00);
                let c: char = match char::from_u32(code) {
                    Some(c) => c,
                    None => '\u{FFFD}',
                };
                text.push(c);
                return Ok(());
            }
            text.push('\u{FFFD}');
            unit = low;
        }
    }

    /// Decodes the escape after a backslash onto `text`.
    fn lex_escape(&mut self, text: &mut String) -> (r: Result<(), LexError>)
        ensures
            final(self).went_on(old(self)),
            match r {
                Ok(()) => old(self).index() < final(self).index() && scan_escape(
                    old(self).text(),
                    old(self).index(),
                    old(text)@,
                ) == scan_string(old(self).text(), final(self).index(), final(text)@),
                Err(e) => scan_escape(old(self).text(), old(self).index(), old(text)@) == Err::<
                    (Seq<char>, int),
                    LexError,
                >(e),
            },
    {
        match self.cursor.advance() {
            None => Err(LexError::UnterminatedString),
            Some(c) => {
                if c == 'u' {
                    self.lex_unicode(text)
                } else {
                    match escape_letter(c) {
                        Some(d) => {
                            text.push(d);
                            Ok(())
                        },
                        None => Err(LexError::InvalidEscape),
                    }
                }
            },
        }
    }

    /// Lexes a string from its opening quote to its closing quote, decoding
    /// the escapes.
    fn lex_string(&mut self) -> (r: Result<TokenKind, LexError>)
        requires
            old(self).cursor.next_char() == Some('"'),
        ensures
            final(self).went_on(old(self)),
            match scan_string(old(self).text(), old(self).index() + 1, Seq::empty()) {
                Ok((text, end)) => r is Ok && r->Ok_0@ == Lexeme::String(text) && final(self).index() == end,
                Err(e) => r == Err::<TokenKind, LexError>(e),
            },
    {
        let ghost s = self.text();
        let ghost goal = scan_string(s, self.index() + 1, Seq::empty());
        self.cursor.advance();
        let mut text = String::new();
        loop
            invariant
                self.went_on(old(self)),
                s == self.text(),
                goal == scan_string(s, self.index(), text@),
                goal == scan_string(old(self).text(), old(self).index() + 1, Seq::empty()),
            decreases s.len() - self.index(),
        {
            match self.cursor.advance() {
                None => {
                    return Err(LexError::UnterminatedString);
                },
                Some(c) => {
                    if c == '"' {
                        return Ok(TokenKind::String(text));
                    } else if c == '\\' {
                        match self.lex_escape(&mut text) {
                            Ok(()) => {},
                            Err(e) => {
                                return Err(e);
                            },
                        }
                    } else {
                        text.push(c);
                    }
                },
            }
        }
    }

    /// The next token of the input, after any whitespace. At the end of the
    /// input it is `EndOfInput`, however often it is asked for.
    pub fn next_token(&mut self) -> (r: Result<Token, JsonError>)
        ensures
            final(self).went_on(old(self)),
            match lex_at(old(self).text(), old(self).index()) {
                Ok(lexed) => r is Ok && token_is(r->Ok_0, lexed, old(self).text()) && final(self).index() == lexed.end,
                Err(e) => r == Err::<Token, JsonError>(e),
            },
    {
        proof {
            reveal(lex_at);
        }
        self.skip_whitespace();
        let position: Position = self.cursor.position();
        let kind: Result<TokenKind, LexError> = match self.cursor.peek() {
            None => Ok(TokenKind::EndOfInput),
            Some(c) => {
                if c == '{' || c == '}' {
                    Ok(self.lex_object())
                } else if c == '[' || c == ']' {
                    Ok(self.lex_array())
                } else if c == ':' || c == ',' {
                    Ok(self.lex_delimiters())
                } else if c == '"' {
                    self.lex_string()
                } else if c == '-' || digit(c) {
                    self.lex_number()
                } else if c == 't' {
                    self.lex_true()
                } else if c == 'f' {
                    self.lex_false()
                } else if c == 'n' {
                    self.lex_null()
                } else {
                    Err(LexError::UnexpectedCharacter(c))
                }
            },
        };
        match kind {
            Ok(kind) => Ok(Token { kind, position }),
            Err(e) => Err(JsonError { kind: ErrorKind::Lex(e), position }),
        }
    }

    /// All the tokens that are left, up to the end of the input, which is
    /// not among them; or the error of the first malformed token.
    pub fn lex(&mut self) -> (r: Result<Vec<Token>, JsonError>)
        ensures
            final(self).went_on(old(self)),
            match tokens_at(old(self).text(), old(self).index(), Seq::empty()) {
                Ok(lexed) => r is Ok && tokens_are(r->Ok_0@, lexed, old(self).text()),
                Err(e) => r == Err::<Vec<Token>, JsonError>(e),
            },
    {
        let ghost s = self.text();
        let ghost mut lexed: Seq<Lexed> = Seq::empty();
        let mut tokens: Vec<Token> = Vec::new();
        proof {
            use_type_invariant(&self.cursor);
            self.cursor.lemma_index_in_text();
        }
        loop
            invariant
                self.went_on(old(self)),
                s == old(self).text(),
                tokens_are(tokens@, lexed, s),
                tokens_at(s, old(self).index(), Seq::empty()) == tokens_at(s, self.index(), lexed),
            decreases s.len() - self.index(),
        {
            let ghost from = self.index();
            let token: Token = match self.next_token() {
                Ok(t) => t,
                Err(e) => {
                    return Err(e);
                },
            };
            proof {
                lemma_lex_at(s, from);
            }
            if let TokenKind::EndOfInput = token.kind {
                return Ok(tokens);
            }
            proof {
                lexed = lexed.push(lex_at(s, from)->Ok_0);
            }
            tokens.push(token);
        }
    }
}

} // verus!
