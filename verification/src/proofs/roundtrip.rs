//! Round trip: the encoding of a value is parsed back to that value, so what
//! is parsed from any text is parsed again from its encoding.

use crate::encode::{
    encoding, encoding_of_items, encoding_of_member, encoding_of_members, escape_char,
    escape_text, hex_char, is_control, quote,
};
use crate::error::{JsonError, LexError};
use crate::lexical::{
    escape_at, hex4, hex_value, is_hex_digit, is_number_text, is_whitespace, lemma_number_end,
    lex_at, match_word, scan_string, skip_whitespace, unicode_escape, word_false, word_null,
    word_true, Lexed,
};
use crate::proofs::local::{
    holds_at, lemma_holds_char, lemma_holds_itself, lemma_holds_parts, lemma_holds_room,
    lemma_number_local,
};
use crate::proofs::nesting::lemma_parsed_depth_within_limit;
use crate::proofs::wellformed::lemma_parsed_well_formed;
use crate::proofs::whitespace::{lemma_same_tokens_same_value, same_tokens};
use crate::syntax::{
    following, items_at, lemma_items_start, lemma_member_at, lemma_members_start, lemma_value_at,
    member_at, members_at, parse_text, value_at, Following,
};
use crate::token::Lexeme;
use crate::value::{lemma_merged_well_formed, merged, merged_members, put_member, Json, Member};
use vstd::prelude::*;

verus! {

/// The text ends at `j`, or what stands there can follow a value: a comma, a
/// closing bracket or brace, a colon or whitespace.
pub open spec fn separated(s: Seq<char>, j: int) -> bool {
    !(0 <= j < s.len()) || s[j] == ',' || s[j] == ']' || s[j] == '}' || s[j] == ':'
        || is_whitespace(s[j])
}

/// A word that the text holds at `i` is matched there.
proof fn lemma_word_read_back(s: Seq<char>, i: int, word: Seq<char>, k: int)
    requires
        holds_at(s, i, word),
        0 <= k <= word.len(),
    ensures
        match_word(s, i, word, k) == Ok::<int, LexError>(i + word.len()),
    decreases word.len() - k,
{
    if k < word.len() {
        lemma_holds_char(s, i, word, k);
        lemma_word_read_back(s, i, word, k + 1);
    }
}

/// The hexadecimal digit of a value below 16 has that value.
proof fn lemma_hex_char(d: int)
    requires
        0 <= d < 16,
    ensures
        is_hex_digit(hex_char(d)),
        hex_value(hex_char(d)) == d,
{
}

/// Where the text holds what stands for `c`, the scan of a string decodes
/// `c` and goes on after it.
proof fn lemma_escape_read_back(s: Seq<char>, i: int, c: char, acc: Seq<char>)
    requires
        holds_at(s, i, escape_char(c)),
    ensures
        scan_string(s, i, acc) == scan_string(s, i + escape_char(c).len(), acc.push(c)),
{
    let e = escape_char(c);
    lemma_holds_char(s, i, e, 0);
    if c == '"' || c == '\\' || c == '\n' || c == '\r' || c == '\t' || c == '\u{8}' || c
        == '\u{c}' {
        lemma_holds_char(s, i, e, 1);
    } else if is_control(c) {
        lemma_holds_char(s, i, e, 1);
        lemma_holds_char(s, i, e, 2);
        lemma_holds_char(s, i, e, 3);
        lemma_holds_char(s, i, e, 4);
        lemma_holds_char(s, i, e, 5);
        let high = c as int / 16;
        let low = c as int % 16;
        lemma_hex_char(high);
        lemma_hex_char(low);
        lemma_hex_char(0);
        assert(hex_char(0) == '0');
        assert(hex4(s, i + 2) == Ok::<int, LexError>(c as int));
        assert(unicode_escape(s, i + 6, c as int) == (c, i + 6));
        assert(escape_at(s, i + 1) == Ok::<(char, int), LexError>((c, i + 6)));
    }
}

/// Where the text holds the escaped form of `t` and a quote after it, the
/// scan of a string decodes `t` and ends after the quote.
pub proof fn lemma_text_read_back(s: Seq<char>, i: int, t: Seq<char>, acc: Seq<char>)
    requires
        holds_at(s, i, escape_text(t) + seq!['"']),
    ensures
        scan_string(s, i, acc) == Ok::<(Seq<char>, int), LexError>(
            (acc + t, i + escape_text(t).len() + 1),
        ),
    decreases t.len(),
{
    if t.len() == 0 {
        lemma_holds_char(s, i, escape_text(t) + seq!['"'], 0);
        assert(acc + t =~= acc);
    } else {
        let c = t[0];
        let rest = t.drop_first();
        let tail = escape_text(rest) + seq!['"'];
        assert(escape_text(t) + seq!['"'] =~= escape_char(c) + tail);
        lemma_holds_parts(s, i, escape_char(c), tail);
        lemma_escape_read_back(s, i, c, acc);
        lemma_text_read_back(s, i + escape_char(c).len(), rest, acc.push(c));
        assert(acc.push(c) + rest =~= acc + t);
    }
}

/// Where the text holds the string literal of `t`, the token read there is
/// the string `t`.
pub proof fn lemma_quote_read_back(s: Seq<char>, i: int, t: Seq<char>)
    requires
        holds_at(s, i, quote(t)),
    ensures
        lex_at(s, i) == Ok::<Lexed, JsonError>(
            Lexed { token: Lexeme::String(t), start: i, end: i + quote(t).len() },
        ),
{
    reveal(lex_at);
    assert(quote(t) =~= seq!['"'] + (escape_text(t) + seq!['"']));
    lemma_holds_parts(s, i, seq!['"'], escape_text(t) + seq!['"']);
    lemma_holds_char(s, i, seq!['"'], 0);
    lemma_text_read_back(s, i + 1, t, Seq::empty());
    assert(Seq::<char>::empty() + t =~= t);
    assert(skip_whitespace(s, i) == i);
}

/// Where the text holds a word, the token read there is the one that the
/// word stands for.
proof fn lemma_word_token(s: Seq<char>, i: int, v: Json)
    requires
        v is Null || v is Boolean,
        holds_at(s, i, encoding(v)),
    ensures
        lex_at(s, i) == Ok::<Lexed, JsonError>(
            Lexed {
                token: if v is Null {
                    Lexeme::Null
                } else {
                    Lexeme::Boolean(v->Boolean_0)
                },
                start: i,
                end: i + encoding(v).len(),
            },
        ),
{
    reveal(lex_at);
    lemma_holds_char(s, i, encoding(v), 0);
    assert(skip_whitespace(s, i) == i);
    match v {
        Json::Boolean(b) => {
            if b {
                lemma_word_read_back(s, i, word_true(), 0);
            } else {
                lemma_word_read_back(s, i, word_false(), 0);
            }
        },
        _ => {
            lemma_word_read_back(s, i, word_null(), 0);
        },
    }
}

/// Where the text holds a number of the grammar, and what follows can follow
/// a value, the token read there is that number.
proof fn lemma_number_read_back(s: Seq<char>, i: int, text: Seq<char>)
    requires
        holds_at(s, i, text),
        is_number_text(text),
        separated(s, i + text.len()),
    ensures
        lex_at(s, i) == Ok::<Lexed, JsonError>(
            Lexed { token: Lexeme::Number(text), start: i, end: i + text.len() },
        ),
{
    reveal(lex_at);
    lemma_number_end(text, 0);
    lemma_holds_char(s, i, text, 0);
    lemma_holds_room(s, i, text);
    lemma_number_local(text, 0, s, i, text.len() as int);
    assert(skip_whitespace(s, i) == i);
}

/// Where one of `[ ] { } : ,` stands, the token read there is that
/// character's.
proof fn lemma_mark_token(s: Seq<char>, i: int)
    requires
        0 <= i < s.len(),
    ensures
        s[i] == '[' ==> lex_at(s, i) == Ok::<Lexed, JsonError>(
            Lexed { token: Lexeme::BracketOpen, start: i, end: i + 1 },
        ),
        s[i] == ']' ==> lex_at(s, i) == Ok::<Lexed, JsonError>(
            Lexed { token: Lexeme::BracketClose, start: i, end: i + 1 },
        ),
        s[i] == '{' ==> lex_at(s, i) == Ok::<Lexed, JsonError>(
            Lexed { token: Lexeme::BraceOpen, start: i, end: i + 1 },
        ),
        s[i] == '}' ==> lex_at(s, i) == Ok::<Lexed, JsonError>(
            Lexed { token: Lexeme::BraceClose, start: i, end: i + 1 },
        ),
        s[i] == ':' ==> lex_at(s, i) == Ok::<Lexed, JsonError>(
            Lexed { token: Lexeme::Colon, start: i, end: i + 1 },
        ),
        s[i] == ',' ==> lex_at(s, i) == Ok::<Lexed, JsonError>(
            Lexed { token: Lexeme::Comma, start: i, end: i + 1 },
        ),
{
    reveal(lex_at);
    if s[i] == '[' || s[i] == ']' || s[i] == '{' || s[i] == '}' || s[i] == ':' || s[i] == ',' {
        assert(skip_whitespace(s, i) == i);
    }
}

/// Where the text holds `e` and the one character `c` after it, `c` stands
/// after `e`.
proof fn lemma_holds_mark(s: Seq<char>, i: int, e: Seq<char>, c: char, tail: Seq<char>)
    requires
        holds_at(s, i, e + (seq![c] + tail)),
    ensures
        holds_at(s, i, e),
        0 <= i + e.len() < s.len(),
        s[i + e.len()] == c,
        holds_at(s, i + e.len() + 1, tail),
{
    lemma_holds_parts(s, i, e, seq![c] + tail);
    lemma_holds_parts(s, i + e.len(), seq![c], tail);
    lemma_holds_char(s, i + e.len(), seq![c], 0);
}

/// Where the text holds the encoding of a tree that nests within the limit
/// and whose numbers are numbers of the grammar, and what follows can follow
/// a value, the value read there is the merged value of the tree, and it
/// ends where the encoding ends.
pub proof fn lemma_value_read_back(s: Seq<char>, i: int, v: Json, depth: nat, max: nat)
    requires
        holds_at(s, i, encoding(v)),
        separated(s, i + encoding(v).len()),
        v.numbers_well_formed(),
        depth <= max,
        v.depth_within((max - depth) as nat),
    ensures
        value_at(s, i, depth, max) == Ok::<(Json, int), JsonError>(
            (merged(v), i + encoding(v).len()),
        ),
    decreases v, 0nat,
{
    let e = encoding(v);
    match v {
        Json::Null => {
            lemma_word_token(s, i, v);
        },
        Json::Boolean(b) => {
            lemma_word_token(s, i, v);
        },
        Json::Number(text) => {
            lemma_number_read_back(s, i, text);
        },
        Json::String(text) => {
            lemma_quote_read_back(s, i, text);
        },
        Json::Array(items) => {
            lemma_array_read_back(s, i, items, depth, max);
        },
        Json::Object(members) => {
            lemma_object_read_back(s, i, members, depth, max);
        },
    }
}

/// Where the text holds the encoding of an array, the value read there is
/// that array, merged.
proof fn lemma_array_read_back(s: Seq<char>, i: int, items: Seq<Json>, depth: nat, max: nat)
    requires
        holds_at(s, i, encoding(Json::Array(items))),
        Json::Array(items).numbers_well_formed(),
        depth <= max,
        Json::Array(items).depth_within((max - depth) as nat),
    ensures
        value_at(s, i, depth, max) == Ok::<(Json, int), JsonError>(
            (merged(Json::Array(items)), i + encoding(Json::Array(items)).len()),
        ),
    decreases items, items.len() + 1,
{
    let inner = encoding_of_items(items, 0);
    assert(encoding(Json::Array(items)) =~= Seq::<char>::empty() + (seq!['['] + (inner + seq![
        ']',
    ])));
    lemma_holds_mark(s, i, Seq::empty(), '[', inner + seq![']']);
    lemma_mark_token(s, i);
    if items.len() == 0 {
        assert(inner + seq![']'] =~= Seq::<char>::empty() + (seq![']'] + Seq::empty()));
        lemma_holds_mark(s, i + 1, Seq::empty(), ']', Seq::empty());
        lemma_mark_token(s, i + 1);
        assert(merged_items(items) =~= Seq::<Json>::empty());
    } else {
        lemma_items_read_back(s, i + 1, items, 0, depth + 1, max);
        assert(merged_items(items).take(0) =~= Seq::<Json>::empty());
        lemma_items_start(s, i + 1, Seq::empty(), depth + 1, max);
    }
}

/// Where the text holds the encoding of an object, the value read there is
/// that object, merged.
proof fn lemma_object_read_back(s: Seq<char>, i: int, members: Seq<Member>, depth: nat, max: nat)
    requires
        holds_at(s, i, encoding(Json::Object(members))),
        Json::Object(members).numbers_well_formed(),
        depth <= max,
        Json::Object(members).depth_within((max - depth) as nat),
    ensures
        value_at(s, i, depth, max) == Ok::<(Json, int), JsonError>(
            (merged(Json::Object(members)), i + encoding(Json::Object(members)).len()),
        ),
    decreases members, members.len() + 1,
{
    let inner = encoding_of_members(members, 0);
    assert(encoding(Json::Object(members)) =~= Seq::<char>::empty() + (seq!['{'] + (inner + seq![
        '}',
    ])));
    lemma_holds_mark(s, i, Seq::empty(), '{', inner + seq!['}']);
    lemma_mark_token(s, i);
    if members.len() == 0 {
        assert(inner + seq!['}'] =~= Seq::<char>::empty() + (seq!['}'] + Seq::empty()));
        lemma_holds_mark(s, i + 1, Seq::empty(), '}', Seq::empty());
        lemma_mark_token(s, i + 1);
        assert(merged_members(Seq::empty(), members, 0) == Seq::<Member>::empty());
    } else {
        lemma_members_read_back(s, i + 1, members, 0, Seq::empty(), depth + 1, max);
        lemma_members_start(s, i + 1, Seq::empty(), depth + 1, max);
    }
}

/// What follows an item is the closing token, where that stands there.
proof fn lemma_following_closed(s: Seq<char>, j: int, close: Lexeme)
    requires
        0 <= j < s.len(),
        close is BracketClose && s[j] == ']' || close is BraceClose && s[j] == '}',
    ensures
        following(s, j, close) == Ok::<Following, JsonError>(Following::Closed { end: j + 1 }),
{
    lemma_mark_token(s, j);
}

/// What follows an item is another one, where a comma stands there and a
/// token after it that does not close.
proof fn lemma_following_more(s: Seq<char>, j: int, close: Lexeme)
    requires
        0 <= j < s.len(),
        s[j] == ',',
        close is BracketClose || close is BraceClose,
        lex_at(s, j + 1) is Ok,
        lex_at(s, j + 1)->Ok_0.token != close,
    ensures
        following(s, j, close) == Ok::<Following, JsonError>(Following::More { from: j + 1 }),
{
    lemma_mark_token(s, j);
}

/// Where the text holds the encodings of the items from the `from`-th on
/// and a closing bracket, the rest of the array is read as those items after
/// the ones before them.
proof fn lemma_items_read_back(
    s: Seq<char>,
    i: int,
    items: Seq<Json>,
    from: nat,
    depth: nat,
    max: nat,
)
    requires
        from < items.len(),
        holds_at(s, i, encoding_of_items(items, from) + seq![']']),
        1 <= depth <= max,
        forall|k: int| 0 <= k < items.len() ==> (#[trigger] items[k]).numbers_well_formed(),
        forall|k: int|
            0 <= k < items.len() ==> (#[trigger] items[k]).depth_within((max - depth) as nat),
    ensures
        items_at(s, i, merged_items(items).take(from as int), depth, max) == Ok::<
            (Json, int),
            JsonError,
        >((Json::Array(merged_items(items)), i + encoding_of_items(items, from).len() + 1)),
    decreases items, items.len() - from,
{
    let item = items[from as int];
    let e = encoding(item);
    let j = i + e.len();
    let all = merged_items(items);
    let before = all.take(from as int);
    let close = Lexeme::BracketClose;
    assert(item.numbers_well_formed() && item.depth_within((max - depth) as nat));
    assert(all[from as int] == merged(item));
    if from + 1 == items.len() {
        assert(holds_at(s, i, e) && 0 <= j < s.len() && s[j] == ']') by {
            assert(encoding_of_items(items, from) + seq![']'] =~= e + (seq![']'] + Seq::empty()));
            lemma_holds_mark(s, i, e, ']', Seq::empty());
        }
        assert(value_at(s, i, depth, max) == Ok::<(Json, int), JsonError>((merged(item), j)) && j
            > i) by {
            lemma_value_read_back(s, i, item, depth, max);
            lemma_value_at(s, i, depth, max);
        }
        assert(following(s, j, close) == Ok::<Following, JsonError>(
            Following::Closed { end: j + 1 },
        )) by {
            lemma_following_closed(s, j, close);
        }
        assert(before.push(merged(item)) =~= all);
    } else {
        let rest = encoding_of_items(items, from + 1);
        let next = all.take(from as int + 1);
        assert(encoding_of_items(items, from) == e + seq![','] + rest);
        assert(holds_at(s, i, e) && 0 <= j < s.len() && s[j] == ',' && holds_at(
            s,
            j + 1,
            rest + seq![']'],
        )) by {
            assert(e + seq![','] + rest + seq![']'] =~= e + (seq![','] + (rest + seq![']'])));
            lemma_holds_mark(s, i, e, ',', rest + seq![']']);
        }
        assert(value_at(s, i, depth, max) == Ok::<(Json, int), JsonError>((merged(item), j)) && j
            > i) by {
            lemma_value_read_back(s, i, item, depth, max);
            lemma_value_at(s, i, depth, max);
        }
        assert(items_at(s, j + 1, next, depth, max) == Ok::<(Json, int), JsonError>(
            (Json::Array(all), j + 1 + rest.len() + 1),
        )) by {
            lemma_items_read_back(s, j + 1, items, from + 1, depth, max);
        }
        assert(following(s, j, close) == Ok::<Following, JsonError>(
            Following::More { from: j + 1 },
        )) by {
            lemma_items_start(s, j + 1, next, depth, max);
            lemma_following_more(s, j, close);
        }
        assert(before.push(merged(item)) =~= next);
    }
}

/// Where the text holds the encoding of a member, and what follows can
/// follow a value, the member read there is that member, its value merged.
proof fn lemma_member_read_back(s: Seq<char>, i: int, m: Member, depth: nat, max: nat)
    requires
        holds_at(s, i, encoding_of_member(m)),
        separated(s, i + encoding_of_member(m).len()),
        m.value.numbers_well_formed(),
        depth <= max,
        m.value.depth_within((max - depth) as nat),
    ensures
        member_at(s, i, depth, max) == Ok::<(Member, int), JsonError>(
            (Member { key: m.key, value: merged(m.value) }, i + encoding_of_member(m).len()),
        ),
    decreases m, 1nat,
{
    let key_end = i + quote(m.key).len();
    assert(encoding_of_member(m) =~= quote(m.key) + (seq![':'] + encoding(m.value)));
    lemma_holds_mark(s, i, quote(m.key), ':', encoding(m.value));
    lemma_quote_read_back(s, i, m.key);
    lemma_mark_token(s, key_end);
    lemma_value_read_back(s, key_end + 1, m.value, depth, max);
}

/// The members of an object are read one at a time: after a member is read
/// and given to the ones before it, what follows it closes the object or
/// leads to the next member.
proof fn lemma_members_step(
    s: Seq<char>,
    i: int,
    acc: Seq<Member>,
    read: Member,
    j: int,
    depth: nat,
    max: nat,
)
    requires
        member_at(s, i, depth, max) == Ok::<(Member, int), JsonError>((read, j)),
        j > i,
    ensures
        following(s, j, Lexeme::BraceClose) matches Ok(Following::Closed { end }) ==> members_at(
            s,
            i,
            acc,
            depth,
            max,
        ) == Ok::<(Json, int), JsonError>(
            (Json::Object(put_member(acc, read.key, read.value)), end),
        ),
        following(s, j, Lexeme::BraceClose) matches Ok(Following::More { from }) ==> members_at(
            s,
            i,
            acc,
            depth,
            max,
        ) == members_at(s, from, put_member(acc, read.key, read.value), depth, max),
{
}

/// Where the text holds the encodings of the members from the `from`-th on
/// and a closing brace, the rest of the object is read as those members,
/// given in turn to the ones read before them.
proof fn lemma_members_read_back(
    s: Seq<char>,
    i: int,
    members: Seq<Member>,
    from: nat,
    acc: Seq<Member>,
    depth: nat,
    max: nat,
)
    requires
        from < members.len(),
        holds_at(s, i, encoding_of_members(members, from) + seq!['}']),
        1 <= depth <= max,
        forall|k: int|
            0 <= k < members.len() ==> (#[trigger] members[k]).value.numbers_well_formed(),
        forall|k: int|
            0 <= k < members.len() ==> (#[trigger] members[k]).value.depth_within(
                (max - depth) as nat,
            ),
    ensures
        members_at(s, i, acc, depth, max) == Ok::<(Json, int), JsonError>(
            (
                Json::Object(merged_members(acc, members, from)),
                i + encoding_of_members(members, from).len() + 1,
            ),
        ),
    decreases members, members.len() - from,
{
    let m = members[from as int];
    let read = Member { key: m.key, value: merged(m.value) };
    let e = encoding_of_member(m);
    let j = i + e.len();
    let next = put_member(acc, m.key, merged(m.value));
    let close = Lexeme::BraceClose;
    assert(m.value.numbers_well_formed() && m.value.depth_within((max - depth) as nat));
    assert(merged_members(acc, members, from) == merged_members(next, members, from + 1));
    assert(holds_at(s, i, e) && separated(s, j)) by {
        if from + 1 == members.len() {
            assert(encoding_of_members(members, from) + seq!['}'] =~= e + (seq!['}']
                + Seq::empty()));
            lemma_holds_mark(s, i, e, '}', Seq::empty());
        } else {
            let rest = encoding_of_members(members, from + 1);
            assert(encoding_of_members(members, from) + seq!['}'] =~= e + (seq![','] + (rest
                + seq!['}'])));
            lemma_holds_mark(s, i, e, ',', rest + seq!['}']);
        }
    }
    assert(member_at(s, i, depth, max) == Ok::<(Member, int), JsonError>((read, j)) && j > i) by {
        lemma_member_read_back(s, i, m, depth, max);
        lemma_member_at(s, i, depth, max);
    }
    lemma_members_step(s, i, acc, read, j, depth, max);
    if from + 1 == members.len() {
        assert(merged_members(next, members, from + 1) == next);
        assert(holds_at(s, i, e) && 0 <= j < s.len() && s[j] == '}') by {
            assert(encoding_of_members(members, from) + seq!['}'] =~= e + (seq!['}']
                + Seq::empty()));
            lemma_holds_mark(s, i, e, '}', Seq::empty());
        }
        assert(following(s, j, close) == Ok::<Following, JsonError>(
            Following::Closed { end: j + 1 },
        )) by {
            lemma_following_closed(s, j, close);
        }
    } else {
        let rest = encoding_of_members(members, from + 1);
        assert(encoding_of_members(members, from) == e + seq![','] + rest);
        assert(holds_at(s, i, e) && 0 <= j < s.len() && s[j] == ',' && holds_at(
            s,
            j + 1,
            rest + seq!['}'],
        )) by {
            assert(e + seq![','] + rest + seq!['}'] =~= e + (seq![','] + (rest + seq!['}'])));
            lemma_holds_mark(s, i, e, ',', rest + seq!['}']);
        }
        assert(members_at(s, j + 1, next, depth, max) == Ok::<(Json, int), JsonError>(
            (Json::Object(merged_members(next, members, from + 1)), j + 1 + rest.len() + 1),
        )) by {
            lemma_members_read_back(s, j + 1, members, from + 1, next, depth, max);
        }
        assert(following(s, j, close) == Ok::<Following, JsonError>(
            Following::More { from: j + 1 },
        )) by {
            lemma_members_start(s, j + 1, next, depth, max);
            lemma_following_more(s, j, close);
        }
    }
}

/// The models of the items of an array, each merged.
pub open spec fn merged_items(items: Seq<Json>) -> Seq<Json> {
    merged(Json::Array(items))->Array_0
}

/// The encoding of a tree that nests within the limit, and whose numbers are
/// numbers of the grammar, is parsed to the merged value of the tree.
pub proof fn lemma_encoding_of_tree_read_back(v: Json, max: nat)
    requires
        v.numbers_well_formed(),
        v.depth_within(max),
    ensures
        parse_text(encoding(v), max) == Ok::<Json, JsonError>(merged(v)),
{
    reveal(lex_at);
    let s = encoding(v);
    lemma_holds_itself(s);
    lemma_value_read_back(s, 0, v, 0, max);
    assert(skip_whitespace(s, s.len() as int) == s.len());
}

/// The encoding of a well-formed value that nests within the limit is
/// parsed to that value.
pub proof fn lemma_encoding_read_back(v: Json, max: nat)
    requires
        v.well_formed(),
        v.depth_within(max),
    ensures
        parse_text(encoding(v), max) == Ok::<Json, JsonError>(v),
{
    lemma_merged_well_formed(v);
    lemma_encoding_of_tree_read_back(v, max);
}

/// Round trip: where a text is parsed to a value, the encoding of that
/// value is parsed to the same value.
pub proof fn lemma_round_trip(s: Seq<char>, max: nat)
    ensures
        parse_text(s, max) matches Ok(v) ==> parse_text(encoding(v), max) == Ok::<Json, JsonError>(
            v,
        ),
{
    if let Ok(v) = parse_text(s, max) {
        lemma_parsed_well_formed(s, max);
        lemma_parsed_depth_within_limit(s, max);
        lemma_encoding_read_back(v, max);
    }
}

/// Every text of the grammar is parsed: a text that is made of the tokens
/// of a tree of arrays, objects and leaves, with any whitespace between them
/// and any spelling of the escapes in its strings, is parsed to the merged
/// value of that tree, where the tree nests within the limit and its numbers
/// are numbers of the grammar.
pub proof fn lemma_text_of_tree_parses(s: Seq<char>, v: Json, max: nat)
    requires
        v.numbers_well_formed(),
        v.depth_within(max),
        same_tokens(s, 0, encoding(v), 0),
    ensures
        parse_text(s, max) == Ok::<Json, JsonError>(merged(v)),
{
    lemma_encoding_of_tree_read_back(v, max);
    lemma_same_tokens_same_value(s, encoding(v), max);
}

} // verus!
