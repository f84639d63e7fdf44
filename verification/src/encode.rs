//! A text for every value: the encoding that the parser reads back to the
//! same value.

use crate::lexical::{word_false, word_null, word_true};
use crate::value::{items_view, lemma_array_view, lemma_object_view, members_view, Json, Member, Value};
use vstd::prelude::*;
use vstd::string::StringExecFns;

verus! {

/// The hexadecimal digit, in lower case, of a value below 16.
pub open spec fn hex_char(d: int) -> char {
    if d < 10 {
        ('0' as int + d) as char
    } else {
        ('a' as int + d - 10) as char
    }
}

/// A character that may not stand in a string as it is.
pub open spec fn is_control(c: char) -> bool {
    (c as int) < 0x20
}

/// What stands for the character `c` inside a string: an escape for the
/// quote, the backslash and the control characters, the character itself
/// for any other.
pub open spec fn escape_char(c: char) -> Seq<char> {
    if c == '"' {
        seq!['\\', '"']
    } else if c == '\\' {
        seq!['\\', '\\']
    } else if c == '\n' {
        seq!['\\', 'n']
    } else if c == '\r' {
        seq!['\\', 'r']
    } else if c == '\t' {
        seq!['\\', 't']
    } else if c == '\u{8}' {
        seq!['\\', 'b']
    } else if c == '\u{c}' {
        seq!['\\', 'f']
    } else if is_control(c) {
        seq!['\\', 'u', '0', '0', hex_char(c as int / 16), hex_char(c as int % 16)]
    } else {
        seq![c]
    }
}

/// The characters of `t`, each escaped where it must be.
pub open spec fn escape_text(t: Seq<char>) -> Seq<char>
    decreases t.len(),
{
    if t.len() == 0 {
        Seq::empty()
    } else {
        escape_char(t[0]) + escape_text(t.drop_first())
    }
}

/// The string literal for the text `t`.
pub open spec fn quote(t: Seq<char>) -> Seq<char> {
    seq!['"'] + escape_text(t) + seq!['"']
}

/// The encoding of the value `v`: the shortest text of the usual form, with
/// no whitespace.
pub open spec fn encoding(v: Json) -> Seq<char>
    decreases v, 0nat,
{
    match v {
        Json::Null => word_null(),
        Json::Boolean(b) => if b {
            word_true()
        } else {
            word_false()
        },
        Json::Number(text) => text,
        Json::String(text) => quote(text),
        Json::Array(items) => seq!['['] + encoding_of_items(items, 0) + seq![']'],
        Json::Object(members) => seq!['{'] + encoding_of_members(members, 0) + seq!['}'],
    }
}

/// The encodings of the items from the `from`-th on, with a comma between
/// each two.
pub open spec fn encoding_of_items(items: Seq<Json>, from: nat) -> Seq<char>
    decreases items, items.len() - from,
{
    if from >= items.len() {
        Seq::empty()
    } else if from + 1 == items.len() {
        encoding(items[from as int])
    } else {
        encoding(items[from as int]) + seq![','] + encoding_of_items(items, from + 1)
    }
}

/// The encoding of one member: its key as a string literal, a colon, its
/// value.
pub open spec fn encoding_of_member(m: Member) -> Seq<char>
    decreases m, 0nat,
{
    quote(m.key) + seq![':'] + encoding(m.value)
}

/// The encodings of the members from the `from`-th on, with a comma between
/// each two.
pub open spec fn encoding_of_members(members: Seq<Member>, from: nat) -> Seq<char>
    decreases members, members.len() - from,
{
    if from >= members.len() {
        Seq::empty()
    } else if from + 1 == members.len() {
        encoding_of_member(members[from as int])
    } else {
        encoding_of_member(members[from as int]) + seq![','] + encoding_of_members(
            members,
            from + 1,
        )
    }
}

/// The escaped form of a text with one more character is the escaped form
/// of the text and what stands for that character after it.
pub proof fn lemma_escape_text_push(t: Seq<char>, c: char)
    ensures
        escape_text(t.push(c)) == escape_text(t) + escape_char(c),
    decreases t.len(),
{
    if t.len() == 0 {
        assert(t.push(c).drop_first() =~= Seq::<char>::empty());
        assert(escape_text(t.push(c).drop_first()) =~= Seq::<char>::empty());
        assert(escape_text(t) =~= Seq::<char>::empty());
        assert(escape_text(t.push(c)) =~= escape_char(c) + Seq::<char>::empty());
        assert(escape_text(t) + escape_char(c) =~= escape_char(c));
    } else {
        assert(t.push(c).drop_first() =~= t.drop_first().push(c));
        lemma_escape_text_push(t.drop_first(), c);
        assert(escape_char(t[0]) + (escape_text(t.drop_first()) + escape_char(c)) =~= (escape_char(
            t[0],
        ) + escape_text(t.drop_first())) + escape_char(c));
    }
}

/// The hexadecimal digit, in lower case, of a value below 16.
fn hex_digit_char(d: u32) -> (r: char)
    requires
        d < 16,
    ensures
        r == hex_char(d as int),
{
    let code: u32 = if d < 10 {
        '0' as u32 + d
    } else {
        'a' as u32 + d - 10
    };
    match char::from_u32(code) {
        Some(c) => c,
        None => '0',
    }
}

/// Appends to `out` what stands for `c` inside a string.
fn write_escaped(c: char, out: &mut String)
    ensures
        final(out)@ == old(out)@ + escape_char(c),
{
    if c == '"' {
        out.push('\\');
        out.push('"');
        assert(out@ =~= old(out)@ + escape_char(c));
    } else if c == '\\' {
        out.push('\\');
        out.push('\\');
        assert(out@ =~= old(out)@ + escape_char(c));
    } else if c == '\n' {
        out.push('\\');
        out.push('n');
        assert(out@ =~= old(out)@ + escape_char(c));
    } else if c == '\r' {
        out.push('\\');
        out.push('r');
        assert(out@ =~= old(out)@ + escape_char(c));
    } else if c == '\t' {
        out.push('\\');
        out.push('t');
        assert(out@ =~= old(out)@ + escape_char(c));
    } else if c == '\u{8}' {
        out.push('\\');
        out.push('b');
        assert(out@ =~= old(out)@ + escape_char(c));
    } else if c == '\u{c}' {
        out.push('\\');
        out.push('f');
        assert(out@ =~= old(out)@ + escape_char(c));
    } else if (c as u32) < 0x20 {
        let code: u32 = c as u32;
        out.push('\\');
        out.push('u');
        out.push('0');
        out.push('0');
        out.push(hex_digit_char(code / 16));
        out.push(hex_digit_char(code % 16));
        assert(out@ =~= old(out)@ + escape_char(c));
    } else {
        out.push(c);
        assert(out@ =~= old(out)@ + escape_char(c));
    }
}

/// Appends to `out` the string literal for `text`.
fn write_quoted(text: &str, out: &mut String)
    ensures
        final(out)@ == old(out)@ + quote(text@),
{
    out.push('"');
    for c in it: text.chars()
        invariant
            it.seq() == text@,
            out@ == old(out)@ + seq!['"'] + escape_text(it.seq().take(it.index() as int)),
    {
        proof {
            let done = it.seq().take(it.index() as int);
            lemma_escape_text_push(done, c);
            assert(it.seq().take(it.index() as int + 1) =~= done.push(c));
        }
        write_escaped(c, out);
        assert(out@ =~= old(out)@ + seq!['"'] + (escape_text(
            it.seq().take(it.index() as int),
        ) + escape_char(c)));
    }
    assert(text@.take(text@.len() as int) =~= text@);
    out.push('"');
    assert(out@ =~= old(out)@ + quote(text@));
}

/// What is still to be written of the items once `k` of them are: the rest
/// of them, after a comma where any went before.
pub open spec fn items_left(items: Seq<Json>, k: nat) -> Seq<char> {
    if k == 0 || k >= items.len() {
        encoding_of_items(items, k)
    } else {
        seq![','] + encoding_of_items(items, k)
    }
}

/// What is still to be written of the members once `k` of them are: the rest
/// of them, after a comma where any went before.
pub open spec fn members_left(members: Seq<Member>, k: nat) -> Seq<char> {
    if k == 0 || k >= members.len() {
        encoding_of_members(members, k)
    } else {
        seq![','] + encoding_of_members(members, k)
    }
}

/// Appends to `out` the encoding of `value`.
pub fn write_value(value: &Value, out: &mut String)
    ensures
        final(out)@ == old(out)@ + encoding(value@),
    decreases value,
{
    match value {
        Value::Null => {
            proof {
                reveal_strlit("null");
                assert("null"@ =~= word_null());
            }
            out.append("null");
        },
        Value::Boolean(b) => {
            if *b {
                proof {
                    reveal_strlit("true");
                    assert("true"@ =~= word_true());
                }
                out.append("true");
            } else {
                proof {
                    reveal_strlit("false");
                    assert("false"@ =~= word_false());
                }
                out.append("false");
            }
        },
        Value::Number(text) => {
            out.append(text.as_str());
        },
        Value::String(text) => {
            write_quoted(text.as_str(), out);
        },
        Value::Array(items) => {
            let ghost models = items_view(items@);
            let ghost whole = old(out)@ + seq!['['] + encoding_of_items(models, 0);
            proof {
                lemma_array_view(*items);
            }
            out.push('[');
            let mut k: usize = 0;
            while k < items.len()
                invariant
                    k <= items.len(),
                    models == items_view(items@),
                    out@ + items_left(models, k as nat) == whole,
                    value == Value::Array(*items),
                decreases items.len() - k,
            {
                let ghost before = out@;
                let ghost item = encoding(models[k as int]);
                if k > 0 {
                    out.push(',');
                }
                proof {
                    assert(decreases_to!(value => value->Array_0));
                    assert(decreases_to!(value->Array_0 => value->Array_0[k as int]));
                }
                write_value(&items[k], out);
                proof {
                    let lead = if k > 0 {
                        seq![',']
                    } else {
                        Seq::<char>::empty()
                    };
                    assert(out@ =~= before + lead + item);
                    assert(items_left(models, k as nat) =~= lead + item + items_left(
                        models,
                        (k + 1) as nat,
                    ));
                    assert(out@ + items_left(models, (k + 1) as nat) =~= before + items_left(
                        models,
                        k as nat,
                    ));
                }
                k = k + 1;
            }
            assert(out@ =~= whole) by {
                assert(items_left(models, k as nat) =~= Seq::<char>::empty());
            }
            out.push(']');
            assert(out@ =~= old(out)@ + encoding(value@));
        },
        Value::Object(members) => {
            let ghost models = members_view(members@);
            let ghost whole = old(out)@ + seq!['{'] + encoding_of_members(models, 0);
            proof {
                lemma_object_view(*members);
            }
            out.push('{');
            let mut k: usize = 0;
            while k < members.len()
                invariant
                    k <= members.len(),
                    models == members_view(members@),
                    out@ + members_left(models, k as nat) == whole,
                    value == Value::Object(*members),
                decreases members.len() - k,
            {
                proof {
                    reveal(members_view);
                }
                let ghost before = out@;
                let ghost member = encoding_of_member(models[k as int]);
                if k > 0 {
                    out.push(',');
                }
                write_quoted(members[k].0.as_str(), out);
                out.push(':');
                proof {
                    assert(decreases_to!(value => value->Object_0));
                    assert(decreases_to!(value->Object_0 => value->Object_0[k as int]));
                    assert(decreases_to!(value->Object_0[k as int] => value->Object_0[k as int].1));
                }
                write_value(&members[k].1, out);
                proof {
                    let lead = if k > 0 {
                        seq![',']
                    } else {
                        Seq::<char>::empty()
                    };
                    assert(out@ =~= before + lead + member);
                    assert(members_left(models, k as nat) =~= lead + member + members_left(
                        models,
                        (k + 1) as nat,
                    ));
                    assert(out@ + members_left(models, (k + 1) as nat) =~= before + members_left(
                        models,
                        k as nat,
                    ));
                }
                k = k + 1;
            }
            assert(out@ =~= whole) by {
                assert(members_left(models, k as nat) =~= Seq::<char>::empty());
            }
            out.push('}');
            assert(out@ =~= old(out)@ + encoding(value@));
        },
    }
}

/// The encoding of `value`: a text that the parser reads back to `value`
/// where `value` is well formed.
pub fn encode(value: &Value) -> (r: String)
    ensures
        r@ == encoding(value@),
{
    let mut out = String::new();
    write_value(value, &mut out);
    assert(out@ =~= encoding(value@));
    out
}

} // verus!
