//! Source positions: the byte offset, line and column of a place in a text,
//! defined over the character sequence and an index into it.

use vstd::prelude::*;

verus! {

/// A place in the input: the byte offset from its start, the line (counted
/// from 1) and the column (the number of characters already consumed on that
/// line). Each field stops at `usize::MAX` instead of wrapping.
#[derive(Clone, Copy, Debug, PartialEq, Eq, Structural)]
pub struct Position {
    pub offset: usize,
    pub line: usize,
    pub column: usize,
}

/// Number of bytes that the UTF-8 encoding of `c` takes.
pub open spec fn utf8_width(c: char) -> nat {
    let v = c as u32;
    if v < 0x80 {
        1
    } else if v < 0x800 {
        2
    } else if v < 0x10000 {
        3
    } else {
        4
    }
}

/// Byte offset of index `i`: the UTF-8 width of the first `i` characters.
pub open spec fn offset_at(s: Seq<char>, i: int) -> nat
    decreases i,
{
    if i <= 0 {
        0
    } else {
        offset_at(s, i - 1) + utf8_width(s[i - 1])
    }
}

/// Line of index `i`: one more than the number of newlines before it.
pub open spec fn line_at(s: Seq<char>, i: int) -> nat
    decreases i,
{
    if i <= 0 {
        1
    } else if s[i - 1] == '\n' {
        line_at(s, i - 1) + 1
    } else {
        line_at(s, i - 1)
    }
}

/// Column of index `i`: the number of characters between the last newline
/// before `i` (or the start of the text) and `i`.
pub open spec fn column_at(s: Seq<char>, i: int) -> nat
    decreases i,
{
    if i <= 0 {
        0
    } else if s[i - 1] == '\n' {
        0
    } else {
        column_at(s, i - 1) + 1
    }
}

/// `n` as a `usize`, stopping at `usize::MAX`.
pub open spec fn clamp(n: nat) -> usize {
    if n > usize::MAX {
        usize::MAX
    } else {
        n as usize
    }
}

/// The position of index `i` in the text `s`.
pub open spec fn position_at(s: Seq<char>, i: int) -> Position {
    Position {
        offset: clamp(offset_at(s, i)),
        line: clamp(line_at(s, i)),
        column: clamp(column_at(s, i)),
    }
}

/// The position from which every text starts.
pub open spec fn start_position() -> Position {
    Position { offset: 0, line: 1, column: 0 }
}

/// The position after consuming `c` at position `p`.
pub open spec fn step_position(p: Position, c: char) -> Position {
    Position {
        offset: clamp(p.offset as nat + utf8_width(c)),
        line: if c == '\n' {
            clamp(p.line as nat + 1)
        } else {
            p.line
        },
        column: if c == '\n' {
            0
        } else {
            clamp(p.column as nat + 1)
        },
    }
}

/// Consuming the character at index `i` moves the position of `i` to the
/// position of `i + 1`.
pub proof fn lemma_position_step(s: Seq<char>, i: int)
    requires
        0 <= i < s.len(),
    ensures
        position_at(s, i + 1) == step_position(position_at(s, i), s[i]),
        position_at(s, 0) == start_position(),
{
}

/// The column never exceeds the index, the line never exceeds the index by
/// more than one, and the byte offset lies between the index and four times
/// the index.
pub proof fn lemma_position_bounds(s: Seq<char>, i: int)
    requires
        0 <= i,
    ensures
        column_at(s, i) <= i,
        1 <= line_at(s, i) <= i + 1,
        i <= offset_at(s, i) <= 4 * i,
    decreases i,
{
    if i > 0 {
        lemma_position_bounds(s, i - 1);
    }
}

/// The byte offset of index `n` is the width of the first character and the
/// byte offset of index `n - 1` in the rest.
proof fn lemma_offset_from_front(s: Seq<char>, n: int)
    requires
        1 <= n <= s.len(),
    ensures
        offset_at(s, n) == utf8_width(s[0]) + offset_at(s.drop_first(), n - 1),
    decreases n,
{
    let rest = s.drop_first();
    if n > 1 {
        lemma_offset_from_front(s, n - 1);
        assert(rest[n - 2] == s[n - 1]);
        assert(offset_at(rest, n - 1) == offset_at(rest, n - 2) + utf8_width(rest[n - 2]));
    } else {
        assert(offset_at(s, 0) == 0);
        assert(offset_at(rest, 0) == 0);
    }
}

/// The byte offset of the end of a text is the length of its UTF-8
/// encoding.
pub proof fn lemma_offset_is_utf8_length(s: Seq<char>)
    ensures
        offset_at(s, s.len() as int) == vstd::utf8::encode_utf8(s).len(),
    decreases s.len(),
{
    if s.len() > 0 {
        lemma_offset_is_utf8_length(s.drop_first());
        lemma_offset_from_front(s, s.len() as int);
        vstd::utf8::char_is_scalar(s[0]);
        assert(vstd::utf8::encode_scalar(s[0] as u32).len() == utf8_width(s[0]));
    }
}

impl Position {
    /// The position from which every text starts: offset 0, line 1, column 0.
    pub fn start() -> (p: Position)
        ensures
            p == start_position(),
    {
        Position { offset: 0, line: 1, column: 0 }
    }

    /// The position after consuming `c` at this position.
    pub fn step(self, c: char) -> (p: Position)
        ensures
            p == step_position(self, c),
    {
        let width: usize = char_width(c);
        if c == '\n' {
            Position {
                offset: self.offset.saturating_add(width),
                line: self.line.saturating_add(1),
                column: 0,
            }
        } else {
            Position {
                offset: self.offset.saturating_add(width),
                line: self.line,
                column: self.column.saturating_add(1),
            }
        }
    }
}

/// Number of bytes that the UTF-8 encoding of `c` takes.
pub fn char_width(c: char) -> (w: usize)
    ensures
        w == utf8_width(c),
{
    let v: u32 = c as u32;
    if v < 0x80 {
        1
    } else if v < 0x800 {
        2
    } else if v < 0x10000 {
        3
    } else {
        4
    }
}

} // verus!
