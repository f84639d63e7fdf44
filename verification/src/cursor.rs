//! The position-tracking reader over the input text.

use crate::position::{lemma_position_step, position_at, Position};
use vstd::prelude::*;

verus! {

/// How far a cursor has come: the index of the next character and the
/// position of that index.
#[derive(Clone, Copy, Debug)]
struct Progress {
    index: usize,
    place: Position,
}

/// A reader over a sequence of characters with one character of lookahead.
/// It owns the text and knows the offset, line and column that it has reached.
#[derive(Debug)]
pub struct Cursor {
    input: Vec<char>,
    progress: Progress,
}

impl Cursor {
    /// The index lies within the text, and the place is the position of the
    /// index.
    #[verifier::type_invariant]
    pub closed spec fn inv(self) -> bool {
        &&& self.progress.index <= self.input.len()
        &&& self.progress.place == position_at(self.input@, self.progress.index as int)
    }

    /// The index of a cursor lies within its text.
    pub proof fn lemma_index_in_text(self)
        requires
            self.inv(),
        ensures
            0 <= self.index() <= self.text().len(),
    {
    }

    /// The whole text that the cursor reads.
    pub closed spec fn text(&self) -> Seq<char> {
        self.input@
    }

    /// The number of characters consumed so far.
    pub closed spec fn index(&self) -> int {
        self.progress.index as int
    }

    /// The next character, if any is left.
    pub open spec fn next_char(&self) -> Option<char> {
        if 0 <= self.index() < self.text().len() {
            Some(self.text()[self.index()])
        } else {
            None
        }
    }

    /// A cursor at the start of `input`.
    pub fn new(input: Vec<char>) -> (c: Cursor)
        ensures
            c.text() == input@,
            c.index() == 0,
    {
        Cursor { input, progress: Progress { index: 0, place: Position::start() } }
    }

    /// The next character without consuming it; `None` once the input is
    /// exhausted.
    pub fn peek(&self) -> (r: Option<char>)
        ensures
            r == self.next_char(),
            0 <= self.index() <= self.text().len(),
    {
        proof {
            use_type_invariant(self);
        }
        if self.progress.index < self.input.len() {
            Some(self.input[self.progress.index])
        } else {
            None
        }
    }

    /// Consumes and returns the next character; `None`, with nothing changed,
    /// once the input is exhausted.
    pub fn advance(&mut self) -> (r: Option<char>)
        ensures
            final(self).text() == old(self).text(),
            r == old(self).next_char(),
            final(self).index() == if r is Some {
                old(self).index() + 1
            } else {
                old(self).index()
            },
            0 <= old(self).index() <= final(self).index() <= old(self).text().len(),
    {
        proof {
            use_type_invariant(&*self);
        }
        if self.progress.index < self.input.len() {
            let c = self.input[self.progress.index];
            proof {
                lemma_position_step(self.input@, self.progress.index as int);
            }
            self.progress = Progress {
                index: self.progress.index + 1,
                place: self.progress.place.step(c),
            };
            Some(c)
        } else {
            None
        }
    }

    /// The offset, line and column that the cursor has reached.
    pub fn position(&self) -> (p: Position)
        ensures
            p == position_at(self.text(), self.index()),
            0 <= self.index() <= self.text().len(),
    {
        proof {
            use_type_invariant(self);
        }
        self.progress.place
    }
}

} // verus!
