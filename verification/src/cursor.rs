//! A cursor bound to a borrowed input string.

use crate::parser::Parser;
use crate::state::{lemma_start, State};
use crate::text::byte_len;
use vstd::prelude::*;

verus! {

/// A parsing cursor over a string that it borrows and never changes.
pub struct Cursor<'i> {
    input: &'i str,
    index: usize,
}

impl<'i> Cursor<'i> {
    /// A cursor at the start of `input`.
    pub fn new(input: &'i str) -> (cursor: Self)
        ensures
            cursor@ == State::start(input@),
            cursor@.wf(),
            cursor@.remaining() == input@,
    {
        // Measuring the input shows that every offset into it is a `usize`.
        let _ = byte_len(input);
        proof {
            lemma_start(input@);
        }
        Cursor { input, index: 0 }
    }

    /// The byte offset reached.
    pub fn position(&self) -> (at: usize)
        ensures
            at == self@.position,
    {
        self.index
    }
}

impl<'i> Parser<'i> for Cursor<'i> {
    closed spec fn view(&self) -> State {
        State { text: self.input@, position: self.index as int }
    }

    fn input(&mut self) -> (r: &'i str) {
        self.input
    }

    fn index(&mut self) -> (r: &mut usize) {
        &mut self.index
    }
}

} // verus!
