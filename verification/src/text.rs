//! Executable access to a `&str` by byte offset, stated over code points.

use crate::state::{first, lemma_encode_one, lemma_split, utf8_len, State};
use vstd::prelude::*;
use vstd::string::*;
use vstd::utf8::*;

verus! {

/// `String::push` appends one character.
pub assume_specification[ String::push ](s: &mut String, ch: char)
    ensures
        final(s)@ == old(s)@.push(ch),
;

/// The state of a cursor over `s` that stands at byte offset `at`.
pub open spec fn state_of(s: &str, at: usize) -> State {
    State { text: s@, position: at as int }
}

/// Length of `s` in bytes.
pub fn byte_len(s: &str) -> (n: usize)
    ensures
        n == utf8_len(s@),
{
    s.as_bytes().len()
}

/// Number of bytes that `c` takes in UTF-8.
pub fn utf8_width(c: char) -> (n: usize)
    ensures
        n == utf8_len(seq![c]),
        1 <= n <= 4,
{
    proof {
        lemma_encode_one(c);
    }
    let v = c as u32;
    if v < 0x80 {
        1
    } else if v < 0x800 {
        2
    } else if v < 0x10000 {
        3
    } else {
        4
    }
}

/// The code point of `s` that starts at byte offset `at`, or `None` at the end.
pub fn char_at(s: &str, at: usize) -> (r: Option<char>)
    requires
        state_of(s, at).wf(),
    ensures
        r == first(state_of(s, at).remaining()),
{
    broadcast use group_string_axioms;

    let (_, rest) = s.split_at(at);
    proof {
        encode_utf8_decode_utf8(rest@);
    }
    let mut it = rest.chars();
    it.next()
}

/// The part of `s` between two code-point boundaries.
pub fn slice<'a>(s: &'a str, from: usize, to: usize) -> (r: &'a str)
    requires
        state_of(s, from).wf(),
        state_of(s, to).wf(),
        from <= to,
    ensures
        r@ == decode_utf8(s.spec_bytes().subrange(from as int, to as int)),
        utf8_len(r@) == to - from,
{
    broadcast use {encode_utf8_valid_utf8, valid_utf8_split};

    let ghost bytes = s.spec_bytes();
    let (head, _) = s.split_at(to);
    proof {
        lemma_split(state_of(s, to));
        assert(valid_utf8(head.spec_bytes()));
        if from < to {
            is_char_boundary_iff_not_is_continuation_byte(bytes, from as int);
            is_char_boundary_iff_not_is_continuation_byte(head.spec_bytes(), from as int);
        } else {
            is_char_boundary_start_end_of_seq(head.spec_bytes());
        }
    }
    let (_, r) = head.split_at(from);
    proof {
        assert(r.spec_bytes() =~= bytes.subrange(from as int, to as int));
        encode_utf8_decode_utf8(r@);
    }
    r
}

/// Whether two strings hold the same code points.
pub fn same_text(a: &str, b: &str) -> (r: bool)
    ensures
        r == (a@ == b@),
{
    let x = a.as_bytes();
    let y = b.as_bytes();
    if x.len() != y.len() {
        return false;
    }
    let mut i: usize = 0;
    while i < x.len()
        invariant
            x.len() == y.len(),
            0 <= i <= x.len(),
            x@ == a.spec_bytes(),
            y@ == b.spec_bytes(),
            forall|j: int| 0 <= j < i ==> x@[j] == y@[j],
        decreases x.len() - i,
    {
        if x[i] != y[i] {
            return false;
        }
        i += 1;
    }
    proof {
        assert(x@ =~= y@);
        encode_utf8_decode_utf8(a@);
        encode_utf8_decode_utf8(b@);
    }
    true
}

} // verus!
