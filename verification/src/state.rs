//! The abstract state of a parsing cursor: the input as a sequence of code
//! points and a byte offset into its UTF-8 encoding, together with the facts
//! that relate byte offsets to code-point counts.

use vstd::prelude::*;
use vstd::utf8::*;

verus! {

/// Number of bytes that the UTF-8 encoding of `s` takes.
pub open spec fn utf8_len(s: Seq<char>) -> nat {
    encode_utf8(s).len()
}

/// The first code point of `s`, if there is one.
pub open spec fn first(s: Seq<char>) -> Option<char> {
    if s.len() > 0 {
        Some(s[0])
    } else {
        None
    }
}

/// What a cursor stands for: the whole input and the byte offset reached in it.
pub struct State {
    /// The input, as code points.
    pub text: Seq<char>,
    /// Byte offset into the UTF-8 encoding of `text`.
    pub position: int,
}

impl State {
    /// The state of a cursor that has consumed nothing of `text`.
    pub open spec fn start(text: Seq<char>) -> State {
        State { text, position: 0 }
    }

    /// The UTF-8 encoding of the input.
    pub open spec fn bytes(self) -> Seq<u8> {
        encode_utf8(self.text)
    }

    /// The position lies within the input, on a code-point boundary, and the
    /// input is short enough for every byte offset into it to be a `usize`.
    pub open spec fn wf(self) -> bool {
        &&& is_char_boundary(self.bytes(), self.position)
        &&& self.bytes().len() <= usize::MAX
    }

    /// The code points before the position.
    pub open spec fn consumed(self) -> Seq<char> {
        decode_utf8(self.bytes().subrange(0, self.position))
    }

    /// The code points from the position on.
    pub open spec fn remaining(self) -> Seq<char> {
        decode_utf8(self.bytes().subrange(self.position, self.bytes().len() as int))
    }

    /// The position is the end of the input.
    pub open spec fn at_end(self) -> bool {
        self.position == self.bytes().len()
    }

    /// The state after consuming the next `n` code points.
    pub open spec fn advance(self, n: int) -> State {
        State {
            text: self.text,
            position: self.position + utf8_len(self.remaining().take(n)),
        }
    }

    /// `after` is what consuming the next `n` code points leads to: that many
    /// remain, the position has moved past them, and the rest remains.
    pub open spec fn advances_to(self, after: State, n: int) -> bool {
        &&& 0 <= n <= self.remaining().len()
        &&& after == self.advance(n)
        &&& after.wf()
        &&& after.remaining() == self.remaining().skip(n)
    }
}

/// Encoding distributes over concatenation.
pub proof fn lemma_encode_concat(a: Seq<char>, b: Seq<char>)
    ensures
        encode_utf8(a + b) == encode_utf8(a) + encode_utf8(b),
        utf8_len(a + b) == utf8_len(a) + utf8_len(b),
    decreases a.len(),
{
    if a.len() == 0 {
        assert(a + b =~= b);
        assert(encode_utf8(a) + encode_utf8(b) =~= encode_utf8(b));
    } else {
        lemma_encode_concat(a.drop_first(), b);
        assert((a + b).drop_first() =~= a.drop_first() + b);
        assert((a + b)[0] == a[0]);
        assert(encode_utf8(a + b) =~= encode_utf8(a) + encode_utf8(b));
    }
}

/// Every code point takes between one and four bytes.
pub proof fn lemma_scalar_len(c: char)
    ensures
        1 <= encode_scalar(c as u32).len() <= 4,
{
}

/// The encoding of a single code point.
pub proof fn lemma_encode_one(c: char)
    ensures
        encode_utf8(seq![c]) == encode_scalar(c as u32),
        utf8_len(seq![c]) == encode_scalar(c as u32).len(),
{
    let s = seq![c];
    assert(s.drop_first() =~= Seq::<char>::empty());
    reveal_with_fuel(encode_utf8, 2);
    assert(encode_utf8(s) =~= encode_scalar(c as u32));
}

/// An encoding is at least as long, in bytes, as the text is in code points.
pub proof fn lemma_utf8_len_lower_bound(s: Seq<char>)
    ensures
        s.len() <= utf8_len(s),
        s.len() == 0 <==> utf8_len(s) == 0,
    decreases s.len(),
{
    if s.len() > 0 {
        lemma_utf8_len_lower_bound(s.drop_first());
        lemma_scalar_len(s[0]);
    }
}

/// The end of each prefix of a text is a code-point boundary of its encoding.
pub proof fn lemma_prefix_boundary(text: Seq<char>, j: int)
    requires
        0 <= j <= text.len(),
    ensures
        is_char_boundary(encode_utf8(text), utf8_len(text.take(j)) as int),
        encode_utf8(text) == encode_utf8(text.take(j)) + encode_utf8(text.skip(j)),
    decreases j,
{
    broadcast use encode_utf8_valid_utf8;

    assert(text =~= text.take(j) + text.skip(j));
    lemma_encode_concat(text.take(j), text.skip(j));
    if j == 0 {
        assert(text.take(0) =~= Seq::<char>::empty());
    } else {
        let bytes = encode_utf8(text);
        let tail = text.drop_first();
        encode_utf8_first_scalar(text);
        assert(pop_first_scalar(bytes) =~= encode_utf8(tail));
        lemma_prefix_boundary(tail, j - 1);
        assert(text.take(j) =~= seq![text[0]] + tail.take(j - 1));
        lemma_encode_concat(seq![text[0]], tail.take(j - 1));
        lemma_encode_one(text[0]);
        lemma_scalar_len(text[0]);
        let idx = utf8_len(text.take(j)) as int;
        assert(idx - length_of_first_scalar(bytes) == utf8_len(tail.take(j - 1)));
        assert(idx <= bytes.len());
    }
}

/// A well-formed state splits its text into what was consumed and what remains.
pub proof fn lemma_split(st: State)
    requires
        st.wf(),
    ensures
        st.text == st.consumed() + st.remaining(),
        0 <= st.position <= st.bytes().len(),
        st.position == utf8_len(st.consumed()),
        encode_utf8(st.consumed()) == st.bytes().subrange(0, st.position),
        encode_utf8(st.remaining()) == st.bytes().subrange(
            st.position,
            st.bytes().len() as int,
        ),
        st.bytes().len() == st.position + utf8_len(st.remaining()),
        st.at_end() <==> st.remaining().len() == 0,
{
    broadcast use encode_utf8_valid_utf8;

    let bytes = st.bytes();
    encode_utf8_decode_utf8(st.text);
    valid_utf8_split(bytes, st.position);
    decode_utf8_split(bytes, st.position);
    decode_utf8_encode_utf8(bytes.subrange(0, st.position));
    decode_utf8_encode_utf8(bytes.subrange(st.position, bytes.len() as int));
    lemma_boundary_in_range(bytes, st.position);
    lemma_utf8_len_lower_bound(st.remaining());
}

proof fn lemma_boundary_in_range(bytes: Seq<u8>, index: int)
    requires
        valid_utf8(bytes),
        is_char_boundary(bytes, index),
    ensures
        0 <= index <= bytes.len(),
{
}

/// At the start of a text nothing is consumed and all of it remains.
pub proof fn lemma_start(text: Seq<char>)
    requires
        utf8_len(text) <= usize::MAX,
    ensures
        State::start(text).wf(),
        State::start(text).remaining() == text,
        State::start(text).consumed() == Seq::<char>::empty(),
{
    broadcast use encode_utf8_valid_utf8;

    let bytes = encode_utf8(text);
    assert(bytes.subrange(0, bytes.len() as int) =~= bytes);
    assert(bytes.subrange(0, 0) =~= Seq::<u8>::empty());
    encode_utf8_decode_utf8(text);
}

/// Consuming `n` of the remaining code points leaves a well-formed state whose
/// remaining text is the old one without its first `n` code points.
pub proof fn lemma_advance(st: State, n: int)
    requires
        st.wf(),
        0 <= n <= st.remaining().len(),
    ensures
        st.advance(n).wf(),
        st.advance(n).text == st.text,
        st.advance(n).remaining() == st.remaining().skip(n),
        st.advance(n).consumed() == st.consumed() + st.remaining().take(n),
        st.position <= st.advance(n).position <= st.bytes().len(),
        n > 0 ==> st.position < st.advance(n).position,
        decode_utf8(st.bytes().subrange(st.position, st.advance(n).position))
            == st.remaining().take(n),
{
    broadcast use encode_utf8_valid_utf8;

    lemma_split(st);
    let cons = st.consumed();
    let rem = st.remaining();
    let j = cons.len() + n;
    let next = st.advance(n);
    assert(st.text.take(j) =~= cons + rem.take(n));
    assert(st.text.skip(j) =~= rem.skip(n));
    lemma_encode_concat(cons, rem.take(n));
    lemma_prefix_boundary(st.text, j);
    assert(next.position == utf8_len(st.text.take(j)));
    let bytes = st.bytes();
    assert(bytes.subrange(0, next.position) =~= encode_utf8(st.text.take(j)));
    assert(bytes.subrange(next.position, bytes.len() as int) =~= encode_utf8(st.text.skip(j)));
    encode_utf8_decode_utf8(st.text.take(j));
    encode_utf8_decode_utf8(st.text.skip(j));
    lemma_utf8_len_lower_bound(rem.take(n));
    assert(bytes.subrange(0, st.position) + bytes.subrange(st.position, next.position)
        =~= bytes.subrange(0, next.position));
    assert(bytes.subrange(st.position, next.position) =~= encode_utf8(rem.take(n)));
    encode_utf8_decode_utf8(rem.take(n));
}

/// Consuming `a` code points and then `b` is consuming `a + b` at once.
pub proof fn lemma_advance_add(st: State, a: int, b: int)
    requires
        st.wf(),
        0 <= a,
        0 <= b,
        a + b <= st.remaining().len(),
    ensures
        st.advance(a).advance(b) == st.advance(a + b),
        st.remaining().take(a) + st.remaining().skip(a).take(b) == st.remaining().take(a + b),
{
    let rem = st.remaining();
    lemma_advance(st, a);
    assert(rem.take(a) + rem.skip(a).take(b) =~= rem.take(a + b));
    lemma_encode_concat(rem.take(a), rem.skip(a).take(b));
}

/// Consuming nothing changes nothing.
pub proof fn lemma_advance_zero(st: State)
    ensures
        st.advance(0) == st,
{
    assert(st.remaining().take(0) =~= Seq::<char>::empty());
}

/// A well-formed state is reached from itself by consuming nothing.
pub proof fn lemma_stays(st: State)
    requires
        st.wf(),
    ensures
        st.advances_to(st, 0),
{
    lemma_advance_zero(st);
    assert(st.remaining().skip(0) =~= st.remaining());
}

/// Consuming `n` of the remaining code points is an advance by `n`.
pub proof fn lemma_advances(st: State, n: int)
    requires
        st.wf(),
        0 <= n <= st.remaining().len(),
    ensures
        st.advances_to(st.advance(n), n),
        st.position <= st.advance(n).position <= usize::MAX,
{
    lemma_advance(st, n);
}

/// An advance by `a` followed by an advance by `b` is an advance by `a + b`.
pub proof fn lemma_advances_then(st: State, mid: State, end: State, a: int, b: int)
    requires
        st.wf(),
        st.advances_to(mid, a),
        mid.advances_to(end, b),
    ensures
        st.advances_to(end, a + b),
        st.remaining().skip(a).skip(b) == st.remaining().skip(a + b),
{
    lemma_advance_add(st, a, b);
    lemma_advance(st, a + b);
}

/// The state reached from `st` by consuming one code point `n` times, each
/// time the next one if there is one, and the code points so consumed.
pub open spec fn one_by_one(st: State, n: nat) -> (State, Seq<char>)
    decreases n,
{
    if n == 0 {
        (st, Seq::empty())
    } else {
        let (before, taken) = one_by_one(st, (n - 1) as nat);
        match first(before.remaining()) {
            Some(c) => (before.advance(1), taken.push(c)),
            None => (before, taken),
        }
    }
}

/// Consuming `n` code points one by one reaches the state, and gives the
/// text, that consuming `n` code points at once does, where that many remain.
pub proof fn lemma_one_by_one_is_advance(st: State, n: nat)
    requires
        st.wf(),
        n <= st.remaining().len(),
    ensures
        one_by_one(st, n) == (st.advance(n as int), st.remaining().take(n as int)),
    decreases n,
{
    let rem = st.remaining();
    if n == 0 {
        lemma_advance_zero(st);
        assert(rem.take(0) =~= Seq::<char>::empty());
    } else {
        let m = (n - 1) as nat;
        lemma_one_by_one_is_advance(st, m);
        lemma_advance(st, m as int);
        lemma_advance_add(st, m as int, 1);
        assert(rem.take(m as int).push(rem[m as int]) =~= rem.take(n as int));
    }
}

} // verus!
