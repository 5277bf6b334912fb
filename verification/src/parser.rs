//! The parsing cursor: lookahead, consumption and trivia skipping over UTF-8
//! text, and the token-level parsers built from them.

use crate::chars::{
    is_digit, is_name_char, is_number_char, is_space, spec_is_digit, spec_is_number_char,
    spec_is_space,
};
use crate::error::{expected_at, expected_with_at, failure_message, Missing, ParseError};
use crate::grammar::{
    character, continued, lemma_character_bounds, lemma_hex_len_unique,
    lemma_literal_after_trivia, lemma_name_len_unique, lemma_numeric_len_unique,
    lemma_spaces_len_unique, lemma_string_body_step, literal, name, number, quoted_char,
    quoted_string, radix_of, radix_prefix_len, spaces_len, string_body, trivia_len, trivia_scan,
    Parsed,
};
use crate::number::{digits_value, strip_separators, u64_from_digits};
use crate::state::{
    first, lemma_advance, lemma_advances, lemma_advances_then, lemma_split, lemma_stays, State,
};
use crate::text::{byte_len, char_at, same_text, slice, state_of, utf8_width};
use vstd::prelude::*;
use vstd::string::*;

verus! {

/// The result `r` and the state `after` are what the outcome `parsed`, found
/// on the text that remained in state `before`, asks for: the cursor has
/// consumed what the outcome consumes, and `r` is the outcome's value, or the
/// failure that reports what it misses at the position reached.
pub open spec fn yields<T>(
    before: State,
    after: State,
    r: Result<T, ParseError>,
    parsed: Parsed<T>,
) -> bool {
    &&& before.advances_to(after, parsed.consumed)
    &&& match parsed.result {
        Ok(v) => r == Ok::<T, ParseError>(v),
        Err(missing) => r matches Err(e) && e.reports(after, missing),
    }
}

/// As `yields`, for a parser whose value is a text.
pub open spec fn yields_text(
    before: State,
    after: State,
    r: Result<String, ParseError>,
    parsed: Parsed<Seq<char>>,
) -> bool {
    &&& before.advances_to(after, parsed.consumed)
    &&& match parsed.result {
        Ok(v) => r matches Ok(s) && s@ == v,
        Err(missing) => r matches Err(e) && e.reports(after, missing),
    }
}

/// A cursor over borrowed text. An implementation supplies the text and the
/// byte offset; every primitive is built on those two accessors.
///
/// Each primitive asks for a well-formed state, `self@.wf()`, and leaves one:
/// the byte offset stays within the text, on a code-point boundary.
pub trait Parser<'i> {
    /// The text and the byte offset that the cursor stands for.
    spec fn view(&self) -> State;

    /// The whole input.
    fn input(&mut self) -> (r: &'i str)
        ensures
            r@ == old(self)@.text,
            final(self)@ == old(self)@,
    ;

    /// The byte offset, for reading and writing.
    fn index(&mut self) -> (r: &mut usize)
        ensures
            *r == old(self)@.position,
            final(self)@ == (State { text: old(self)@.text, position: *final(r) as int }),
    ;

    /// The failure for a missing `exp` at the current position.
    fn expected<T>(&mut self, exp: &str) -> (r: Result<T, ParseError>)
        requires
            old(self)@.wf(),
        ensures
            final(self)@ == old(self)@,
            r matches Err(e) && e.reports(old(self)@, Missing::of(exp@)),
    {
        let at = *self.index();
        let text = self.input();
        Err(expected_at(text, at, exp))
    }

    /// The failure for a missing `exp` at the current position, with the
    /// further line `msg`.
    fn expected_and<T>(&mut self, exp: &str, msg: &str) -> (r: Result<T, ParseError>)
        requires
            old(self)@.wf(),
        ensures
            final(self)@ == old(self)@,
            r matches Err(e) && e.reports(old(self)@, Missing::with(exp@, msg@)),
    {
        let at = *self.index();
        let text = self.input();
        Err(expected_with_at(text, at, exp, msg))
    }

    /// The next code point, which stays unconsumed.
    fn peek_one(&mut self) -> (r: Option<char>)
        requires
            old(self)@.wf(),
        ensures
            final(self)@ == old(self)@,
            r == first(old(self)@.remaining()),
    {
        let at = *self.index();
        let text = self.input();
        char_at(text, at)
    }

    /// The next `count` code points, which stay unconsumed; `None` where fewer
    /// remain.
    fn peek_many(&mut self, count: usize) -> (r: Option<&'i str>)
        requires
            old(self)@.wf(),
        ensures
            final(self)@ == old(self)@,
            r is Some <==> count <= old(self)@.remaining().len(),
            r matches Some(s) ==> s@ == old(self)@.remaining().take(count as int),
    {
        let start = *self.index();
        let text = self.input();
        let ghost st = self@;
        let mut end = start;
        let mut taken: usize = 0;
        proof {
            lemma_stays(st);
        }
        while taken < count
            invariant
                st.wf(),
                st == old(self)@,
                st == self@,
                st == state_of(text, start),
                taken <= count,
                st.advances_to(state_of(text, end), taken as int),
            decreases count - taken,
        {
            match char_at(text, end) {
                Some(c) => {
                    proof {
                        let here = state_of(text, end);
                        lemma_advances(here, 1);
                        assert(here.remaining().take(1) =~= seq![c]);
                        lemma_advances_then(st, here, here.advance(1), taken as int, 1);
                    }
                    end += utf8_width(c);
                    taken += 1;
                },
                None => {
                    return None;
                },
            }
        }
        proof {
            lemma_advance(st, count as int);
        }
        Some(slice(text, start, end))
    }

    /// Consumes and returns the next code point; `None` at the end of input.
    fn advance_one(&mut self) -> (r: Option<char>)
        requires
            old(self)@.wf(),
        ensures
            r == first(old(self)@.remaining()),
            old(self)@.advances_to(final(self)@, if r is Some { 1int } else { 0 }),
            r is None ==> final(self)@ == old(self)@,
    {
        let ghost st = self@;
        let chr = self.peek_one();
        match chr {
            Some(c) => {
                proof {
                    lemma_advances(st, 1);
                    assert(st.remaining().take(1) =~= seq![c]);
                }
                let width = utf8_width(c);
                let index = self.index();
                *index += width;
                Some(c)
            },
            None => {
                proof {
                    lemma_stays(st);
                }
                None
            },
        }
    }

    /// Consumes and returns the next `count` code points; where fewer remain,
    /// `None`, and nothing is consumed.
    fn advance_many(&mut self, count: usize) -> (r: Option<&'i str>)
        requires
            old(self)@.wf(),
        ensures
            r is Some <==> count <= old(self)@.remaining().len(),
            r matches Some(s) ==> s@ == old(self)@.remaining().take(count as int),
            old(self)@.advances_to(final(self)@, if r is Some { count as int } else { 0 }),
            r is None ==> final(self)@ == old(self)@,
    {
        let ghost st = self@;
        match self.peek_many(count) {
            Some(result) => {
                proof {
                    lemma_advances(st, count as int);
                }
                let width = byte_len(result);
                let index = self.index();
                *index += width;
                Some(result)
            },
            None => {
                proof {
                    lemma_stays(st);
                }
                None
            },
        }
    }

    /// Whether the whole input is consumed.
    fn is_eof(&mut self) -> (r: bool)
        requires
            old(self)@.wf(),
        ensures
            final(self)@ == old(self)@,
            r == old(self)@.at_end(),
            r == (old(self)@.remaining().len() == 0),
    {
        proof {
            lemma_split(self@);
        }
        let at = *self.index();
        let text = self.input();
        at >= byte_len(text)
    }

    /// Whether the next code points are those of `text`.
    fn starts_with(&mut self, text: &str) -> (r: bool)
        requires
            old(self)@.wf(),
        ensures
            final(self)@ == old(self)@,
            r == text@.is_prefix_of(old(self)@.remaining()),
    {
        let count = text.unicode_len();
        match self.peek_many(count) {
            Some(s) => same_text(s, text),
            None => false,
        }
    }

    /// Consumes the longest run of code points that `f` accepts, and returns
    /// it.
    fn take_while(&mut self, mut f: impl FnMut(char) -> bool) -> (r: &'i str)
        requires
            old(self)@.wf(),
            forall|c: char| call_requires(f, (c,)),
        ensures
            old(self)@.advances_to(final(self)@, r@.len() as int),
            r@ == old(self)@.remaining().take(r@.len() as int),
            forall|i: int|
                0 <= i < r@.len() ==> call_ensures(
                    f,
                    (#[trigger] old(self)@.remaining()[i],),
                    true,
                ),
            r@.len() < old(self)@.remaining().len() ==> call_ensures(
                f,
                (old(self)@.remaining()[r@.len() as int],),
                false,
            ),
    {
        let ghost st = self@;
        let ghost rem = st.remaining();
        let ghost mut k: int = 0;
        let ghost accept = f;
        let start = *self.index();
        proof {
            lemma_stays(st);
        }
        loop
            invariant
                st.wf(),
                st == old(self)@,
                rem == st.remaining(),
                st.advances_to(self@, k),
                f == accept,
                forall|c: char| call_requires(f, (c,)),
                forall|i: int| 0 <= i < k ==> call_ensures(f, (#[trigger] rem[i],), true),
            ensures
                k < rem.len() ==> call_ensures(f, (rem[k],), false),
            decreases rem.len() - k,
        {
            let ghost here = self@;
            match self.peek_one() {
                Some(c) => {
                    if f(c) {
                        self.advance_one();
                        proof {
                            lemma_advances_then(st, here, self@, k, 1);
                            k = k + 1;
                        }
                    } else {
                        break ;
                    }
                },
                None => {
                    break ;
                },
            }
        }
        let end = *self.index();
        let text = self.input();
        proof {
            lemma_advance(st, k);
        }
        slice(text, start, end)
    }

    /// Consumes the ASCII whitespace at the position.
    fn skip_spaces(&mut self)
        requires
            old(self)@.wf(),
        ensures
            old(self)@.advances_to(final(self)@, spaces_len(old(self)@.remaining())),
    {
        let ghost st = self@;
        let ghost rem = st.remaining();
        let ghost mut k: int = 0;
        proof {
            lemma_stays(st);
        }
        loop
            invariant
                st.wf(),
                st == old(self)@,
                rem == st.remaining(),
                st.advances_to(self@, k),
                forall|i: int| 0 <= i < k ==> spec_is_space(#[trigger] rem[i]),
            ensures
                k < rem.len() ==> !spec_is_space(rem[k]),
            decreases rem.len() - k,
        {
            let ghost here = self@;
            match self.peek_one() {
                Some(c) => {
                    if is_space(c) {
                        self.advance_one();
                        proof {
                            lemma_advances_then(st, here, self@, k, 1);
                            k = k + 1;
                        }
                    } else {
                        break ;
                    }
                },
                None => {
                    break ;
                },
            }
        }
        proof {
            lemma_spaces_len_unique(rem, k);
        }
    }

    /// Consumes the whitespace and line comments at the position. A line
    /// comment starts with `//` and ends after the next line feed, or at the
    /// end of input.
    fn skip_trivia(&mut self)
        requires
            old(self)@.wf(),
        ensures
            old(self)@.advances_to(final(self)@, trivia_len(old(self)@.remaining())),
            trivia_len(final(self)@.remaining()) == 0,
    {
        let ghost st = self@;
        let ghost rem = st.remaining();
        let ghost mut k: int = 0;
        proof {
            lemma_stays(st);
            assert(rem.skip(0) =~= rem);
        }
        loop
            invariant
                st.wf(),
                st == old(self)@,
                rem == st.remaining(),
                st.advances_to(self@, k),
                k + trivia_scan(rem.skip(k), false) == trivia_len(rem),
            ensures
                trivia_scan(rem.skip(k), false) == 0,
            decreases rem.len() - k,
        {
            let ghost here = self@;
            proof {
                reveal_strlit("//");
                if k < rem.len() {
                    assert(rem.skip(k).drop_first() =~= rem.skip(k + 1));
                }
                if "//"@.is_prefix_of(rem.skip(k)) {
                    assert(rem.skip(k).subrange(0, 2)[0] == '/');
                }
            }
            match self.peek_one() {
                Some(c) => {
                    if is_space(c) {
                        self.advance_one();
                        proof {
                            lemma_advances_then(st, here, self@, k, 1);
                            k = k + 1;
                        }
                        continue ;
                    }
                    if c == '/' && self.starts_with("//") {
                        let ghost opening = k;
                        loop
                            invariant
                                opening <= k,
                                0 <= opening < rem.len(),
                                rem[opening] == '/',
                                st.wf(),
                                st == old(self)@,
                                rem == st.remaining(),
                                st.advances_to(self@, k),
                                k + trivia_scan(rem.skip(k), true) == trivia_len(rem),
                            ensures
                                k < rem.len() ==> rem[k] == '\n',
                            decreases rem.len() - k,
                        {
                            let ghost here = self@;
                            proof {
                                if k < rem.len() {
                                    assert(rem.skip(k).drop_first() =~= rem.skip(k + 1));
                                }
                            }
                            match self.peek_one() {
                                Some(c) => {
                                    if c != '\n' {
                                        self.advance_one();
                                        proof {
                                            lemma_advances_then(st, here, self@, k, 1);
                                            k = k + 1;
                                        }
                                    } else {
                                        break ;
                                    }
                                },
                                None => {
                                    break ;
                                },
                            }
                        }
                        let ghost here = self@;
                        proof {
                            if k < rem.len() {
                                assert(rem.skip(k).drop_first() =~= rem.skip(k + 1));
                            }
                        }
                        // The line feed belongs to the comment.
                        let newline = self.advance_one();
                        proof {
                            if newline is Some {
                                lemma_advances_then(st, here, self@, k, 1);
                                k = k + 1;
                            }
                        }
                        continue ;
                    }
                    break ;
                },
                None => {
                    break ;
                },
            }
        }
    }

    /// Skips trivia, then consumes `text`, which must come next.
    fn consume(&mut self, text: &str) -> (r: Result<(), ParseError>)
        requires
            old(self)@.wf(),
        ensures
            yields(old(self)@, final(self)@, r, literal(old(self)@.remaining(), text@)),
    {
        let ghost st = self@;
        self.skip_trivia();
        let ghost here = self@;
        if self.starts_with(text) {
            proof {
                lemma_advances(here, text@.len() as int);
                assert(here.remaining().take(text@.len() as int) =~= text@);
                lemma_advances_then(
                    st,
                    here,
                    here.advance(text@.len() as int),
                    trivia_len(st.remaining()),
                    text@.len() as int,
                );
            }
            let width = byte_len(text);
            let index = self.index();
            *index += width;
            Ok(())
        } else {
            self.expected(text)
        }
    }

    /// Skips trivia, then parses a name: ASCII letters and digits and the
    /// characters `_ . - / $`.
    fn parse_name(&mut self) -> (r: Result<String, ParseError>)
        requires
            old(self)@.wf(),
        ensures
            yields_text(old(self)@, final(self)@, r, name(old(self)@.remaining())),
    {
        let ghost st = self@;
        self.skip_trivia();
        let ghost here = self@;
        let name = self.take_while(is_name_char);
        proof {
            lemma_name_len_unique(here.remaining(), name@.len() as int);
            lemma_advances_then(st, here, self@, trivia_len(st.remaining()), name@.len() as int);
        }
        if name.is_empty() {
            self.expected("name")
        } else {
            Ok(name.to_owned())
        }
    }

    /// Skips trivia, then parses an unsigned number: decimal, hexadecimal
    /// after `0x`, or binary after `0b`, where `_` may separate digits.
    fn parse_u64(&mut self) -> (r: Result<u64, ParseError>)
        requires
            old(self)@.wf(),
        ensures
            yields(old(self)@, final(self)@, r, number(old(self)@.remaining())),
    {
        let ghost st = self@;
        let ghost rem = st.remaining();
        let ghost t = trivia_len(rem);
        self.skip_trivia();
        let ghost here = self@;
        proof {
            lemma_stays(here);
            reveal_strlit("0x");
            reveal_strlit("0b");
        }
        let radix: u32 = if self.starts_with("0x") {
            self.advance_many(2);
            16
        } else if self.starts_with("0b") {
            self.advance_many(2);
            2
        } else {
            10
        };
        let ghost pre = radix_prefix_len(rem.skip(t));
        let ghost body = self@;
        proof {
            assert(radix == radix_of(rem.skip(t)));
            lemma_advances_then(st, here, body, t, pre);
        }
        let accept = |c: char| -> (b: bool)
            ensures
                b == spec_is_number_char(c, radix),
            {
                is_number_char(c, radix)
            };
        let run = self.take_while(accept);
        let digits = strip_separators(run);
        proof {
            lemma_numeric_len_unique(body.remaining(), radix, run@.len() as int);
            lemma_advances_then(st, body, self@, t + pre, run@.len() as int);
            assert forall|i: int| 0 <= i < digits@.len() implies spec_is_digit(
                #[trigger] digits@[i],
                radix,
            ) by {
                let j = choose|j: int| 0 <= j < run@.len() && run@[j] == digits@[i];
                assert(spec_is_number_char(body.remaining()[j], radix));
            }
        }
        if digits.as_str().is_empty() {
            self.expected("numeric digit")
        } else {
            match u64_from_digits(digits.as_str(), radix) {
                Ok(value) => Ok(value),
                Err(info) => self.expected_and("integer", info.as_str()),
            }
        }
    }

    /// Parses one character, plain or escaped: `\u{..}` with the hexadecimal
    /// number of a code point, `\0`, `\n`, `\r`, `\t`, `\'`, `\"` or `\\`.
    fn parse_char(&mut self) -> (r: Result<char, ParseError>)
        requires
            old(self)@.wf(),
        ensures
            yields(old(self)@, final(self)@, r, character(old(self)@.remaining())),
    {
        let ghost st = self@;
        let ghost rem = st.remaining();
        let head = match self.advance_one() {
            Some(c) => c,
            None => {
                return self.expected("char");
            },
        };
        if head != '\\' {
            return Ok(head);
        }
        let ghost after_head = self@;
        let escape = match self.advance_one() {
            Some(c) => c,
            None => {
                return self.expected("escaped-char");
            },
        };
        let ghost after_escape = self@;
        proof {
            lemma_advances_then(st, after_head, after_escape, 1, 1);
        }
        if escape == 'u' {
            let ghost open = literal(rem.skip(2), "{"@);
            match self.consume("{") {
                Ok(()) => {},
                Err(e) => {
                    proof {
                        lemma_advances_then(st, after_escape, self@, 2, open.consumed);
                    }
                    return Err(e);
                },
            }
            let ghost digits = self@;
            proof {
                lemma_advances_then(st, after_escape, digits, 2, open.consumed);
            }
            let hex_digit = |c: char| -> (b: bool)
                ensures
                    b == spec_is_digit(c, 16),
                {
                    is_digit(c, 16)
                };
            let hex = self.take_while(hex_digit);
            let ghost n = hex@.len() as int;
            let ghost closing = self@;
            let ghost close = literal(closing.remaining(), "}"@);
            proof {
                lemma_hex_len_unique(digits.remaining(), n);
                lemma_advances_then(st, digits, closing, 2 + open.consumed, n);
            }
            match self.consume("}") {
                Ok(()) => {},
                Err(e) => {
                    proof {
                        lemma_advances_then(
                            st,
                            closing,
                            self@,
                            2 + open.consumed + n,
                            close.consumed,
                        );
                    }
                    return Err(e);
                },
            }
            proof {
                lemma_advances_then(st, closing, self@, 2 + open.consumed + n, close.consumed);
            }
            let scalar = match u64_from_digits(hex, 16) {
                Ok(v) => if v <= 0xFFFF_FFFF {
                    core::char::from_u32(v as u32)
                } else {
                    None
                },
                Err(_) => None,
            };
            proof {
                if scalar is Some {
                    vstd::utf8::char_u32_cast(scalar.unwrap(), digits_value(hex@, 16) as u32);
                }
            }
            match scalar {
                Some(c) => Ok(c),
                None => self.expected("unicode-codepoint"),
            }
        } else if escape == '0' {
            Ok('\0')
        } else if escape == 'n' {
            Ok('\n')
        } else if escape == 'r' {
            Ok('\r')
        } else if escape == 't' {
            Ok('\t')
        } else if escape == '\'' || escape == '"' || escape == '\\' {
            Ok(escape)
        } else {
            let mut what = String::from_str("\\");
            what.push(escape);
            self.expected(what.as_str())
        }
    }

    /// Skips trivia, then parses a character between single quotes. A failure
    /// is returned as its message.
    fn parse_quoted_char(&mut self) -> (r: Result<char, String>)
        requires
            old(self)@.wf(),
        ensures
            old(self)@.advances_to(final(self)@, quoted_char(old(self)@.remaining()).consumed),
            match quoted_char(old(self)@.remaining()).result {
                Ok(c) => r == Ok::<char, String>(c),
                Err(missing) => r matches Err(message) && message@ == failure_message(
                    final(self)@,
                    missing,
                ),
            },
    {
        let ghost st = self@;
        let ghost rem = st.remaining();
        let ghost open = literal(rem, "'"@);
        self.skip_trivia();
        let ghost skipped = self@;
        proof {
            lemma_literal_after_trivia(rem, "'"@);
        }
        match self.consume("'") {
            Ok(()) => {},
            Err(e) => {
                proof {
                    lemma_advances_then(
                        st,
                        skipped,
                        self@,
                        trivia_len(rem),
                        open.consumed - trivia_len(rem),
                    );
                }
                return Err(e.message);
            },
        }
        let ghost inside = self@;
        let ghost inner = character(inside.remaining());
        proof {
            lemma_advances_then(
                st,
                skipped,
                inside,
                trivia_len(rem),
                open.consumed - trivia_len(rem),
            );
        }
        let chr = match self.parse_char() {
            Ok(c) => c,
            Err(e) => {
                proof {
                    lemma_advances_then(st, inside, self@, open.consumed, inner.consumed);
                }
                return Err(e.message);
            },
        };
        let ghost closing = self@;
        let ghost close = literal(closing.remaining(), "'"@);
        proof {
            lemma_advances_then(st, inside, closing, open.consumed, inner.consumed);
        }
        match self.consume("'") {
            Ok(()) => {},
            Err(e) => {
                proof {
                    lemma_advances_then(
                        st,
                        closing,
                        self@,
                        open.consumed + inner.consumed,
                        close.consumed,
                    );
                }
                return Err(e.message);
            },
        }
        proof {
            lemma_advances_then(
                st,
                closing,
                self@,
                open.consumed + inner.consumed,
                close.consumed,
            );
        }
        Ok(chr)
    }

    /// Skips trivia, then parses a string between double quotes, in which
    /// each character is written as `parse_char` reads it.
    fn parse_quoted_string(&mut self) -> (r: Result<String, ParseError>)
        requires
            old(self)@.wf(),
        ensures
            yields_text(old(self)@, final(self)@, r, quoted_string(old(self)@.remaining())),
    {
        let ghost st = self@;
        let ghost rem = st.remaining();
        let ghost open = literal(rem, "\""@);
        self.skip_trivia();
        let ghost skipped = self@;
        proof {
            lemma_literal_after_trivia(rem, "\""@);
        }
        match self.consume("\"") {
            Ok(()) => {},
            Err(e) => {
                proof {
                    lemma_advances_then(
                        st,
                        skipped,
                        self@,
                        trivia_len(rem),
                        open.consumed - trivia_len(rem),
                    );
                }
                return Err(e);
            },
        }
        let ghost inside = self@;
        let ghost body = inside.remaining();
        let ghost mut k: int = 0;
        let mut result = String::new();
        proof {
            lemma_advances_then(
                st,
                skipped,
                inside,
                trivia_len(rem),
                open.consumed - trivia_len(rem),
            );
            lemma_stays(inside);
            assert(body.skip(0) =~= body);
            assert(Seq::<char>::empty() + string_body(body).result->Ok_0 =~= string_body(
                body,
            ).result->Ok_0);
        }
        loop
            invariant
                st.wf(),
                st == old(self)@,
                rem == st.remaining(),
                open == literal(rem, "\""@),
                open.result is Ok,
                st.advances_to(inside, open.consumed),
                inside.wf(),
                body == inside.remaining(),
                body == rem.skip(open.consumed),
                inside.advances_to(self@, k),
                string_body(body) == continued(result@, k, string_body(body.skip(k))),
            ensures
                string_body(body.skip(k)).consumed == 0,
                string_body(body.skip(k)).result == Ok::<Seq<char>, Missing>(Seq::empty()),
            decreases body.len() - k,
        {
            let ghost here = self@;
            match self.peek_one() {
                Some(chr) => {
                    if chr == '"' {
                        break ;
                    } else {
                        let ghost n = character(here.remaining()).consumed;
                        proof {
                            lemma_character_bounds(here.remaining());
                        }
                        match self.parse_char() {
                            Ok(c) => {
                                proof {
                                    lemma_advances_then(inside, here, self@, k, n);
                                    lemma_string_body_step(here.remaining(), result@, k);
                                    k = k + n;
                                }
                                result.push(c);
                            },
                            Err(e) => {
                                proof {
                                    lemma_advances_then(inside, here, self@, k, n);
                                    lemma_advances_then(st, inside, self@, open.consumed, k + n);
                                }
                                return Err(e);
                            },
                        }
                    }
                },
                None => {
                    break ;
                },
            }
        }
        let ghost closing = self@;
        let ghost close = literal(closing.remaining(), "\""@);
        proof {
            assert(result@ + Seq::<char>::empty() =~= result@);
            lemma_advances_then(st, inside, closing, open.consumed, k);
        }
        match self.consume("\"") {
            Ok(()) => {},
            Err(e) => {
                proof {
                    lemma_advances_then(st, closing, self@, open.consumed + k, close.consumed);
                }
                return Err(e);
            },
        }
        proof {
            lemma_advances_then(st, closing, self@, open.consumed + k, close.consumed);
        }
        Ok(result)
    }
}

} // verus!
