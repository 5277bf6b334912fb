//! What each parser makes of a text, as functions on sequences of code
//! points: how many of them it consumes, and the value it yields or the thing
//! it finds missing.

use crate::chars::{spec_is_digit, spec_is_name_char, spec_is_number_char, spec_is_space};
use crate::error::Missing;
use crate::number::{digits_value, int_error_text, without_separators};
use crate::state::{lemma_advance, lemma_advance_zero, State};
use vstd::prelude::*;
use vstd::utf8::is_scalar;

verus! {

/// The outcome of a parser on a text.
pub struct Parsed<T> {
    /// How many code points of the text are consumed.
    pub consumed: int,
    /// The value, or what was missing where parsing stopped.
    pub result: Result<T, Missing>,
}

/// Length of the longest prefix of `s` whose code points all satisfy `p`.
pub open spec fn run_len(s: Seq<char>, p: spec_fn(char) -> bool) -> int
    decreases s.len(),
{
    if s.len() > 0 && p(s[0]) {
        1 + run_len(s.drop_first(), p)
    } else {
        0
    }
}

/// Length of the ASCII whitespace at the start of `s`.
pub open spec fn spaces_len(s: Seq<char>) -> int {
    run_len(s, |c: char| spec_is_space(c))
}

/// Length of the trivia at the start of `s`, scanned code point by code
/// point; `in_comment` says whether `s` starts inside a line comment. Outside
/// a comment, whitespace is trivia and `//` opens a comment; a comment runs up
/// to and including the next line feed, or to the end of `s`.
pub open spec fn trivia_scan(s: Seq<char>, in_comment: bool) -> int
    decreases s.len(),
{
    if s.len() == 0 {
        0
    } else if in_comment {
        1 + trivia_scan(s.drop_first(), s[0] != '\n')
    } else if spec_is_space(s[0]) {
        1 + trivia_scan(s.drop_first(), false)
    } else if "//"@.is_prefix_of(s) {
        1 + trivia_scan(s.drop_first(), true)
    } else {
        0
    }
}

/// Length of the whitespace and line comments at the start of `s`.
pub open spec fn trivia_len(s: Seq<char>) -> int {
    trivia_scan(s, false)
}

/// `s` without the trivia at its start.
pub open spec fn after_trivia(s: Seq<char>) -> Seq<char> {
    s.skip(trivia_len(s))
}

/// Trivia, then the literal `lit`.
pub open spec fn literal(s: Seq<char>, lit: Seq<char>) -> Parsed<()> {
    let t = trivia_len(s);
    if lit.is_prefix_of(s.skip(t)) {
        Parsed { consumed: t + lit.len(), result: Ok(()) }
    } else {
        Parsed { consumed: t, result: Err(Missing::of(lit)) }
    }
}

/// Length of the name characters at the start of `s`.
pub open spec fn name_len(s: Seq<char>) -> int {
    run_len(s, |c: char| spec_is_name_char(c))
}

/// Length of the digits of base `radix` and separators at the start of `s`.
pub open spec fn numeric_len(s: Seq<char>, radix: u32) -> int {
    run_len(s, |c: char| spec_is_number_char(c, radix))
}

/// Length of the hexadecimal digits at the start of `s`.
pub open spec fn hex_len(s: Seq<char>) -> int {
    run_len(s, |c: char| spec_is_digit(c, 16))
}

/// Trivia, then a name: the longest run of name characters, which must not be
/// empty.
pub open spec fn name(s: Seq<char>) -> Parsed<Seq<char>> {
    let t = trivia_len(s);
    let n = name_len(s.skip(t));
    if n == 0 {
        Parsed { consumed: t, result: Err(Missing::of("name"@)) }
    } else {
        Parsed { consumed: t + n, result: Ok(s.skip(t).take(n)) }
    }
}

/// The base that the start of `s` announces: 16 after `0x`, 2 after `0b`,
/// else 10.
pub open spec fn radix_of(s: Seq<char>) -> u32 {
    if "0x"@.is_prefix_of(s) {
        16
    } else if "0b"@.is_prefix_of(s) {
        2
    } else {
        10
    }
}

/// Length of the prefix that announces the base.
pub open spec fn radix_prefix_len(s: Seq<char>) -> int {
    if radix_of(s) == 10 {
        0
    } else {
        2
    }
}

/// Trivia, then an unsigned number: an optional `0x` or `0b`, then the longest
/// run of digits of that base and `_`. The separators do not count; at least
/// one digit must be left, and the number must fit in 64 bits.
pub open spec fn number(s: Seq<char>) -> Parsed<u64> {
    let t = trivia_len(s);
    let radix = radix_of(s.skip(t));
    let body = s.skip(t + radix_prefix_len(s.skip(t)));
    let n = numeric_len(body, radix);
    let digits = without_separators(body.take(n));
    let consumed = t + radix_prefix_len(s.skip(t)) + n;
    if digits.len() == 0 {
        Parsed { consumed, result: Err(Missing::of("numeric digit"@)) }
    } else if digits_value(digits, radix) <= u64::MAX {
        Parsed { consumed, result: Ok(digits_value(digits, radix) as u64) }
    } else {
        Parsed {
            consumed,
            result: Err(Missing::with("integer"@, int_error_text(digits, radix))),
        }
    }
}

/// The code point that hexadecimal digits name, where they name one.
pub open spec fn code_point(hex: Seq<char>) -> Option<char> {
    let v = digits_value(hex, 16);
    if hex.len() > 0 && v <= u32::MAX && is_scalar(v as u32) {
        Some(v as u32 as char)
    } else {
        None
    }
}

/// What follows `\u`: `{`, hexadecimal digits, `}`, with trivia allowed
/// before either brace. The digits must name a code point.
pub open spec fn unicode_escape(s: Seq<char>) -> Parsed<char> {
    let open = literal(s, "{"@);
    if open.result is Err {
        Parsed { consumed: open.consumed, result: Err(Missing::of("{"@)) }
    } else {
        let body = s.skip(open.consumed);
        let n = hex_len(body);
        let close = literal(body.skip(n), "}"@);
        let consumed = open.consumed + n + close.consumed;
        if close.result is Err {
            Parsed { consumed, result: Err(Missing::of("}"@)) }
        } else {
            match code_point(body.take(n)) {
                Some(c) => Parsed { consumed, result: Ok(c) },
                None => Parsed { consumed, result: Err(Missing::of("unicode-codepoint"@)) },
            }
        }
    }
}

/// The character that the escape `\c` stands for, for the one-letter escapes.
pub open spec fn simple_escape(c: char) -> Option<char> {
    if c == '0' {
        Some('\0')
    } else if c == 'n' {
        Some('\n')
    } else if c == 'r' {
        Some('\r')
    } else if c == 't' {
        Some('\t')
    } else if c == '\'' || c == '"' || c == '\\' {
        Some(c)
    } else {
        None
    }
}

/// One character, plain or escaped; no trivia is skipped before it.
pub open spec fn character(s: Seq<char>) -> Parsed<char> {
    if s.len() == 0 {
        Parsed { consumed: 0, result: Err(Missing::of("char"@)) }
    } else if s[0] != '\\' {
        Parsed { consumed: 1, result: Ok(s[0]) }
    } else if s.len() == 1 {
        Parsed { consumed: 1, result: Err(Missing::of("escaped-char"@)) }
    } else if s[1] == 'u' {
        let rest = unicode_escape(s.skip(2));
        Parsed { consumed: 2 + rest.consumed, result: rest.result }
    } else {
        match simple_escape(s[1]) {
            Some(c) => Parsed { consumed: 2, result: Ok(c) },
            None => Parsed { consumed: 2, result: Err(Missing::of("\\"@.push(s[1]))) },
        }
    }
}

/// Trivia, then `'`, one character, and `'`; trivia is allowed before the
/// closing quote.
pub open spec fn quoted_char(s: Seq<char>) -> Parsed<char> {
    let open = literal(s, "'"@);
    if open.result is Err {
        Parsed { consumed: open.consumed, result: Err(Missing::of("'"@)) }
    } else {
        let chr = character(s.skip(open.consumed));
        match chr.result {
            Err(missing) => Parsed {
                consumed: open.consumed + chr.consumed,
                result: Err(missing),
            },
            Ok(c) => {
                let close = literal(s.skip(open.consumed + chr.consumed), "'"@);
                let consumed = open.consumed + chr.consumed + close.consumed;
                if close.result is Err {
                    Parsed { consumed, result: Err(Missing::of("'"@)) }
                } else {
                    Parsed { consumed, result: Ok(c) }
                }
            },
        }
    }
}

/// The characters of a string up to, and without, the `"` that ends it or the
/// end of `s`.
pub open spec fn string_body(s: Seq<char>) -> Parsed<Seq<char>>
    decreases s.len(),
    via string_body_decreases
{
    if s.len() == 0 || s[0] == '"' {
        Parsed { consumed: 0, result: Ok(Seq::empty()) }
    } else {
        let chr = character(s);
        match chr.result {
            Err(missing) => Parsed { consumed: chr.consumed, result: Err(missing) },
            Ok(c) => {
                let rest = string_body(s.skip(chr.consumed));
                Parsed {
                    consumed: chr.consumed + rest.consumed,
                    result: match rest.result {
                        Ok(chars) => Ok(seq![c] + chars),
                        Err(missing) => Err(missing),
                    },
                }
            },
        }
    }
}

#[via_fn]
proof fn string_body_decreases(s: Seq<char>) {
    lemma_character_bounds(s);
}

/// The outcome of a string's body whose first `k` code points gave the
/// characters `acc` and whose remainder has the outcome `rest`.
pub open spec fn continued(acc: Seq<char>, k: int, rest: Parsed<Seq<char>>) -> Parsed<
    Seq<char>,
> {
    Parsed {
        consumed: k + rest.consumed,
        result: match rest.result {
            Ok(chars) => Ok(acc + chars),
            Err(missing) => Err(missing),
        },
    }
}

/// Trivia, then `"`, the characters of the string, and `"`.
pub open spec fn quoted_string(s: Seq<char>) -> Parsed<Seq<char>> {
    let open = literal(s, "\""@);
    if open.result is Err {
        Parsed { consumed: open.consumed, result: Err(Missing::of("\""@)) }
    } else {
        let body = string_body(s.skip(open.consumed));
        match body.result {
            Err(missing) => Parsed {
                consumed: open.consumed + body.consumed,
                result: Err(missing),
            },
            Ok(chars) => {
                let close = literal(s.skip(open.consumed + body.consumed), "\""@);
                let consumed = open.consumed + body.consumed + close.consumed;
                if close.result is Err {
                    Parsed { consumed, result: Err(Missing::of("\""@)) }
                } else {
                    Parsed { consumed, result: Ok(chars) }
                }
            },
        }
    }
}

/// A run is a prefix, all of it satisfies the predicate, and what follows it
/// does not.
pub proof fn lemma_run_len(s: Seq<char>, p: spec_fn(char) -> bool)
    ensures
        0 <= run_len(s, p) <= s.len(),
        forall|i: int| 0 <= i < run_len(s, p) ==> p(#[trigger] s[i]),
        run_len(s, p) < s.len() ==> !p(s[run_len(s, p)]),
    decreases s.len(),
{
    if s.len() > 0 && p(s[0]) {
        let tail = s.drop_first();
        lemma_run_len(tail, p);
        assert forall|i: int| 0 <= i < run_len(s, p) implies p(#[trigger] s[i]) by {
            if i > 0 {
                assert(s[i] == tail[i - 1]);
            }
        }
    }
}

/// Only the run has the properties of a run.
pub proof fn lemma_run_len_unique(s: Seq<char>, p: spec_fn(char) -> bool, n: int)
    requires
        0 <= n <= s.len(),
        forall|i: int| 0 <= i < n ==> p(#[trigger] s[i]),
        n < s.len() ==> !p(s[n]),
    ensures
        n == run_len(s, p),
    decreases s.len(),
{
    if n > 0 {
        let tail = s.drop_first();
        assert(p(s[0]));
        assert forall|i: int| 0 <= i < n - 1 implies p(#[trigger] tail[i]) by {
            assert(tail[i] == s[i + 1]);
        }
        lemma_run_len_unique(tail, p, n - 1);
    }
}

/// Only the whitespace at the start of `s` is a prefix of whitespace that no
/// whitespace follows.
pub proof fn lemma_spaces_len_unique(s: Seq<char>, n: int)
    requires
        0 <= n <= s.len(),
        forall|i: int| 0 <= i < n ==> spec_is_space(#[trigger] s[i]),
        n < s.len() ==> !spec_is_space(s[n]),
    ensures
        n == spaces_len(s),
{
    lemma_run_len_unique(s, |c: char| spec_is_space(c), n);
}

/// Only the name characters at the start of `s` are a prefix of name
/// characters that no name character follows.
pub proof fn lemma_name_len_unique(s: Seq<char>, n: int)
    requires
        0 <= n <= s.len(),
        forall|i: int| 0 <= i < n ==> spec_is_name_char(#[trigger] s[i]),
        n < s.len() ==> !spec_is_name_char(s[n]),
    ensures
        n == name_len(s),
{
    lemma_run_len_unique(s, |c: char| spec_is_name_char(c), n);
}

/// Only the digits and separators at the start of `s` are a prefix of them
/// that none of them follows.
pub proof fn lemma_numeric_len_unique(s: Seq<char>, radix: u32, n: int)
    requires
        0 <= n <= s.len(),
        forall|i: int| 0 <= i < n ==> spec_is_number_char(#[trigger] s[i], radix),
        n < s.len() ==> !spec_is_number_char(s[n], radix),
    ensures
        n == numeric_len(s, radix),
{
    lemma_run_len_unique(s, |c: char| spec_is_number_char(c, radix), n);
}

/// Only the hexadecimal digits at the start of `s` are a prefix of them that
/// none of them follows.
pub proof fn lemma_hex_len_unique(s: Seq<char>, n: int)
    requires
        0 <= n <= s.len(),
        forall|i: int| 0 <= i < n ==> spec_is_digit(#[trigger] s[i], 16),
        n < s.len() ==> !spec_is_digit(s[n], 16),
    ensures
        n == hex_len(s),
{
    lemma_run_len_unique(s, |c: char| spec_is_digit(c, 16), n);
}

/// Trivia is a prefix.
pub proof fn lemma_trivia_scan_bounds(s: Seq<char>, in_comment: bool)
    ensures
        0 <= trivia_scan(s, in_comment) <= s.len(),
    decreases s.len(),
{
    if s.len() > 0 {
        lemma_trivia_scan_bounds(s.drop_first(), s[0] != '\n');
        lemma_trivia_scan_bounds(s.drop_first(), false);
        lemma_trivia_scan_bounds(s.drop_first(), true);
    }
}

/// After the trivia that a scan finds, no trivia follows.
pub proof fn lemma_trivia_scan_complete(s: Seq<char>, in_comment: bool)
    ensures
        trivia_len(s.skip(trivia_scan(s, in_comment))) == 0,
    decreases s.len(),
{
    let n = trivia_scan(s, in_comment);
    if s.len() == 0 || (!in_comment && !spec_is_space(s[0]) && !"//"@.is_prefix_of(s)) {
        assert(s.skip(0) =~= s);
    } else {
        let tail = s.drop_first();
        let next = if in_comment {
            s[0] != '\n'
        } else {
            !spec_is_space(s[0])
        };
        lemma_trivia_scan_complete(tail, next);
        lemma_trivia_scan_bounds(tail, next);
        assert(s.skip(n) =~= tail.skip(n - 1));
    }
}

/// A literal is matched within the text.
pub proof fn lemma_literal_bounds(s: Seq<char>, lit: Seq<char>)
    ensures
        0 <= trivia_len(s) <= literal(s, lit).consumed <= s.len(),
{
    lemma_trivia_scan_bounds(s, false);
}

/// A `\u` escape is read within the text.
pub proof fn lemma_unicode_escape_bounds(s: Seq<char>)
    ensures
        0 <= unicode_escape(s).consumed <= s.len(),
{
    let open = literal(s, "{"@);
    lemma_literal_bounds(s, "{"@);
    if open.result is Ok {
        let body = s.skip(open.consumed);
        lemma_run_len(body, |c: char| spec_is_digit(c, 16));
        lemma_literal_bounds(body.skip(hex_len(body)), "}"@);
    }
}

/// A character is read within the text, and takes at least one code point
/// where there is one.
pub proof fn lemma_character_bounds(s: Seq<char>)
    ensures
        0 <= character(s).consumed <= s.len(),
        s.len() > 0 ==> character(s).consumed >= 1,
{
    if s.len() >= 2 {
        lemma_unicode_escape_bounds(s.skip(2));
    }
}

/// Where the trivia is skipped already, a literal is matched as before.
pub proof fn lemma_literal_after_trivia(s: Seq<char>, lit: Seq<char>)
    ensures
        literal(after_trivia(s), lit).consumed + trivia_len(s) == literal(s, lit).consumed,
        literal(after_trivia(s), lit).result == literal(s, lit).result,
{
    lemma_trivia_idempotent(s);
    assert(after_trivia(s).skip(0) =~= after_trivia(s));
}

/// Reading one character of a string's body, then the rest, is reading the
/// body.
pub proof fn lemma_string_body_step(s: Seq<char>, acc: Seq<char>, k: int)
    requires
        s.len() > 0,
        s[0] != '"',
        character(s).result is Ok,
    ensures
        continued(acc, k, string_body(s)) == continued(
            acc.push(character(s).result->Ok_0),
            k + character(s).consumed,
            string_body(s.skip(character(s).consumed)),
        ),
{
    let c = character(s).result->Ok_0;
    let rest = string_body(s.skip(character(s).consumed));
    if rest.result is Ok {
        let chars = rest.result->Ok_0;
        assert(acc + (seq![c] + chars) =~= acc.push(c) + chars);
    }
}

/// Skipping trivia twice skips no more than skipping it once.
pub proof fn lemma_trivia_idempotent(s: Seq<char>)
    ensures
        0 <= trivia_len(s) <= s.len(),
        trivia_len(after_trivia(s)) == 0,
        after_trivia(after_trivia(s)) == after_trivia(s),
{
    lemma_trivia_scan_bounds(s, false);
    lemma_trivia_scan_complete(s, false);
    assert(after_trivia(s).skip(0) =~= after_trivia(s));
}

/// A cursor that has skipped trivia stays where it is when it skips trivia
/// again.
pub proof fn lemma_skip_trivia_twice(st: State)
    requires
        st.wf(),
    ensures
        ({
            let once = st.advance(trivia_len(st.remaining()));
            once.advance(trivia_len(once.remaining())) == once
        }),
{
    let rem = st.remaining();
    lemma_trivia_idempotent(rem);
    lemma_advance(st, trivia_len(rem));
    lemma_advance_zero(st.advance(trivia_len(rem)));
}

/// `s` as it is written inside a quoted string: a backslash before each
/// backslash and each double quote.
pub open spec fn escaped(s: Seq<char>) -> Seq<char>
    decreases s.len(),
{
    if s.len() == 0 {
        Seq::empty()
    } else if s[0] == '\\' || s[0] == '"' {
        seq!['\\', s[0]] + escaped(s.drop_first())
    } else {
        seq![s[0]] + escaped(s.drop_first())
    }
}

/// `s` written as a quoted string.
pub open spec fn quoted(s: Seq<char>) -> Seq<char> {
    seq!['"'] + escaped(s) + seq!['"']
}

/// The body of a string that was written from `s` reads back as `s`, up to
/// the double quote that follows it.
pub proof fn lemma_string_body_of_escaped(s: Seq<char>, tail: Seq<char>)
    requires
        tail.len() > 0,
        tail[0] == '"',
    ensures
        string_body(escaped(s) + tail) == (Parsed {
            consumed: escaped(s).len() as int,
            result: Ok::<Seq<char>, Missing>(s),
        }),
    decreases s.len(),
{
    let text = escaped(s) + tail;
    if s.len() == 0 {
        assert(text =~= tail);
        assert(string_body(text).result->Ok_0 =~= s);
    } else {
        let rest = s.drop_first();
        lemma_string_body_of_escaped(rest, tail);
        let n = character(text).consumed;
        if s[0] == '\\' || s[0] == '"' {
            assert(text =~= seq!['\\', s[0]] + (escaped(rest) + tail));
            assert(text.skip(2) =~= escaped(rest) + tail);
            assert(text[1] == s[0]);
            assert(n == 2);
        } else {
            assert(text =~= seq![s[0]] + (escaped(rest) + tail));
            assert(text.skip(1) =~= escaped(rest) + tail);
            assert(n == 1);
        }
        assert(character(text).result == Ok::<char, Missing>(s[0]));
        assert(seq![s[0]] + rest =~= s);
        assert(string_body(text).result->Ok_0 =~= s);
    }
}

/// A string that is written with its backslashes and double quotes escaped,
/// and put between double quotes, is parsed back as itself, whatever follows
/// the closing quote.
pub proof fn lemma_quoted_string_round_trip(s: Seq<char>, tail: Seq<char>)
    ensures
        quoted_string(quoted(s) + tail) == (Parsed {
            consumed: quoted(s).len() as int,
            result: Ok::<Seq<char>, Missing>(s),
        }),
{
    reveal_strlit("\"");
    reveal_strlit("//");
    let text = quoted(s) + tail;
    let closing = seq!['"'] + tail;
    assert("\""@ =~= seq!['"']);
    assert(text[0] == '"');
    assert(!"//"@.is_prefix_of(text)) by {
        if "//"@.is_prefix_of(text) {
            assert(text.subrange(0, 2)[0] == '/');
        }
    }
    assert(trivia_len(text) == 0);
    assert(text.skip(0) =~= text);
    assert("\""@.is_prefix_of(text)) by {
        assert(text.subrange(0, 1) =~= seq!['"']);
    }
    assert(literal(text, "\""@).consumed == 1);
    assert(text.skip(1) =~= escaped(s) + closing);
    lemma_string_body_of_escaped(s, closing);
    let n = escaped(s).len() as int;
    assert(text.skip(1 + n) =~= closing);
    assert(!"//"@.is_prefix_of(closing)) by {
        if "//"@.is_prefix_of(closing) {
            assert(closing.subrange(0, 2)[0] == '/');
        }
    }
    assert(trivia_len(closing) == 0);
    assert(closing.skip(0) =~= closing);
    assert("\""@.is_prefix_of(closing)) by {
        assert(closing.subrange(0, 1) =~= seq!['"']);
    }
    assert(literal(closing, "\""@).consumed == 1);
}

} // verus!
