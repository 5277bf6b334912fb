//! Numbers written as digits in some base, and code points given by number.

use crate::chars::{digit_value, spec_is_digit};
use crate::state::{
    lemma_advances, lemma_advances_then, lemma_split, lemma_start, lemma_stays, utf8_len, State,
};
use crate::text::{byte_len, char_at, state_of, utf8_width};
use vstd::prelude::*;
use vstd::utf8::is_scalar;

verus! {

/// Every character of `digits` is a digit in base `radix`.
pub open spec fn all_digits(digits: Seq<char>, radix: u32) -> bool {
    forall|i: int| 0 <= i < digits.len() ==> spec_is_digit(#[trigger] digits[i], radix)
}

/// The number that `digits` write in base `radix`, most significant digit
/// first.
pub open spec fn digits_value(digits: Seq<char>, radix: u32) -> nat
    decreases digits.len(),
{
    if digits.len() == 0 {
        0
    } else {
        digits_value(digits.drop_last(), radix) * (radix as nat) + digit_value(
            digits.last(),
        ).unwrap_or(0)
    }
}

/// The digits of a run of digits and separators: the run without each `_`.
pub open spec fn without_separators(run: Seq<char>) -> Seq<char> {
    run.filter(|c: char| c != '_')
}

/// The text with which `u64::from_str_radix` describes its failure on
/// `digits` in base `radix`.
pub uninterp spec fn int_error_text(digits: Seq<char>, radix: u32) -> Seq<char>;

/// Calls `u64::from_str_radix`, which reads `digits` as a number in base
/// `radix` and panics unless `radix` is between 2 and 36. On a non-empty text
/// made of digits of that base alone it gives the number they write when that
/// fits in 64 bits, and fails when it does not; it fails on the empty text.
/// A failure is handed back as the text that describes it, of which the
/// contract claims only that it depends on the two arguments alone.
#[verifier::external_body]
pub(crate) fn u64_from_digits(digits: &str, radix: u32) -> (r: Result<u64, String>)
    requires
        2 <= radix <= 36,
    ensures
        digits@.len() == 0 ==> r is Err,
        digits@.len() > 0 && all_digits(digits@, radix) ==> (r is Ok <==> digits_value(
            digits@,
            radix,
        ) <= u64::MAX),
        all_digits(digits@, radix) ==> (r matches Ok(v) ==> v == digits_value(digits@, radix)),
        r matches Err(info) ==> info@ == int_error_text(digits@, radix),
{
    match u64::from_str_radix(digits, radix) {
        Ok(v) => Ok(v),
        Err(e) => Err(e.to_string()),
    }
}

/// `core::char::from_u32` gives the character with the number `i`, for
/// exactly those numbers that are Unicode scalar values.
pub assume_specification[ core::char::from_u32 ](i: u32) -> (r: Option<char>)
    ensures
        r is Some <==> is_scalar(i),
        r matches Some(c) ==> c as u32 == i,
;

/// Copies `run` without its separators.
pub fn strip_separators(run: &str) -> (digits: String)
    ensures
        digits@ == without_separators(run@),
        forall|i: int|
            0 <= i < digits@.len() ==> digits@[i] != '_' && run@.contains(#[trigger] digits@[i]),
{
    let end = byte_len(run);
    let mut digits = String::new();
    let mut at: usize = 0;
    let ghost start = State::start(run@);
    let ghost mut k: int = 0;
    proof {
        lemma_start(run@);
        lemma_stays(start);
        lemma_split(start);
        assert(run@.take(0) =~= Seq::<char>::empty());
        reveal(Seq::filter);
    }
    while at < end
        invariant
            end == utf8_len(run@),
            start == State::start(run@),
            start.wf(),
            start.remaining() == run@,
            start.advances_to(state_of(run, at), k),
            at <= end,
            at == end ==> k == run@.len(),
            digits@ == without_separators(run@.take(k)),
            forall|i: int|
                0 <= i < digits@.len() ==> digits@[i] != '_' && run@.contains(
                    #[trigger] digits@[i],
                ),
        decreases end - at,
    {
        let ghost here = state_of(run, at);
        proof {
            lemma_split(here);
        }
        if let Some(c) = char_at(run, at) {
            proof {
                lemma_advances(here, 1);
                assert(here.remaining().take(1) =~= seq![c]);
                lemma_advances_then(start, here, here.advance(1), k, 1);
                lemma_split(here.advance(1));
                assert(run@.take(k + 1) =~= run@.take(k).push(c));
                run@.take(k).lemma_filter_push(c, |c: char| c != '_');
                assert(run@[k] == c);
                k = k + 1;
            }
            if c != '_' {
                digits.push(c);
            }
            at += utf8_width(c);
        }
    }
    proof {
        assert(run@.take(k) =~= run@);
    }
    digits
}

} // verus!
