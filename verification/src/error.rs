//! Parse failures: a byte span into the input and a rendered message.

use crate::state::{lemma_split, utf8_len, State};
use crate::text::state_of;
use vstd::prelude::*;
use vstd::std_specs::convert::FromSpecImpl;
use vstd::string::*;

verus! {

/// A parse failure.
#[derive(Debug, Hash)]
pub struct ParseError {
    /// Byte-indexed span of the failure,
    /// inclusive on the left and exclusive on the right.
    pub span: (usize, usize),
    /// Rendered message: what was expected, and the input around the span.
    pub message: String,
}

/// The excerpt of `text` around the bytes from `start` to `end`, with those
/// bytes marked, as `highlight_error::highlight_error` renders it.
pub uninterp spec fn highlighted(start: int, end: int, text: Seq<char>) -> Seq<char>;

/// End of the span that a failure at byte offset `position` gets: one byte
/// further, except at the largest offset that a `usize` holds.
pub open spec fn span_end(position: int) -> int {
    if position < usize::MAX {
        position + 1
    } else {
        position
    }
}

/// The message of a failure that expected `what`, shown with `context`.
pub open spec fn expected_message(what: Seq<char>, context: Seq<char>) -> Seq<char> {
    "\x1b[1mPARSE_ERROR\n- expected: \x1b[0m"@ + what + "\x1b[1m\n- detected:\n\x1b[0m"@ + context
}

/// The message of a failure that expected `what`, with a further line `info`.
pub open spec fn expected_message_with(
    what: Seq<char>,
    context: Seq<char>,
    info: Seq<char>,
) -> Seq<char> {
    expected_message(what, context) + "\x1b[1m\n - info:\n\x1b[0m"@ + info
}

/// What a parser found missing: the thing it expected and, for some failures,
/// a further line of detail.
pub struct Missing {
    /// What was expected.
    pub what: Seq<char>,
    /// The further line, where there is one.
    pub info: Option<Seq<char>>,
}

impl Missing {
    /// A missing `what`, with no further line.
    pub open spec fn of(what: Seq<char>) -> Missing {
        Missing { what, info: None }
    }

    /// A missing `what`, with the further line `info`.
    pub open spec fn with(what: Seq<char>, info: Seq<char>) -> Missing {
        Missing { what, info: Some(info) }
    }

    /// The message that reports this, shown with `context`.
    pub open spec fn message(self, context: Seq<char>) -> Seq<char> {
        match self.info {
            None => expected_message(self.what, context),
            Some(info) => expected_message_with(self.what, context, info),
        }
    }
}

/// `part` stands somewhere in `whole`, in one piece.
pub open spec fn occurs_in(part: Seq<char>, whole: Seq<char>) -> bool {
    exists|i: int|
        0 <= i && i + part.len() <= whole.len() && #[trigger] whole.subrange(
            i,
            i + part.len(),
        ) == part
}

/// Every message holds the word `expected` and names what was expected.
pub proof fn lemma_message_names_what(missing: Missing, context: Seq<char>)
    ensures
        occurs_in("expected"@, missing.message(context)),
        occurs_in(missing.what, missing.message(context)),
{
    reveal_strlit("\x1b[1mPARSE_ERROR\n- expected: \x1b[0m");
    reveal_strlit("expected");
    let head = "\x1b[1mPARSE_ERROR\n- expected: \x1b[0m"@;
    let message = missing.message(context);
    let at = head.len() as int;
    assert(message.subrange(18int, 18int + "expected"@.len()) =~= "expected"@);
    assert(message.subrange(at, at + missing.what.len()) =~= missing.what);
}

/// The message of the failure raised in state `at` for `missing`: it shows
/// the input around the span that starts at the position.
pub open spec fn failure_message(at: State, missing: Missing) -> Seq<char> {
    missing.message(highlighted(at.position, span_end(at.position), at.text))
}

impl ParseError {
    /// This is the failure raised in state `at` for `missing`.
    pub open spec fn reports(&self, at: State, missing: Missing) -> bool {
        &&& self.span.0 == at.position
        &&& self.span.1 == span_end(at.position)
        &&& self.message@ == failure_message(at, missing)
    }

    /// A failure with the given span and message.
    pub fn new<M: Into<String>>(span: (usize, usize), message: M) -> (e: ParseError)
        ensures
            e.span == span,
            call_ensures(M::into, (message,), e.message),
    {
        ParseError { span, message: message.into() }
    }

    /// The rendered message.
    pub fn to_string(&self) -> (s: String)
        ensures
            s@ == self.message@,
    {
        self.message.clone()
    }
}

impl Clone for ParseError {
    fn clone(&self) -> (e: ParseError)
        ensures
            e == *self,
    {
        ParseError { span: (self.span.0, self.span.1), message: self.message.clone() }
    }
}

/// A failure turns into its message.
impl From<ParseError> for String {
    fn from(val: ParseError) -> (s: String) {
        val.message
    }
}

impl FromSpecImpl<ParseError> for String {
    open spec fn obeys_from_spec() -> bool {
        true
    }

    open spec fn from_spec(val: ParseError) -> String {
        val.message
    }
}

/// Calls `highlight_error::highlight_error`, which renders the lines of `text`
/// that hold the bytes from `start` to `end`, with line numbers, and marks
/// those bytes. It panics unless `start <= end`; where `end` lies beyond the
/// text it first extends the text with spaces up to `end`, so `end` is kept to
/// one past the text here. The result depends on the three arguments alone,
/// which is all that the contract claims of it.
#[verifier::external_body]
fn highlight(start: usize, end: usize, text: &str) -> (r: String)
    requires
        start <= end <= utf8_len(text@) + 1,
    ensures
        r@ == highlighted(start as int, end as int, text@),
{
    highlight_error::highlight_error(start, end, text)
}

/// The failure for a missing `what` at byte offset `at` of `text`.
pub fn expected_at(text: &str, at: usize, what: &str) -> (e: ParseError)
    requires
        state_of(text, at).wf(),
    ensures
        e.reports(state_of(text, at), Missing::of(what@)),
{
    proof {
        lemma_split(state_of(text, at));
    }
    let end = at.saturating_add(1);
    let context = highlight(at, end, text);
    let mut message = String::from_str("\x1b[1mPARSE_ERROR\n- expected: \x1b[0m");
    message.append(what);
    message.append("\x1b[1m\n- detected:\n\x1b[0m");
    message.append(context.as_str());
    ParseError { span: (at, end), message }
}

/// The failure for a missing `what` at byte offset `at` of `text`, with the
/// further line `info`.
pub fn expected_with_at(text: &str, at: usize, what: &str, info: &str) -> (e: ParseError)
    requires
        state_of(text, at).wf(),
    ensures
        e.reports(state_of(text, at), Missing::with(what@, info@)),
{
    let ParseError { span, mut message } = expected_at(text, at, what);
    message.append("\x1b[1m\n - info:\n\x1b[0m");
    message.append(info);
    ParseError { span, message }
}

} // verus!
