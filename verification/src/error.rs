//! What goes wrong in a parse.
use vstd::prelude::*;
use std::ops::Range;
use vstd::string::StringExecFns;
use crate::diagnostic::{diagnostic_text, error_message, error_span, Diagnostic};

verus! {

/// What the parser expected where it failed.
#[derive(Clone, Copy, Debug, PartialEq, Eq)]
pub enum Expected {
    /// The `--- ` line that names the old file.
    OldFileHeader,
    /// The `+++ ` line that names the new file.
    NewFileHeader,
    /// The `@@ -` that opens a hunk header.
    HunkHeader,
    /// A decimal number of a line range.
    Digit,
    /// The ` +` between the two line ranges of a hunk header.
    NewRange,
    /// The ` @@` that closes the line ranges of a hunk header.
    HunkHeaderEnd,
}

/// One problem found in the input. Spans are byte offsets into the input.
#[derive(Debug, PartialEq, Eq)]
pub enum ParseError {
    /// The input stops being a unified diff at `span`, which covers the character found
    /// there (`found`), or is empty at the end of the input (`found` is `None`).
    ///
    /// The position is where the file patch that the input goes on with fails, read from
    /// where the file patches stop, and `expected` names the one element that was due
    /// there. It is not the furthest position that any alternative tried there reached,
    /// and no other alternatives are listed.
    Unexpected { span: Range<usize>, found: Option<char>, expected: Expected },
    /// A line range number at `span` does not fit in a `usize`; it is read as 0.
    NumberTooLarge { span: Range<usize> },
}

impl Clone for ParseError {
    fn clone(&self) -> (copy: Self)
        ensures
            copy == *self,
    {
        match self {
            ParseError::Unexpected { span, found, expected } => ParseError::Unexpected {
                span: Range { start: span.start, end: span.end },
                found: *found,
                expected: *expected,
            },
            ParseError::NumberTooLarge { span } => ParseError::NumberTooLarge {
                span: Range { start: span.start, end: span.end },
            },
        }
    }
}

/// The diagnostics of a failed parse, one per parse error, in order.
#[derive(Clone, Debug, PartialEq, Eq)]
pub struct Error {
    pub diagnostics: Vec<Diagnostic>,
}

/// The diagnostics joined by line breaks.
pub open spec fn joined_text(ds: Seq<Diagnostic>) -> Seq<char>
    decreases ds.len(),
{
    if ds.len() <= 1 {
        diagnostic_text(ds[0])
    } else {
        joined_text(ds.drop_last()) + "\n"@ + diagnostic_text(ds.last())
    }
}

/// An error as text: its diagnostics, one per line, or a general message where it has none.
pub open spec fn error_text(ds: Seq<Diagnostic>) -> Seq<char> {
    if ds.len() == 0 {
        "failed to parse unified diff"@
    } else {
        joined_text(ds)
    }
}

/// `d` is the diagnostic made from `e`.
pub open spec fn describes(d: Diagnostic, e: ParseError) -> bool {
    d.message@ == error_message(e) && d.span == error_span(e)
}

impl Error {
    /// The diagnostics, in order.
    pub fn iter(&self) -> (it: std::slice::Iter<'_, Diagnostic>)
        ensures
            vstd::std_specs::iter::IteratorSpec::remaining(&it) == self.diagnostics@.as_ref(),
    {
        self.diagnostics.as_slice().iter()
    }

    /// The diagnostics, by value.
    pub fn into_diagnostics(self) -> (ds: Vec<Diagnostic>)
        ensures
            ds@ == self.diagnostics@,
    {
        self.diagnostics
    }

    /// The error made from parse errors: one diagnostic for each, in order.
    pub fn from_errors(errors: &Vec<ParseError>) -> (e: Error)
        ensures
            e.diagnostics@.len() == errors@.len(),
            forall|i: int| 0 <= i < errors@.len() ==> describes(#[trigger] e.diagnostics@[i], errors@[i]),
    {
        let mut diagnostics: Vec<Diagnostic> = Vec::new();
        let mut k: usize = 0;
        while k < errors.len()
            invariant
                k <= errors@.len(),
                diagnostics@.len() == k,
                forall|i: int| 0 <= i < k ==> describes(#[trigger] diagnostics@[i], errors@[i]),
            decreases errors@.len() - k,
        {
            diagnostics.push(Diagnostic::from_error(&errors[k]));
            k = k + 1;
        }
        Error { diagnostics }
    }

    /// The error as text: each diagnostic as `message at start..end`, separated by line
    /// breaks, or `failed to parse unified diff` where there is none.
    pub fn to_text(&self) -> (t: String)
        ensures
            t@ == error_text(self.diagnostics@),
    {
        let n = self.diagnostics.len();
        if n == 0 {
            let mut t = String::new();
            t.append("failed to parse unified diff");
            return t;
        }
        let mut t = self.diagnostics[0].to_text();
        let mut k: usize = 1;
        while k < n
            invariant
                1 <= k <= n,
                n == self.diagnostics@.len(),
                t@ == joined_text(self.diagnostics@.take(k as int)),
            decreases n - k,
        {
            let ghost before = self.diagnostics@.take(k as int);
            t.append("\n");
            let line = self.diagnostics[k].to_text();
            t.append(line.as_str());
            k = k + 1;
            assert(self.diagnostics@.take(k as int).drop_last() =~= before);
        }
        assert(self.diagnostics@.take(n as int) =~= self.diagnostics@);
        t
    }
}

impl IntoIterator for Error {
    type Item = Diagnostic;
    type IntoIter = std::vec::IntoIter<Diagnostic>;

    fn into_iter(self) -> (it: std::vec::IntoIter<Diagnostic>)
        ensures
            vstd::std_specs::iter::IteratorSpec::remaining(&it) == self.diagnostics@,
    {
        self.diagnostics.into_iter()
    }
}

impl<'a> IntoIterator for &'a Error {
    type Item = &'a Diagnostic;
    type IntoIter = std::slice::Iter<'a, Diagnostic>;

    fn into_iter(self) -> (it: std::slice::Iter<'a, Diagnostic>)
        ensures
            vstd::std_specs::iter::IteratorSpec::remaining(&it) == self.diagnostics@.as_ref(),
    {
        self.diagnostics.as_slice().iter()
    }
}

impl From<Vec<ParseError>> for Error {
    fn from(errors: Vec<ParseError>) -> (e: Self)
        ensures
            e.diagnostics@.len() == errors@.len(),
            forall|i: int| 0 <= i < errors@.len() ==> describes(#[trigger] e.diagnostics@[i], errors@[i]),
    {
        Error::from_errors(&errors)
    }
}

impl vstd::std_specs::convert::FromSpecImpl<Vec<ParseError>> for Error {
    /// A diagnostic holds a `String`, which contracts know by its characters only, so the
    /// contract of `from` is stated over each diagnostic's message and span instead.
    open spec fn obeys_from_spec() -> bool {
        false
    }

    open spec fn from_spec(errors: Vec<ParseError>) -> Self {
        choose|e: Error|
            e.diagnostics@.len() == errors@.len() && forall|i: int|
                0 <= i < errors@.len() ==> describes(#[trigger] e.diagnostics@[i], errors@[i])
    }
}

} // verus!
