//! A readable report of one parse error.
use vstd::prelude::*;
use vstd::string::StringExecFns;
use std::ops::Range;
use crate::error::{Expected, ParseError};
use crate::render::{decimal, push_decimal};
use crate::scan::push_char;

verus! {

/// One problem, as a message and the byte span of the input it is about.
#[derive(Debug, PartialEq, Eq)]
pub struct Diagnostic {
    pub message: String,
    pub span: Range<usize>,
}

/// How an expected element is named in a message.
pub open spec fn expected_text(e: Expected) -> Seq<char> {
    match e {
        Expected::OldFileHeader => "'--- '"@,
        Expected::NewFileHeader => "'+++ '"@,
        Expected::HunkHeader => "'@@ -'"@,
        Expected::Digit => "digit"@,
        Expected::NewRange => "' +'"@,
        Expected::HunkHeaderEnd => "' @@'"@,
    }
}

/// How what was found is named in a message: the character in quotes, or the end of
/// the input.
pub open spec fn found_text(found: Option<char>) -> Seq<char> {
    match found {
        Some(c) => "'"@ + seq![c] + "'"@,
        None => "end of input"@,
    }
}

/// The message of a diagnostic made from `e`.
pub open spec fn error_message(e: ParseError) -> Seq<char> {
    match e {
        ParseError::Unexpected { found, expected, .. } => "found "@ + found_text(found)
            + " expected "@ + expected_text(expected),
        ParseError::NumberTooLarge { .. } => "number too large to fit in target type"@,
    }
}

/// The span of `e`.
pub open spec fn error_span(e: ParseError) -> Range<usize> {
    match e {
        ParseError::Unexpected { span, .. } => span,
        ParseError::NumberTooLarge { span } => span,
    }
}

/// A diagnostic as text: `message at start..end`.
pub open spec fn diagnostic_text(d: Diagnostic) -> Seq<char> {
    d.message@ + " at "@ + decimal(d.span.start as nat) + ".."@ + decimal(d.span.end as nat)
}

fn expected_str(e: Expected) -> (t: &'static str)
    ensures
        t@ == expected_text(e),
{
    match e {
        Expected::OldFileHeader => "'--- '",
        Expected::NewFileHeader => "'+++ '",
        Expected::HunkHeader => "'@@ -'",
        Expected::Digit => "digit",
        Expected::NewRange => "' +'",
        Expected::HunkHeaderEnd => "' @@'",
    }
}

impl Diagnostic {
    /// The message.
    pub fn message(&self) -> (m: &str)
        ensures
            m@ == self.message@,
    {
        self.message.as_str()
    }

    /// The byte span of the input that the message is about.
    pub fn span(&self) -> (r: &Range<usize>)
        ensures
            *r == self.span,
    {
        &self.span
    }

    /// The diagnostic made from a parse error: its message and its span.
    pub fn from_error(error: &ParseError) -> (d: Diagnostic)
        ensures
            d.message@ == error_message(*error),
            d.span == error_span(*error),
    {
        let mut message = String::new();
        match error {
            ParseError::Unexpected { span, found, expected } => {
                message.append("found ");
                match found {
                    Some(c) => {
                        message.append("'");
                        push_char(&mut message, *c);
                        message.append("'");
                    },
                    None => {
                        message.append("end of input");
                    },
                }
                message.append(" expected ");
                message.append(expected_str(*expected));
                assert(message@ =~= error_message(*error));
                Diagnostic { message, span: Range { start: span.start, end: span.end } }
            },
            ParseError::NumberTooLarge { span } => {
                message.append("number too large to fit in target type");
                assert(message@ =~= error_message(*error));
                Diagnostic { message, span: Range { start: span.start, end: span.end } }
            },
        }
    }

    /// The diagnostic as text: `message at start..end`.
    pub fn to_text(&self) -> (t: String)
        ensures
            t@ == diagnostic_text(*self),
    {
        let mut t = String::new();
        t.append(self.message.as_str());
        t.append(" at ");
        push_decimal(&mut t, self.span.start);
        t.append("..");
        push_decimal(&mut t, self.span.end);
        assert(t@ =~= diagnostic_text(*self));
        t
    }
}

impl From<ParseError> for Diagnostic {
    fn from(error: ParseError) -> (d: Self)
        ensures
            d.message@ == error_message(error),
            d.span == error_span(error),
    {
        Diagnostic::from_error(&error)
    }
}

impl vstd::std_specs::convert::FromSpecImpl<ParseError> for Diagnostic {
    /// A diagnostic holds a `String`, which contracts know by its characters only, so the
    /// contract of `from` is stated over the message's characters and the span instead.
    open spec fn obeys_from_spec() -> bool {
        false
    }

    open spec fn from_spec(error: ParseError) -> Self {
        choose|d: Diagnostic| d.message@ == error_message(error) && d.span == error_span(error)
    }
}

impl Clone for Diagnostic {
    fn clone(&self) -> (copy: Self)
        ensures
            copy == *self,
    {
        Diagnostic {
            message: self.message.clone(),
            span: Range { start: self.span.start, end: self.span.end },
        }
    }
}

} // verus!
