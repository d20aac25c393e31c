//! The errors a template can fail with, while it is parsed or while values
//! are formatted into it.

use vstd::prelude::*;
use crate::text::{push_str, push_u64, to_string, decimal_digits};

verus! {

/// Errors produced while parsing a template or formatting values into it.
#[derive(Debug)]
pub enum Error {
    /// The template could not be parsed: the position and message of each
    /// syntax error found.
    Parse { errors: Vec<ParseError> },
    /// A placeholder could not be evaluated against the provided values.
    Format { message: String, position: usize },
    /// An escape sequence that resolves to nothing was reached while
    /// rendering, outside the error handling of the placeholders: in a literal
    /// of the top-level format, or in a formatter's options.
    Escape { message: String, position: usize },
    /// The format specifier is a valid one outside the supported subset, such
    /// as a custom numeric pattern.
    UnsupportedSpec { spec: String, message: String, position: usize },
    /// No culture of that name is known.
    UnknownCulture { name: String },
}

/// One syntax error of a template.
#[derive(Debug)]
pub struct ParseError {
    pub message: String,
    pub position: usize,
}

/// The syntax errors of a template as [`Error::to_text`] lists them: each
/// as `; at {position}: {message}`.
pub open spec fn parse_errors_text(errors: Seq<ParseError>) -> Seq<char>
    decreases errors.len(),
{
    if errors.len() == 0 {
        Seq::empty()
    } else {
        parse_errors_text(errors.drop_last()) + "; at "@ + decimal_digits(
            errors.last().position as nat,
        ) + ": "@ + errors.last().message@
    }
}

/// The message a reader is shown for an error.
pub open spec fn error_text(e: Error) -> Seq<char> {
    match e {
        Error::Parse { errors } => "template parse error"@ + parse_errors_text(errors@),
        Error::Format { message, position } => "formatting error at "@ + decimal_digits(
            position as nat,
        ) + ": "@ + message@,
        Error::Escape { message, position } => "formatting error at "@ + decimal_digits(
            position as nat,
        ) + ": "@ + message@,
        Error::UnsupportedSpec { message, position, .. } => "formatting error at "@
            + decimal_digits(position as nat) + ": "@ + message@,
        Error::UnknownCulture { name } => "unknown culture \""@ + name@
            + "\": no data is shipped for it"@,
    }
}

impl Error {
    /// The message a reader is shown for this error.
    pub fn to_text(&self) -> (res: String)
        ensures
            res@ == error_text(*self),
    {
        let mut out: Vec<char> = Vec::new();
        match self {
            Error::Parse { errors } => {
                push_str(&mut out, "template parse error");
                let ghost head = out@;
                let mut i: usize = 0;
                while i < errors.len()
                    invariant
                        i <= errors.len(),
                        out@ == head + parse_errors_text(errors@.take(i as int)),
                    decreases errors.len() - i,
                {
                    assert(errors@.take(i + 1).drop_last() == errors@.take(i as int));
                    assert(errors@.take(i + 1).last() == errors@[i as int]);
                    push_str(&mut out, "; at ");
                    push_u64(&mut out, errors[i].position as u64);
                    push_str(&mut out, ": ");
                    push_str(&mut out, errors[i].message.as_str());
                    i += 1;
                }
                assert(errors@.take(errors.len() as int) == errors@);
            },
            Error::Format { message, position } | Error::Escape { message, position } => {
                push_str(&mut out, "formatting error at ");
                push_u64(&mut out, *position as u64);
                push_str(&mut out, ": ");
                push_str(&mut out, message.as_str());
            },
            Error::UnsupportedSpec { message, position, .. } => {
                push_str(&mut out, "formatting error at ");
                push_u64(&mut out, *position as u64);
                push_str(&mut out, ": ");
                push_str(&mut out, message.as_str());
            },
            Error::UnknownCulture { name } => {
                push_str(&mut out, "unknown culture \"");
                push_str(&mut out, name.as_str());
                push_str(&mut out, "\": no data is shipped for it");
            },
        }
        to_string(&out)
    }

    /// The message the error carries, without the position in front of it;
    /// for a parse error and an unknown culture, the whole text.
    pub fn message(&self) -> (res: String)
        ensures
            self matches Error::Format { message, .. } ==> res@ == message@,
            self matches Error::Escape { message, .. } ==> res@ == message@,
            self matches Error::UnsupportedSpec { message, .. } ==> res@ == message@,
            (self is Parse || self is UnknownCulture) ==> res@ == error_text(*self),
    {
        match self {
            Error::Format { message, .. } => message.clone(),
            Error::Escape { message, .. } => message.clone(),
            Error::UnsupportedSpec { message, .. } => message.clone(),
            _ => self.to_text(),
        }
    }
}

} // verus!
