//! The formatter extensions: each takes a placeholder that names it — or, for
//! the auto-detecting ones, one that names no formatter — and renders the
//! value under its format.
//!
//! Each extension's decision — which part of the format a value picks, how a
//! condition compares, which range of a string is cut — is a function with an
//! exact contract; `try_evaluate_format` reads the placeholder, calls it and
//! renders what it picked.

use vstd::prelude::*;
use crate::text::{i64_text, push_u64, chars_of, integer_text, decimal_digits};
use crate::value::Value;
use time::standard::{constant_text, timespan_to_string};
use time::utility::ticks_spec;

pub mod choice;
pub mod conditional;
pub mod ismatch;
pub mod list;
pub mod localization;
pub mod null;
pub mod substring;
pub mod template;
pub mod time;

verus! {

/// The characters a formatter that reads a list of parts accepts as its split
/// character: `|`, `,` and `~`.
pub open spec fn is_valid_split_char(c: char) -> bool {
    c == '|' || c == ',' || c == '~'
}

/// A split character that is not one of `|`, `,` and `~` was passed to a
/// formatter's `set_split_char`.
#[derive(Debug, Clone, Copy, PartialEq, Eq, Structural)]
pub struct InvalidSplitChar(pub char);

impl InvalidSplitChar {
    /// The message of the error.
    pub fn to_text(&self) -> (res: String)
        ensures
            res@ == "Only '|', ',' and '~' are valid split chars."@,
    {
        crate::text::owned("Only '|', ',' and '~' are valid split chars.")
    }
}

/// `split_char` when it is a valid split character, the error otherwise.
pub fn valid_split_char(split_char: char) -> (res: Result<char, InvalidSplitChar>)
    ensures
        is_valid_split_char(split_char) ==> res == Ok::<char, InvalidSplitChar>(split_char),
        !is_valid_split_char(split_char) ==> res == Err::<char, InvalidSplitChar>(
            InvalidSplitChar(split_char),
        ),
{
    if split_char == '|' || split_char == ',' || split_char == '~' {
        Ok(split_char)
    } else {
        Err(InvalidSplitChar(split_char))
    }
}

/// The text a value is matched by — .NET's `ToString()` of it — or `None`
/// for a null, a list and a dictionary, which have no text to match.
pub open spec fn value_text_spec(v: Value) -> Option<Seq<char>> {
    match v {
        Value::String(s) => Some(s@),
        Value::Bool(b) => Some(
            if b {
                "True"@
            } else {
                "False"@
            },
        ),
        Value::Int(n) => Some(integer_text(n as int)),
        Value::UInt(n) => Some(decimal_digits(n as nat)),
        Value::TimeSpan(n) => Some(constant_text(ticks_spec(n as int))),
        _ => None,
    }
}

/// [`value_text_spec`] of `v`.
pub fn value_text(v: &Value) -> (res: Option<Vec<char>>)
    ensures
        res is None <==> value_text_spec(*v) is None,
        res matches Some(t) ==> value_text_spec(*v) == Some(t@),
{
    match v {
        Value::String(s) => Some(chars_of(s.as_str())),
        Value::Bool(b) => Some(
            if *b {
                chars_of("True")
            } else {
                chars_of("False")
            },
        ),
        Value::Int(n) => Some(i64_text(*n)),
        Value::UInt(n) => {
            let mut out: Vec<char> = Vec::new();
            push_u64(&mut out, *n);
            assert(out@ == Seq::<char>::empty() + decimal_digits(*n as nat));
            Some(out)
        },
        Value::TimeSpan(n) => {
            let text = timespan_to_string(*n);
            Some(chars_of(text.as_str()))
        },
        _ => None,
    }
}

} // verus!
