//! The parts of time formatting that are plain logic: the options a time
//! format carries, the composite formatting of a unit's text, the rounding
//! of a span of ticks, and the standard `TimeSpan` formats.

pub mod options;
pub mod standard;
pub mod text_info;
pub mod utility;

use vstd::prelude::*;
use crate::text::{push_str, to_string};

verus! {

/// A language no time texts are filed under was asked for as the fallback
/// language.
#[derive(Debug, Clone, PartialEq, Eq)]
pub struct UnknownLanguage(pub String);

impl UnknownLanguage {
    /// The message the error is shown with.
    pub fn message(&self) -> (res: String)
        ensures
            res@ == "No TimeTextInfo found for language '"@ + self.0@ + "'."@,
    {
        let mut out: Vec<char> = Vec::new();
        push_str(&mut out, "No TimeTextInfo found for language '");
        push_str(&mut out, self.0.as_str());
        push_str(&mut out, "'.");
        to_string(&out)
    }
}

} // verus!
