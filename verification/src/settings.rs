//! The settings a formatter is created with.

use vstd::prelude::*;
use crate::text::{eq_ignore_case, chars_equal, chars_equal_ignore_case};

verus! {

/// Whether names — of selectors, of formatters, of templates — are matched
/// with or without regard to case.
#[derive(Debug, Clone, Copy, PartialEq, Eq, Structural)]
pub enum CaseSensitivity {
    CaseSensitive,
    CaseInsensitive,
}

/// Whether `a` and `b` are the same name under `case`: equal, or equal ignoring
/// ASCII case.
pub open spec fn names_match(case: CaseSensitivity, a: Seq<char>, b: Seq<char>) -> bool {
    match case {
        CaseSensitivity::CaseSensitive => a == b,
        CaseSensitivity::CaseInsensitive => eq_ignore_case(a, b),
    }
}

impl CaseSensitivity {
    /// Whether `a` and `b` are the same name under this setting.
    pub fn matches(&self, a: &Vec<char>, b: &Vec<char>) -> (res: bool)
        ensures
            res == names_match(*self, a@, b@),
    {
        match self {
            CaseSensitivity::CaseSensitive => chars_equal(a, b),
            CaseSensitivity::CaseInsensitive => chars_equal_ignore_case(a, b),
        }
    }
}

/// What a placeholder that fails to format writes, .NET `FormatErrorAction`.
#[derive(Debug, Clone, Copy, PartialEq, Eq, Structural)]
pub enum ErrorAction {
    /// Writes nothing for the placeholder.
    Ignore,
    /// Writes the placeholder's own source text.
    MaintainTokens,
    /// Writes the error message in place of the placeholder.
    OutputErrorInResult,
    /// Fails the whole format call (.NET `ThrowError`).
    Error,
}

/// The settings of a [`SmartFormatter`](crate::SmartFormatter).
#[derive(Debug, Clone, Copy)]
pub struct SmartSettings {
    /// What a failing placeholder does.
    pub format_error_action: ErrorAction,
    /// How selectors, formatter names and template names are matched.
    pub case_sensitive: CaseSensitivity,
    /// `string.Format` compatibility: formatter names are not parsed and only
    /// the default formatter runs.
    pub string_format_compatibility: bool,
}

impl SmartSettings {
    /// The defaults: failing placeholders fail the call, names are matched
    /// case-sensitively, formatter names are parsed.
    pub fn default() -> (res: SmartSettings)
        ensures
            res.format_error_action == ErrorAction::Error,
            res.case_sensitive == CaseSensitivity::CaseSensitive,
            !res.string_format_compatibility,
    {
        SmartSettings {
            format_error_action: ErrorAction::Error,
            case_sensitive: CaseSensitivity::CaseSensitive,
            string_format_compatibility: false,
        }
    }
}

/// The settings of the template parser.
#[derive(Debug, Clone, Copy)]
pub struct ParserSettings {
    /// Whether `\n`, `\t`, `\{` and the other escape sequences of a literal are
    /// resolved; when off, a backslash is just a character.
    pub convert_character_string_literals: bool,
}

impl ParserSettings {
    /// The defaults: escape sequences are resolved.
    pub fn default() -> (res: ParserSettings)
        ensures
            res.convert_character_string_literals,
    {
        ParserSettings { convert_character_string_literals: true }
    }
}

} // verus!
