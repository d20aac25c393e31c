//! `{0:choose(1|2|3):one|two|three}` renders the format whose option matches
//! the value. The options are the `|`-separated words in parentheses, the
//! formats the `|`-separated parts of the placeholder's format; one format
//! more than there are options makes the last one the "else" branch.
//!
//! The formatter is never auto-detected: a placeholder has to name it.

use vstd::prelude::*;
use crate::text::{chars_of, owned, push_str, push_all, push_u64, split_chars, split_spec, decimal_digits,
    lemma_split_piece_bound};
use crate::settings::{CaseSensitivity, names_match};
use crate::value::{Value, deep_copy};
use crate::error::Error;
use crate::formatter::{Ctx, Info, State, formatter_options, split_format, format_as_child,
    formatting_error, plain_error, error_position, error_position_spec, named_issue, options_spec,
    literal_format_of, part_output, lemma_literal_part_renders, format_parts, all_simple_items,
    simple_items_text, can_render_bare, lemma_alike_renders_alike, declines_or_fails, fails_with,
    envelope_spec};
use crate::parsing::{literal_format_text, Placeholder};
use super::{InvalidSplitChar, valid_split_char, is_valid_split_char, value_text, value_text_spec};

verus! {

/// Chooses one of several formats by matching the value against a list of
/// options.
#[derive(Debug, Clone)]
pub struct ChooseFormatter {
    name: String,
    split_char: char,
    case_sensitivity: CaseSensitivity,
}

/// Why no format could be chosen.
#[derive(Debug, Clone, Copy, PartialEq, Eq, Structural)]
pub enum ChoiceError {
    /// Fewer formats than options: the count of options is the least.
    TooFew(usize),
    /// More formats than one past the options: the count allowed is the most.
    TooMany(usize),
    /// Nothing matched and there is no "else" format.
    NoMatch,
}

/// The index of the first option that is the same name as `text` under
/// `case`, or `None` when none is.
pub open spec fn first_match(options: Seq<Seq<char>>, text: Seq<char>, case: CaseSensitivity) -> Option<
    nat,
>
    decreases options.len(),
{
    if options.len() == 0 {
        None
    } else {
        match first_match(options.drop_last(), text, case) {
            Some(k) => Some(k),
            None => if names_match(case, options.last(), text) {
                Some((options.len() - 1) as nat)
            } else {
                None
            },
        }
    }
}

/// The first match is a match, and no option before it matches.
pub proof fn lemma_first_match(options: Seq<Seq<char>>, text: Seq<char>, case: CaseSensitivity)
    ensures
        first_match(options, text, case) matches Some(k) ==> k < options.len() && names_match(
            case,
            options[k as int],
            text,
        ) && forall|j: int| 0 <= j < k ==> !names_match(case, #[trigger] options[j], text),
        first_match(options, text, case) is None ==> forall|j: int|
            0 <= j < options.len() ==> !names_match(case, #[trigger] options[j], text),
    decreases options.len(),
{
    if options.len() > 0 {
        lemma_first_match(options.drop_last(), text, case);
        assert forall|j: int| 0 <= j < options.len() - 1 implies options.drop_last()[j]
            == options[j] by {}
    }
}

/// The part a value picks among `formats` parts: the first option its text
/// matches, the last part when none does and there is one part more than
/// options, and an error when the counts do not fit or nothing can be picked.
/// A value without text (`None`) matches no option.
pub open spec fn choice_spec(
    options: Seq<Seq<char>>,
    text: Option<Seq<char>>,
    case: CaseSensitivity,
    formats: nat,
) -> Result<nat, ChoiceError> {
    let matched = match text {
        Some(t) => first_match(options, t, case),
        None => None,
    };
    if formats < options.len() {
        Err(ChoiceError::TooFew(options.len() as usize))
    } else if formats > options.len() + 1 {
        Err(ChoiceError::TooMany((options.len() + 1) as usize))
    } else {
        match matched {
            Some(k) => Ok(k),
            None => if formats == options.len() {
                Err(ChoiceError::NoMatch)
            } else {
                Ok((formats - 1) as nat)
            },
        }
    }
}

/// What a failed choice says: how many choices there must be at least or
/// may be at most, or that the value's text — `<list>` or `<map>` for a
/// value without one — matches no choice and there is no default.
pub open spec fn choice_issue(e: ChoiceError, key: Option<Seq<char>>, value: Value) -> Seq<char> {
    match e {
        ChoiceError::TooFew(n) => "You must specify at least "@ + decimal_digits(n as nat) + " choices"@,
        ChoiceError::TooMany(n) => "You cannot specify more than "@ + decimal_digits(n as nat)
            + " choices"@,
        ChoiceError::NoMatch => "\""@ + match key {
            Some(t) => t,
            None => if value is List {
                "<list>"@
            } else {
                "<map>"@
            },
        } + "\" is not a valid choice, and a \"default\" choice was not supplied"@,
    }
}

/// The text a value is matched by and the case sensitivity it is matched
/// with: a null is matched as `null` and a bool by its text, both ignoring
/// case whatever `case` says; any other value by its text under `case`.
pub open spec fn match_key_spec(value: Value, case: CaseSensitivity) -> (
    Option<Seq<char>>,
    CaseSensitivity,
) {
    match value {
        Value::Null => (Some("null"@), CaseSensitivity::CaseInsensitive),
        Value::Bool(_) => (value_text_spec(value), CaseSensitivity::CaseInsensitive),
        _ => (value_text_spec(value), case),
    }
}

/// A copy of a value is matched against the options as the value is.
pub proof fn lemma_copy_matches_alike(w: Value, v: Value, case: CaseSensitivity)
    requires
        deep_copy(w, v),
    ensures
        match_key_spec(w, case) == match_key_spec(v, case),
{
}

/// [`choice_spec`] of the options, the value's text, the case sensitivity
/// and the number of formats.
pub fn choose_part(
    options: &Vec<Vec<char>>,
    text: &Option<Vec<char>>,
    case: CaseSensitivity,
    formats: usize,
) -> (res: Result<usize, ChoiceError>)
    requires
        options.len() < usize::MAX,
    ensures
        res matches Ok(k) ==> choice_spec(options@.map_values(|o: Vec<char>| o@), match text {
            Some(t) => Some(t@),
            None => None,
        }, case, formats as nat) == Ok::<nat, ChoiceError>(k as nat),
        res matches Err(e) ==> choice_spec(options@.map_values(|o: Vec<char>| o@), match text {
            Some(t) => Some(t@),
            None => None,
        }, case, formats as nat) == Err::<nat, ChoiceError>(e),
{
    let ghost opts = options@.map_values(|o: Vec<char>| o@);
    let mut matched: Option<usize> = None;
    if let Some(t) = text {
        let mut i: usize = 0;
        while i < options.len() && matched.is_none()
            invariant
                i <= options.len(),
                opts == options@.map_values(|o: Vec<char>| o@),
                matched is None ==> first_match(opts.subrange(0, i as int), t@, case) is None,
                matched matches Some(k) ==> k < options.len() && first_match(
                    opts.subrange(0, k + 1),
                    t@,
                    case,
                ) == Some(k as nat),
            decreases options.len() - i,
        {
            assert(opts.subrange(0, i + 1).drop_last() == opts.subrange(0, i as int));
            if case.matches(&options[i], t) {
                matched = Some(i);
            }
            i += 1;
        }
        proof {
            if matched is None {
                assert(opts.subrange(0, options.len() as int) == opts);
            } else {
                let k = matched->0;
                lemma_first_match_prefix(opts, t@, case, (k + 1) as nat);
            }
        }
    }
    if formats < options.len() {
        return Err(ChoiceError::TooFew(options.len()));
    }
    if formats > options.len() + 1 {
        return Err(ChoiceError::TooMany(options.len() + 1));
    }
    match matched {
        Some(k) => Ok(k),
        None => if formats == options.len() {
            Err(ChoiceError::NoMatch)
        } else {
            Ok(formats - 1)
        },
    }
}

/// A match in a prefix is the first match of the whole.
proof fn lemma_first_match_prefix(
    options: Seq<Seq<char>>,
    text: Seq<char>,
    case: CaseSensitivity,
    n: nat,
)
    requires
        n <= options.len(),
        first_match(options.subrange(0, n as int), text, case) is Some,
    ensures
        first_match(options, text, case) == first_match(options.subrange(0, n as int), text, case),
    decreases options.len() - n,
{
    if n < options.len() {
        assert(options.subrange(0, n + 1 as int).drop_last() == options.subrange(0, n as int));
        lemma_first_match_prefix(options, text, case, n + 1);
    } else {
        assert(options.subrange(0, n as int) == options);
    }
}

/// The part chosen is the part of the first option the value's text
/// matches, or — when no option matches and there is one format more than
/// options — the last part.
pub proof fn law_choice_is_first_match_or_else(
    options: Seq<Seq<char>>,
    text: Seq<char>,
    case: CaseSensitivity,
    formats: nat,
)
    ensures
        choice_spec(options, Some(text), case, formats) matches Ok(k) ==> (k < options.len()
            && names_match(case, options[k as int], text) && forall|j: int|
            0 <= j < k ==> !names_match(case, #[trigger] options[j], text)) || (k == formats - 1
            && formats == options.len() + 1 && forall|j: int|
            0 <= j < options.len() ==> !names_match(case, #[trigger] options[j], text)),
{
    lemma_first_match(options, text, case);
}

impl ChooseFormatter {
    /// The formatter's name.
    pub closed spec fn name_spec(&self) -> Seq<char> {
        self.name@
    }

    /// The character the options and the formats are split on.
    pub closed spec fn split_char_spec(&self) -> char {
        self.split_char
    }

    /// How options are matched.
    pub closed spec fn case_spec(&self) -> CaseSensitivity {
        self.case_sensitivity
    }

    /// What the formatter writes for a placeholder whose options read `opts`
    /// and whose format is the plain text `t`, with `value`, when `t` has at
    /// least two parts and the value picks one of them: that part, padded
    /// to `alignment`. `None` otherwise.
    pub open spec fn pick_output(&self, opts: Seq<char>, t: Seq<char>, value: Value, alignment: int) -> Option<
        Seq<char>,
    > {
        if t.len() < usize::MAX / 4 && split_spec(t, self.split_char_spec()).len() >= 2 && split_spec(
            opts,
            self.split_char_spec(),
        ).len() < usize::MAX {
            match choice_spec(
                split_spec(opts, self.split_char_spec()),
                match_key_spec(value, self.case_spec()).0,
                match_key_spec(value, self.case_spec()).1,
                split_spec(t, self.split_char_spec()).len(),
            ) {
                Ok(k) => Some(part_output(split_spec(t, self.split_char_spec())[k as int], alignment)),
                Err(_) => None,
            }
        } else {
            None
        }
    }

    /// What the formatter writes for placeholder `p` of `src` with `value`,
    /// when the placeholder's format is plain text ([`pick_output`](Self::pick_output)).
    pub open spec fn chosen_output(&self, src: Seq<char>, p: Placeholder, value: Value, convert: bool) -> Option<
        Seq<char>,
    > {
        match options_spec(src, p, convert) {
            Ok(opts) => match literal_format_of(src, p) {
                Some(t) => self.pick_output(opts, t, value, p.alignment as int),
                None => None,
            },
            Err(_) => None,
        }
    }

    /// A formatter named `choose`, splitting on `|` and matching options
    /// case-sensitively.
    pub fn new() -> (res: ChooseFormatter)
        ensures
            res.name_spec() == "choose"@,
            res.split_char_spec() == '|',
            res.case_spec() == CaseSensitivity::CaseSensitive,
    {
        ChooseFormatter {
            name: owned("choose"),
            split_char: '|',
            case_sensitivity: CaseSensitivity::CaseSensitive,
        }
    }

    /// The formatter under another name.
    pub fn with_name(self, name: &str) -> (res: ChooseFormatter)
        ensures
            res.name_spec() == name@,
            res.split_char_spec() == self.split_char_spec(),
            res.case_spec() == self.case_spec(),
    {
        ChooseFormatter { name: owned(name), ..self }
    }

    /// The name a placeholder selects the formatter by.
    pub fn name(&self) -> (res: &str)
        ensures
            res@ == self.name_spec(),
    {
        self.name.as_str()
    }

    /// A placeholder has to name this formatter.
    pub fn can_auto_detect(&self) -> (res: bool)
        ensures
            !res,
    {
        false
    }

    /// The character the options and the formats are split on.
    pub fn split_char(&self) -> (res: char)
        ensures
            res == self.split_char_spec(),
    {
        self.split_char
    }

    /// Changes the split character, so that the one it replaces can be used
    /// in the output; only `|`, `,` and `~` are accepted.
    pub fn set_split_char(&mut self, split_char: char) -> (res: Result<(), InvalidSplitChar>)
        ensures
            is_valid_split_char(split_char) ==> res is Ok && final(self).split_char_spec()
                == split_char,
            !is_valid_split_char(split_char) ==> res == Err::<(), InvalidSplitChar>(
                InvalidSplitChar(split_char),
            ) && final(self).split_char_spec() == old(self).split_char_spec(),
            final(self).name_spec() == old(self).name_spec(),
            final(self).case_spec() == old(self).case_spec(),
    {
        match valid_split_char(split_char) {
            Ok(c) => {
                self.split_char = c;
                Ok(())
            },
            Err(e) => Err(e),
        }
    }

    /// Whether options are matched case-sensitively; the formatter's own
    /// setting wins over the formatter-wide one.
    pub fn case_sensitivity(&self) -> (res: CaseSensitivity)
        ensures
            res == self.case_spec(),
    {
        self.case_sensitivity
    }

    pub fn set_case_sensitivity(&mut self, case_sensitivity: CaseSensitivity)
        ensures
            final(self).case_spec() == case_sensitivity,
            final(self).name_spec() == old(self).name_spec(),
            final(self).split_char_spec() == old(self).split_char_spec(),
    {
        self.case_sensitivity = case_sensitivity;
    }

    /// The text the value is matched by, with the case sensitivity to match
    /// it under: a null is `null` and a bool `True` or `False`, both matched
    /// ignoring case; a list or a dictionary has no text.
    pub fn match_key(&self, value: &Value) -> (res: (Option<Vec<char>>, CaseSensitivity))
        ensures
            (match res.0 {
                Some(t) => Some(t@),
                None => None,
            }) == match_key_spec(*value, self.case_spec()).0,
            res.1 == match_key_spec(*value, self.case_spec()).1,
            value is Null ==> (res.0 matches Some(t) && t@ == "null"@ && res.1
                == CaseSensitivity::CaseInsensitive),
            value is Bool ==> (res.0 matches Some(t) && Some(t@) == value_text_spec(*value)
                && res.1 == CaseSensitivity::CaseInsensitive),
            !(value is Null) && !(value is Bool) ==> res.1 == self.case_spec() && (res.0 is None
                <==> value_text_spec(*value) is None) && (res.0 matches Some(t) ==> Some(t@)
                == value_text_spec(*value)),
    {
        match value {
            Value::Null => (Some(chars_of("null")), CaseSensitivity::CaseInsensitive),
            Value::Bool(_) => (value_text(value), CaseSensitivity::CaseInsensitive),
            _ => (value_text(value), self.case_sensitivity),
        }
    }

    /// Renders the part of the format the value picks, as [`choice_spec`]
    /// says, or fails: with a plain error naming the formatter when the
    /// format has fewer than two parts, with a formatting error for the
    /// counts and for a value nothing matches.
    pub fn try_evaluate_format(&self, ctx: &Ctx, info: &Info, state: &mut State, fuel: usize) -> (res:
        Result<bool, Error>)
        ensures
            info.placeholder.format is None && info.placeholder.formatter_name@.len() == 0
                ==> res == Ok::<bool, Error>(false) || res matches Err(Error::Escape { .. }),
            match options_spec(info.src@, *info.placeholder, ctx.convert) {
                Ok(opts) => match literal_format_of(info.src@, *info.placeholder) {
                    Some(t) => t.len() < usize::MAX / 4 && split_spec(t, self.split_char_spec()).len()
                        >= 2 && split_spec(opts, self.split_char_spec()).len() < usize::MAX ==> match choice_spec(
                        split_spec(opts, self.split_char_spec()),
                        match_key_spec(*info.value, self.case_spec()).0,
                        match_key_spec(*info.value, self.case_spec()).1,
                        split_spec(t, self.split_char_spec()).len(),
                    ) {
                        Ok(k) => res == Ok::<bool, Error>(true) && final(state).out@ == old(state).out@
                            + part_output(
                            split_spec(t, self.split_char_spec())[k as int],
                            info.placeholder.alignment as int,
                        ),
                        Err(_) => res is Err,
                    },
                    None => true,
                },
                Err(_) => true,
            },
            match options_spec(info.src@, *info.placeholder, ctx.convert) {
                Ok(opts) => match format_parts(
                    info.src@,
                    *info.placeholder,
                    self.split_char_spec(),
                    (usize::MAX - 1) as nat,
                ) {
                    Some(ps) => ps.len() >= 2 && split_spec(opts, self.split_char_spec()).len()
                        < usize::MAX ==> match choice_spec(
                        split_spec(opts, self.split_char_spec()),
                        match_key_spec(*info.value, self.case_spec()).0,
                        match_key_spec(*info.value, self.case_spec()).1,
                        ps.len(),
                    ) {
                        Ok(k) => all_simple_items(
                            info.src@,
                            ps[k as int].0,
                            *info.value,
                            *ctx.args,
                            ctx.settings.case_sensitive,
                            old(state).collection_index,
                        ) && fuel >= 2 && can_render_bare(ctx) ==> res == Ok::<bool, Error>(true)
                            && final(state).out@ == old(state).out@ + simple_items_text(
                            info.src@,
                            ps[k as int].0,
                            info.placeholder.alignment as int,
                            *info.value,
                            *ctx.args,
                            ctx.settings.case_sensitive,
                            old(state).collection_index,
                        ),
                        Err(_) => res is Err,
                    },
                    None => true,
                },
                Err(_) => true,
            },
            options_spec(info.src@, *info.placeholder, ctx.convert) is Err ==> res is Err,
            self.chosen_output(info.src@, *info.placeholder, *info.value, ctx.convert) matches Some(t)
                ==> res == Ok::<bool, Error>(true) && final(state).out@ == old(state).out@ + t,
            match options_spec(info.src@, *info.placeholder, ctx.convert) {
                Ok(opts) => match format_parts(
                    info.src@,
                    *info.placeholder,
                    self.split_char_spec(),
                    (usize::MAX - 1) as nat,
                ) {
                    None => declines_or_fails(
                        *info.placeholder,
                        " requires at least 2 format options."@,
                        res,
                    ),
                    Some(ps) => if ps.len() < 2 {
                        declines_or_fails(
                            *info.placeholder,
                            " requires at least 2 format options."@,
                            res,
                        )
                    } else {
                        split_spec(opts, self.split_char_spec()).len() < usize::MAX ==> match choice_spec(
                            split_spec(opts, self.split_char_spec()),
                            match_key_spec(*info.value, self.case_spec()).0,
                            match_key_spec(*info.value, self.case_spec()).1,
                            ps.len(),
                        ) {
                            Err(e) => fails_with(
                                res,
                                envelope_spec(
                                    ctx.template@,
                                    choice_issue(e, match_key_spec(*info.value, self.case_spec()).0, *info.value),
                                    error_position_spec(info.placeholder) as nat,
                                ),
                                error_position_spec(info.placeholder) as int,
                            ),
                            Ok(k) => res is Ok ==> final(state).rendered() == old(state).rendered().push(
                                (
                                    info.src@,
                                    ps[k as int].1,
                                    ps[k as int].2,
                                    *info.value,
                                    old(state).out@,
                                    final(state).out@,
                                ),
                            ),
                        }
                    },
                },
                Err(_) => true,
            },
        decreases fuel, 8nat,
    {
        let options_text = formatter_options(ctx, info)?;
        let options = split_chars(&options_text, self.split_char);
        proof {
            assert(options@.map_values(|o: Vec<char>| o@) =~= split_spec(
                options_text@,
                self.split_char,
            ));
            if literal_format_of(info.src@, *info.placeholder) is Some {
                lemma_split_piece_bound(
                    literal_format_of(info.src@, *info.placeholder)->0,
                    self.split_char,
                );
            }
        }
        let formats = match split_format(info, self.split_char, usize::MAX - 1) {
            Some(parts) => {
                if parts.len() >= 2 {
                    parts
                } else {
                    return self.too_few_parts(info);
                }
            },
            None => {
                return self.too_few_parts(info);
            },
        };
        let (text, case) = self.match_key(info.value);
        if options.len() >= usize::MAX {
            return Ok(false);
        }
        match choose_part(&options, &text, case, formats.len()) {
            Ok(k) => {
                proof {
                    if text is Some {
                        lemma_first_match(
                            options@.map_values(|o: Vec<char>| o@),
                            text->0@,
                            case,
                        );
                    }
                }
                if k < formats.len() {
                    proof {
                        if literal_format_of(info.src@, *info.placeholder) is Some {
                            let t = literal_format_of(info.src@, *info.placeholder)->0;
                            if t.len() < usize::MAX / 4 {
                                assert(literal_format_text(info.src@, formats@[k as int]) == Some(
                                    split_spec(t, self.split_char)[k as int],
                                ));
                                lemma_literal_part_renders(
                                    info.src@,
                                    formats@[k as int],
                                    info.placeholder.alignment as int,
                                );
                            }
                        }
                        if info.placeholder.format is Some {
                            let ps = format_parts(
                                info.src@,
                                *info.placeholder,
                                self.split_char,
                                (usize::MAX - 1) as nat,
                            )->0;
                            lemma_alike_renders_alike(
                                info.src@,
                                formats@[k as int].items@,
                                ps[k as int].0,
                                info.placeholder.alignment as int,
                                *info.value,
                                *ctx.args,
                                ctx.settings.case_sensitive,
                                state.collection_index,
                            );
                        }
                    }
                    format_as_child(ctx, info, &formats[k], info.value, state, fuel)?;
                }
                Ok(true)
            },
            Err(ChoiceError::TooFew(n)) => {
                let mut issue: Vec<char> = Vec::new();
                push_str(&mut issue, "You must specify at least ");
                push_u64(&mut issue, n as u64);
                push_str(&mut issue, " choices");
                Err(formatting_error(ctx, &issue, error_position(info.placeholder)))
            },
            Err(ChoiceError::TooMany(n)) => {
                let mut issue: Vec<char> = Vec::new();
                push_str(&mut issue, "You cannot specify more than ");
                push_u64(&mut issue, n as u64);
                push_str(&mut issue, " choices");
                Err(formatting_error(ctx, &issue, error_position(info.placeholder)))
            },
            Err(ChoiceError::NoMatch) => {
                let quoted = match &text {
                    Some(t) => crate::parsing::raw_range(t, 0, t.len()),
                    None => match info.value {
                        Value::List(_) => chars_of("<list>"),
                        _ => chars_of("<map>"),
                    },
                };
                let mut issue: Vec<char> = Vec::new();
                push_str(&mut issue, "\"");
                push_all(&mut issue, &quoted);
                push_str(
                    &mut issue,
                    "\" is not a valid choice, and a \"default\" choice was not supplied",
                );
                proof {
                    match text {
                        Some(t) => {
                            assert(quoted@ =~= t@);
                        },
                        None => {},
                    }
                    assert(issue@ =~= choice_issue(
                        ChoiceError::NoMatch,
                        match_key_spec(*info.value, self.case_spec()).0,
                        *info.value,
                    ));
                }
                Err(formatting_error(ctx, &issue, error_position(info.placeholder)))
            },
        }
    }

    /// The answer to a format of fewer than two parts: a decline when the
    /// placeholder named no formatter, a plain error naming it when it did.
    fn too_few_parts(&self, info: &Info) -> (res: Result<bool, Error>)
        ensures
            info.placeholder.formatter_name@.len() == 0 ==> res == Ok::<bool, Error>(false),
            info.placeholder.formatter_name@.len() > 0 ==> (res matches Err(Error::Format {
                message,
                position,
            }) && message@ == "Formatter named '"@ + info.placeholder.formatter_name@
                + "'"@ + " requires at least 2 format options."@ && position == error_position_spec(
                info.placeholder,
            )),
    {
        crate::formatter::decline_or_error(info, " requires at least 2 format options.")
    }
}

} // verus!
