//! `{0:isnull:nothing|{}}` picks between two formats by whether the value is
//! null: the first part is rendered for a null, the second for anything else.
//! With only one part, a value that is not null renders nothing at all.
//!
//! The formatter takes no options and never auto-detects unless told to.

use vstd::prelude::*;
use crate::text::{owned, blank, is_blank, trim_spec, aligned, split_spec, lemma_split_piece_bound};
use crate::value::{Value, is_scalar};
use crate::parsing::{literal_format_text, Placeholder};
use crate::error::Error;
use crate::formatter::{options_spec, literal_format_of, part_output, lemma_literal_part_renders, is_bare, Ctx, Info, State, formatter_options, split_format, format_as_child, write_text,
    decline_or_error, format_parts, all_simple_items, simple_items_text, can_render_bare,
    lemma_alike_renders_alike};
use super::{InvalidSplitChar, valid_split_char, is_valid_split_char};

verus! {

/// Picks one of two formats by whether the value is null.
#[derive(Debug, Clone)]
pub struct NullFormatter {
    name: String,
    split_char: char,
    can_auto_detect: bool,
}

/// What the formatter does with a value, given how many parts its format
/// has: the part to render, nothing to render (`None`), or a refusal
/// (`Err`) when the format does not have one or two parts.
pub open spec fn null_pick_spec(is_null: bool, parts: nat) -> Result<Option<nat>, ()> {
    if parts != 1 && parts != 2 {
        Err(())
    } else if is_null {
        Ok(Some(0))
    } else if parts == 2 {
        Ok(Some(1))
    } else {
        Ok(None)
    }
}

/// [`null_pick_spec`] of whether the value is null and the number of parts.
pub fn null_pick(is_null: bool, parts: usize) -> (res: Result<Option<usize>, ()>)
    ensures
        res matches Ok(Some(k)) ==> null_pick_spec(is_null, parts as nat) == Ok::<
            Option<nat>,
            (),
        >(Some(k as nat)),
        res matches Ok(None) ==> null_pick_spec(is_null, parts as nat) == Ok::<Option<nat>, ()>(
            None,
        ),
        res is Err <==> null_pick_spec(is_null, parts as nat) is Err,
{
    if parts != 1 && parts != 2 {
        Err(())
    } else if is_null {
        Ok(Some(0))
    } else if parts == 2 {
        Ok(Some(1))
    } else {
        Ok(None)
    }
}

/// A null renders the first part; anything else renders the second part, or
/// nothing when there is only one.
pub proof fn law_null_picks_first_part(parts: nat)
    requires
        parts == 1 || parts == 2,
    ensures
        null_pick_spec(true, parts) == Ok::<Option<nat>, ()>(Some(0)),
        parts == 2 ==> null_pick_spec(false, parts) == Ok::<Option<nat>, ()>(Some(1)),
        parts == 1 ==> null_pick_spec(false, parts) == Ok::<Option<nat>, ()>(None),
{
}

impl NullFormatter {
    pub closed spec fn name_spec(&self) -> Seq<char> {
        self.name@
    }

    pub closed spec fn split_char_spec(&self) -> char {
        self.split_char
    }

    /// What the formatter writes for placeholder `p` of `src` with `value`,
    /// when its options are blank and its format is plain text: the part
    /// for a null or the part for any other value, aligned, or nothing
    /// when there is no part for it. `None` otherwise.
    pub open spec fn null_output(&self, src: Seq<char>, p: Placeholder, value: Value, convert: bool) -> Option<
        Seq<char>,
    > {
        match options_spec(src, p, convert) {
            Ok(opts) => if is_blank(opts) {
                match literal_format_of(src, p) {
                    Some(t) => if t.len() < usize::MAX / 4 {
                        match null_pick_spec(value is Null, split_spec(t, self.split_char_spec()).len()) {
                            Ok(Some(k)) => Some(
                                part_output(split_spec(t, self.split_char_spec())[k as int], p.alignment as int),
                            ),
                            Ok(None) => Some(aligned(Seq::<char>::empty(), p.alignment as int)),
                            Err(()) => None,
                        }
                    } else {
                        None
                    },
                    None => None,
                }
            } else {
                None
            },
            Err(_) => None,
        }
    }

    pub closed spec fn auto_detect_spec(&self) -> bool {
        self.can_auto_detect
    }

    /// A formatter named `isnull`, splitting on `|` and not auto-detected.
    pub fn new() -> (res: NullFormatter)
        ensures
            res.name_spec() == "isnull"@,
            res.split_char_spec() == '|',
            !res.auto_detect_spec(),
    {
        NullFormatter { name: owned("isnull"), split_char: '|', can_auto_detect: false }
    }

    /// The formatter under another name.
    pub fn with_name(self, name: &str) -> (res: NullFormatter)
        ensures
            res.name_spec() == name@,
            res.split_char_spec() == self.split_char_spec(),
            res.auto_detect_spec() == self.auto_detect_spec(),
    {
        NullFormatter { name: owned(name), ..self }
    }

    pub fn name(&self) -> (res: &str)
        ensures
            res@ == self.name_spec(),
    {
        self.name.as_str()
    }

    /// The character the two formats are split on.
    pub fn split_char(&self) -> (res: char)
        ensures
            res == self.split_char_spec(),
    {
        self.split_char
    }

    /// Changes the split character; only `|`, `,` and `~` are accepted.
    pub fn set_split_char(&mut self, split_char: char) -> (res: Result<(), InvalidSplitChar>)
        ensures
            is_valid_split_char(split_char) ==> res is Ok && final(self).split_char_spec()
                == split_char,
            !is_valid_split_char(split_char) ==> res == Err::<(), InvalidSplitChar>(
                InvalidSplitChar(split_char),
            ) && final(self).split_char_spec() == old(self).split_char_spec(),
            final(self).name_spec() == old(self).name_spec(),
            final(self).auto_detect_spec() == old(self).auto_detect_spec(),
    {
        match valid_split_char(split_char) {
            Ok(c) => {
                self.split_char = c;
                Ok(())
            },
            Err(e) => Err(e),
        }
    }

    /// Whether a placeholder that names no formatter may be handled here.
    pub fn can_auto_detect(&self) -> (res: bool)
        ensures
            res == self.auto_detect_spec(),
    {
        self.can_auto_detect
    }

    pub fn set_can_auto_detect(&mut self, can_auto_detect: bool)
        ensures
            final(self).auto_detect_spec() == can_auto_detect,
            final(self).name_spec() == old(self).name_spec(),
            final(self).split_char_spec() == old(self).split_char_spec(),
    {
        self.can_auto_detect = can_auto_detect;
    }

    /// Renders the part [`null_pick_spec`] picks, or nothing; declines — or
    /// fails naming the formatter — when the options are not blank or the
    /// format does not have one or two parts.
    pub fn try_evaluate_format(&self, ctx: &Ctx, info: &Info, state: &mut State, fuel: usize) -> (res:
        Result<bool, Error>)
        ensures
            is_bare(*info.placeholder) && is_scalar(*info.value) ==> res == Ok::<bool, Error>(false)
                && *final(state) == *old(state),
            info.placeholder.formatter_name@.len() == 0 && info.placeholder.format is None ==> (res
                == Ok::<bool, Error>(false) || res matches Err(Error::Escape { .. })),
            self.null_output(info.src@, *info.placeholder, *info.value, ctx.convert) matches Some(t)
                ==> res == Ok::<bool, Error>(true) && final(state).out@ == old(state).out@ + t,
            match options_spec(info.src@, *info.placeholder, ctx.convert) {
                Ok(opts) => is_blank(opts) ==> match literal_format_of(
                    info.src@,
                    *info.placeholder,
                ) {
                    Some(t) => t.len() < usize::MAX / 4 ==> match null_pick_spec(
                        info.value is Null,
                        split_spec(t, self.split_char_spec()).len(),
                    ) {
                        Ok(Some(k)) => res == Ok::<bool, Error>(true) && final(state).out@ == old(state).out@ + part_output(
                            split_spec(t, self.split_char_spec())[k as int],
                            info.placeholder.alignment as int,
                        ),
                        Ok(None) => res == Ok::<bool, Error>(true) && final(state).out@ == old(state).out@ + aligned(Seq::<char>::empty(), info.placeholder.alignment as int),
                        Err(()) => info.placeholder.formatter_name@.len() == 0 ==> res == Ok::<
                            bool,
                            Error,
                        >(false),
                    },
                    None => true,
                },
                Err(_) => true,
            },
            match options_spec(info.src@, *info.placeholder, ctx.convert) {
                Ok(opts) => is_blank(opts) ==> match format_parts(
                    info.src@,
                    *info.placeholder,
                    self.split_char_spec(),
                    (usize::MAX - 1) as nat,
                ) {
                    Some(ps) => match null_pick_spec(info.value is Null, ps.len()) {
                        Ok(Some(k)) => (res is Ok ==> final(state).rendered() == old(state).rendered().push(
                            (
                                info.src@,
                                ps[k as int].1,
                                ps[k as int].2,
                                *info.value,
                                old(state).out@,
                                final(state).out@,
                            ),
                        )) && (all_simple_items(
                            info.src@,
                            ps[k as int].0,
                            *info.value,
                            *ctx.args,
                            ctx.settings.case_sensitive,
                            old(state).collection_index,
                        ) && fuel >= 2 && can_render_bare(ctx) ==> res == Ok::<bool, Error>(true)
                            && final(state).out@ == old(state).out@ + simple_items_text(
                            info.src@,
                            ps[k as int].0,
                            info.placeholder.alignment as int,
                            *info.value,
                            *ctx.args,
                            ctx.settings.case_sensitive,
                            old(state).collection_index,
                        )),
                        _ => true,
                    },
                    None => true,
                },
                Err(_) => true,
            },
        decreases fuel, 8nat,
    {
        let options = formatter_options(ctx, info)?;
        let formats = split_format(info, self.split_char, usize::MAX - 1);
        proof {
            if literal_format_of(info.src@, *info.placeholder) is Some {
                lemma_split_piece_bound(
                    literal_format_of(info.src@, *info.placeholder)->0,
                    self.split_char,
                );
            }
        }
        if !blank(&options) {
            return decline_or_error(info, " does not allow choose options");
        }
        let parts = match &formats {
            Some(f) => f.len(),
            None => 0,
        };
        match null_pick(info.value.is_null(), parts) {
            Err(()) => decline_or_error(info, " must have 1 or 2 format options"),
            Ok(Some(k)) => {
                if let Some(f) = &formats {
                    if k < f.len() {
                        proof {
                            if literal_format_of(info.src@, *info.placeholder) is Some {
                                let t = literal_format_of(info.src@, *info.placeholder)->0;
                                if t.len() < usize::MAX / 4 {
                                    assert(literal_format_text(info.src@, f@[k as int]) == Some(
                                        split_spec(t, self.split_char)[k as int],
                                    ));
                                    lemma_literal_part_renders(
                                        info.src@,
                                        f@[k as int],
                                        info.placeholder.alignment as int,
                                    );
                                }
                            }
                            let ps = format_parts(
                                info.src@,
                                *info.placeholder,
                                self.split_char,
                                (usize::MAX - 1) as nat,
                            )->0;
                            lemma_alike_renders_alike(
                                info.src@,
                                f@[k as int].items@,
                                ps[k as int].0,
                                info.placeholder.alignment as int,
                                *info.value,
                                *ctx.args,
                                ctx.settings.case_sensitive,
                                state.collection_index,
                            );
                        }
                        format_as_child(ctx, info, &f[k], info.value, state, fuel)?;
                    }
                }
                Ok(true)
            },
            Ok(None) => {
                let empty: Vec<char> = Vec::new();
                write_text(info, state, &empty);
                Ok(true)
            },
        }
    }
}

} // verus!
