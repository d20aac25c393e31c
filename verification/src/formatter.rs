//! The engine that renders a parsed template: it evaluates each
//! placeholder's selectors against the values, hands the placeholder to the
//! first formatter extension that takes it, and applies the error action to
//! a placeholder that fails.
//!
//! Rendering nests — a formatter renders a part of its format as a child
//! format, which holds placeholders of its own, and a registered template can
//! name another — so every step carries a depth budget that a child step
//! spends one of.

use vstd::prelude::*;
use crate::text::{chars_of, push_str, push_all, push_u64, to_string, chars_equal_ignore_case, utf16_length, write_aligned, aligned, decimal_digits, split_spec};
use crate::error::Error;
use crate::value::{Value, copy_value, is_scalar, copies, faithful_copy, deep_copy, same_content};
use crate::settings::{CaseSensitivity, ErrorAction, SmartSettings, ParserSettings, names_match};
use crate::text::{eq_ignore_case, utf16_len_spec};
use crate::parsing::{Selector, Placeholder, Format, FormatItem, ParsedFormat, Parser, resolve_escapes, resolved_spec, items_text, template_pieces, literal_format_text, spanned_literal_text, split_parts, PartView,
    parts_alike, items_alike, item_alike, placeholder_alike, selector_alike, text_pieces, items_pieces, simple_items, is_name_placeholder, split, has_nested, raw_range, literal_text, is_plain_text, plain_literal,
    stray_closing_brace, stray_brace_error, named_placeholder_at, named_placeholder_parsed,
    unclosed_placeholder, missing_brace_error};
use crate::number::{integer_with_spec_exec, all_digits, digits_value, pow10, lemma_digits_value_bound, lemma_digits_value_prefix};
use crate::extensions::choice::{ChooseFormatter, lemma_copy_matches_alike};
use crate::extensions::null::NullFormatter;
use crate::extensions::ismatch::IsMatchFormatter;
use crate::extensions::template::{TemplateFormatter, find_name};
use crate::extensions::conditional::ConditionalFormatter;
use crate::extensions::list::ListFormatter;
use crate::extensions::substring::SubStringFormatter;
use crate::extensions::localization::LocalizationFormatter;
use crate::extensions::time::standard::{timespan_chars, timespan_text};
use crate::extensions::time::utility::ticks_spec;

verus! {

/// How deep formats may nest while one template is rendered.
pub const MAX_DEPTH: usize = 512;

/// The collection index outside of any list.
pub const NO_COLLECTION_INDEX: i64 = -1;

/// What a format call renders with and never changes.
pub struct Ctx<'a> {
    pub settings: SmartSettings,
    pub convert: bool,
    pub registry: &'a FormatterRegistry,
    /// The arguments of the call, which `{0}`, `{1}`, ... index.
    pub args: &'a Value,
    /// The value the call was made with: the first argument.
    pub root: &'a Value,
    /// The template being rendered, which error messages quote.
    pub template: &'a Vec<char>,
}

/// What a format call changes as it renders.
pub struct State {
    /// The output so far.
    pub out: Vec<char>,
    /// The index of the item the innermost list is at.
    pub collection_index: i64,
    /// The formats rendered so far at this level, in order: each rendering
    /// of a format adds one [`Rendering`] and none for what it renders
    /// inside. [`format_items`] records them.
    pub rendered: Ghost<Seq<Rendering>>,
}

impl State {
    /// The formats rendered so far at this level ([`State::rendered`]).
    pub open spec fn rendered(&self) -> Seq<Rendering> {
        self.rendered@
    }

    /// A state with no output yet, no format rendered, and the collection
    /// index `collection_index`.
    pub fn new(collection_index: i64) -> (res: State)
        ensures
            res.out@ == Seq::<char>::empty(),
            res.collection_index == collection_index,
            res.rendered() == Seq::<Rendering>::empty(),
    {
        State { out: Vec::new(), collection_index, rendered: Ghost(Seq::empty()) }
    }
}

/// One rendering of a format: the text it was parsed from, the range of
/// the format in it, the value it was rendered against, and the output
/// before and after.
pub type Rendering = (Seq<char>, int, int, Value, Seq<char>, Seq<char>);

/// The rendering of `format` of `src` against `value` that turned the
/// output `before` into `after`.
pub open spec fn rendering(src: Seq<char>, format: Format, value: Value, before: Seq<char>, after: Seq<char>) -> Rendering {
    (src, format.start as int, format.end as int, value, before, after)
}

/// A placeholder being formatted: where it was parsed from, the value its
/// selectors picked, and the values of the enclosing scopes, innermost last.
pub struct Info<'a> {
    pub src: &'a Vec<char>,
    pub placeholder: &'a Placeholder,
    pub value: &'a Value,
    pub scopes: &'a Vec<&'a Value>,
}

// ---------------------------------------------------------------------------
// Errors
// ---------------------------------------------------------------------------

/// The message of a .NET `FormattingException`: the issue and the index it is
/// reported at, then the template and a caret under that index.
pub open spec fn envelope_spec(template: Seq<char>, issue: Seq<char>, index: nat) -> Seq<char> {
    "Error parsing format string: "@ + issue + " at "@ + decimal_digits(index) + "\n"@ + template
        + "\n"@ + Seq::new(index, |i: int| '-') + "^"@
}

/// [`envelope_spec`] of the template, the issue and the index.
pub fn envelope(template: &Vec<char>, issue: &Vec<char>, index: usize) -> (res: Vec<char>)
    ensures
        res@ == envelope_spec(template@, issue@, index as nat),
{
    let mut out: Vec<char> = Vec::new();
    push_str(&mut out, "Error parsing format string: ");
    push_all(&mut out, issue);
    push_str(&mut out, " at ");
    push_u64(&mut out, index as u64);
    push_str(&mut out, "\n");
    push_all(&mut out, template);
    push_str(&mut out, "\n");
    let ghost before = out@;
    let mut i: usize = 0;
    while i < index
        invariant
            i <= index,
            out@ == before + Seq::new(i as nat, |k: int| '-'),
        decreases index - i,
    {
        out.push('-');
        i += 1;
        assert(Seq::new(i as nat, |k: int| '-') == Seq::new((i - 1) as nat, |k: int| '-') + seq![
            '-',
        ]);
    }
    push_str(&mut out, "^");
    out
}

/// A .NET `FormattingException` raised at `index`: the message carries the
/// envelope.
pub fn formatting_error(ctx: &Ctx, issue: &Vec<char>, index: usize) -> (res: Error)
    ensures
        res matches Error::Format { message, position } && position == index && message@
            == envelope_spec(ctx.template@, issue@, index as nat),
{
    let message = envelope(ctx.template, issue, index);
    Error::Format { message: to_string(&message), position: index }
}

/// A plain .NET exception raised inside a formatter, which the evaluator
/// catches: the message is the bare issue.
pub fn plain_error(issue: &Vec<char>, position: usize) -> (res: Error)
    ensures
        res matches Error::Format { message, position: p } && p == position && message@ == issue@,
{
    Error::Format { message: to_string(issue), position }
}

/// The text of the placeholder's format when it is one literal with no
/// backslash (or empty), [`literal_format_text`]; `None` for any other
/// format, or when there is none.
pub open spec fn literal_format_of(src: Seq<char>, p: Placeholder) -> Option<Seq<char>> {
    match p.format {
        Some(f) => literal_format_text(src, *f),
        None => None,
    }
}

/// [`spanned_literal_text`] of the placeholder's format, `None` when it has
/// none.
pub open spec fn spanned_format_of(src: Seq<char>, p: Placeholder) -> Option<Seq<char>> {
    match p.format {
        Some(f) => spanned_literal_text(src, *f),
        None => None,
    }
}

/// What rendering a part of a literal format writes: nothing for an empty
/// part, the part's text padded to the alignment otherwise.
pub open spec fn part_output(piece: Seq<char>, alignment: int) -> Seq<char> {
    if piece.len() == 0 {
        Seq::empty()
    } else {
        aligned(piece, alignment)
    }
}

/// A format that is one literal with no backslash, or empty, renders as
/// [`part_output`] of its text.
pub proof fn lemma_literal_part_renders(src: Seq<char>, f: Format, alignment: int)
    requires
        literal_format_text(src, f) is Some,
        literal_format_text(src, f)->0.len() <= usize::MAX / 4,
    ensures
        all_plain_literals(src, f.items@),
        literals_text(src, f.items@, alignment) == part_output(
            literal_format_text(src, f)->0,
            alignment,
        ),
{
    if f.items.len() == 1 {
        assert(f.items@.drop_last() =~= Seq::<FormatItem>::empty());
        assert(literals_text(src, f.items@.drop_last(), alignment) == Seq::<char>::empty());
        let t = literal_format_text(src, f)->0;
        assert(Seq::<char>::empty() + aligned(t, alignment) =~= aligned(t, alignment));
    }
}

/// Whether a placeholder names no formatter and has neither options nor a
/// format, such as `{0}`.
pub open spec fn is_bare(p: Placeholder) -> bool {
    p.formatter_name@.len() == 0 && p.options is None && p.format is None
}

/// Where a formatter reports its errors: at the start of the placeholder's
/// format, or at its closing brace when it has none.
pub open spec fn error_position_spec(p: &Placeholder) -> usize {
    match p.format {
        Some(f) => f.start,
        None => if p.end > 0 {
            (p.end - 1) as usize
        } else {
            0
        },
    }
}

pub fn error_position(p: &Placeholder) -> (res: usize)
    ensures
        res == error_position_spec(p),
{
    match &p.format {
        Some(f) => f.start,
        None => if p.end > 0 {
            p.end - 1
        } else {
            0
        },
    }
}

/// The error a format that nests deeper than [`MAX_DEPTH`] fails with.
fn depth_error(position: usize) -> (res: Error)
    ensures
        res matches Error::Format { message, position: p } && p == position && message@
            == "Formats nest too deeply"@,
{
    let mut issue: Vec<char> = Vec::new();
    push_str(&mut issue, "Formats nest too deeply");
    assert(issue@ =~= "Formats nest too deeply"@);
    plain_error(&issue, position)
}

/// `Formatter named '{name}'` followed by `rest`.
pub fn named_issue(name: &Vec<char>, rest: &str) -> (res: Vec<char>)
    ensures
        res@ == "Formatter named '"@ + name@ + "'"@ + rest@,
{
    let mut issue: Vec<char> = Vec::new();
    push_str(&mut issue, "Formatter named '");
    push_all(&mut issue, name);
    push_str(&mut issue, "'");
    push_str(&mut issue, rest);
    issue
}

/// Whether `res` is a format error with `message` at `position`.
pub open spec fn fails_with(res: Result<bool, Error>, message: Seq<char>, position: int) -> bool {
    res matches Err(Error::Format { message: m, position: q }) && m@ == message && q == position
}

/// What a formatter answers when it cannot take the placeholder `p`: it
/// declines (`Ok(false)`) when the placeholder names no formatter, and
/// fails with `Formatter named '…'` and `rest` at the placeholder's error
/// position when it does.
pub open spec fn declines_or_fails(p: Placeholder, rest: Seq<char>, res: Result<bool, Error>) -> bool {
    if p.formatter_name@.len() == 0 {
        res == Ok::<bool, Error>(false)
    } else {
        fails_with(
            res,
            "Formatter named '"@ + p.formatter_name@ + "'"@ + rest,
            error_position_spec(&p) as int,
        )
    }
}

/// .NET's answer when a formatter cannot take the placeholder: a failure to
/// evaluate when the placeholder named no formatter (auto-detection), a
/// plain error naming the formatter when it did.
pub fn decline_or_error(info: &Info, rest: &str) -> (res: Result<bool, Error>)
    ensures
        declines_or_fails(*info.placeholder, rest@, res),
        info.placeholder.formatter_name@.len() == 0 ==> res == Ok::<bool, Error>(false),
        info.placeholder.formatter_name@.len() > 0 ==> (res matches Err(Error::Format {
            message,
            position,
        }) && message@ == "Formatter named '"@ + info.placeholder.formatter_name@ + "'"@ + rest@
            && position == error_position_spec(info.placeholder)),
{
    if info.placeholder.formatter_name.len() == 0 {
        return Ok(false);
    }
    let issue = named_issue(&info.placeholder.formatter_name, rest);
    Err(plain_error(&issue, error_position(info.placeholder)))
}

/// The text of a placeholder's formatter options, resolved as the call
/// resolves escape sequences — empty when it has none or their range lies
/// outside the template — or the escape error.
pub open spec fn options_spec(src: Seq<char>, p: Placeholder, convert: bool) -> Result<
    Seq<char>,
    (Seq<char>, int),
> {
    match p.options {
        None => Ok(Seq::empty()),
        Some((start, end)) => if start <= end && end <= src.len() {
            resolved_spec(src, start as int, end as int, convert)
        } else {
            Ok(Seq::empty())
        },
    }
}

/// The formatter options with their escape sequences resolved
/// ([`options_spec`]), or the escape error, which no error action recovers
/// from.
pub fn formatter_options(ctx: &Ctx, info: &Info) -> (res: Result<Vec<char>, Error>)
    ensures
        match options_spec(info.src@, *info.placeholder, ctx.convert) {
            Ok(t) => res matches Ok(r) && r@ == t,
            Err((message, position)) => res matches Err(Error::Escape { message: m, position: p })
                && m@ == message && p == position,
        },
        info.placeholder.options is None ==> (res matches Ok(t) && t@.len() == 0),
        res matches Err(e) ==> e is Escape,
{
    match info.placeholder.options {
        None => Ok(Vec::new()),
        Some((start, end)) => {
            if start <= end && end <= info.src.len() {
                match resolve_escapes(info.src, start, end, ctx.convert) {
                    Ok(t) => Ok(t),
                    Err(e) => Err(Error::Escape { message: e.message, position: e.position }),
                }
            } else {
                Ok(Vec::new())
            }
        },
    }
}

/// [`split_parts`] of the placeholder's format, `None` when it has none.
pub open spec fn format_parts(src: Seq<char>, p: Placeholder, sep: char, max: nat) -> Option<
    Seq<PartView>,
> {
    match p.format {
        Some(f) => Some(split_parts(src, *f, sep, max)),
        None => None,
    }
}

/// The parts of the placeholder's format split on `sep`, or `None` when it
/// has no format.
pub fn split_format(info: &Info, sep: char, max: usize) -> (res: Option<Vec<Format>>)
    ensures
        info.placeholder.format is None <==> res is None,
        res matches Some(parts) ==> 1 <= parts.len() <= max + 1,
        literal_format_of(info.src@, *info.placeholder) matches Some(t) ==> (t.len() < max ==> (
        res matches Some(parts) && parts.len() == split_spec(t, sep).len() && forall|j: int|
            0 <= j < parts.len() ==> literal_format_text(info.src@, #[trigger] parts@[j]) == Some(
                split_spec(t, sep)[j],
            ))),
        format_parts(info.src@, *info.placeholder, sep, max as nat) matches Some(views) ==> (
        res matches Some(parts) && parts_alike(parts@, views)),
{
    match &info.placeholder.format {
        Some(f) => Some(split(info.src, f, sep, max)),
        None => None,
    }
}

// ---------------------------------------------------------------------------
// Writing
// ---------------------------------------------------------------------------

/// Writes `text` padded to the placeholder's alignment.
pub fn write_text(info: &Info, state: &mut State, text: &Vec<char>)
    ensures
        text.len() <= usize::MAX / 4 ==> final(state).out@ == old(state).out@ + aligned(
            text@,
            info.placeholder.alignment as int,
        ),
        final(state).collection_index == old(state).collection_index,
        final(state).rendered() == old(state).rendered(),
{
    if text.len() <= usize::MAX / 4 {
        write_aligned(&mut state.out, text, info.placeholder.alignment);
    } else {
        push_all(&mut state.out, text);
    }
}

/// Writes `text` as it is, with no padding.
pub fn write_unaligned(state: &mut State, text: &Vec<char>)
    ensures
        final(state).out@ == old(state).out@ + text@,
        final(state).collection_index == old(state).collection_index,
        final(state).rendered() == old(state).rendered(),
{
    push_all(&mut state.out, text);
}

// ---------------------------------------------------------------------------
// Rendering
// ---------------------------------------------------------------------------

/// `scopes` with `value` added as the innermost scope.
pub fn with_scope<'a>(scopes: &Vec<&'a Value>, value: &'a Value) -> (res: Vec<&'a Value>)
    ensures
        res@ == scopes@.push(value),
{
    let mut res: Vec<&'a Value> = Vec::new();
    let mut i: usize = 0;
    while i < scopes.len()
        invariant
            i <= scopes.len(),
            res@ == scopes@.subrange(0, i as int),
        decreases scopes.len() - i,
    {
        res.push(scopes[i]);
        i += 1;
    }
    res.push(value);
    assert(scopes@.subrange(0, scopes.len() as int) == scopes@);
    res
}

/// Renders the items of `format` against `current`: each literal with its
/// escape sequences resolved and padded to `alignment`, each placeholder
/// through the formatters.
///
/// A literal whose escape sequence resolves to nothing fails: at the top
/// level with an [`Error::Escape`], which no error action recovers from,
/// inside a placeholder's format with the plain error that placeholder's
/// error action then decides about.
#[verifier::rlimit(40)]
pub fn format_items(
    ctx: &Ctx,
    src: &Vec<char>,
    format: &Format,
    current: &Value,
    scopes: &Vec<&Value>,
    alignment: i32,
    top: bool,
    state: &mut State,
    fuel: usize,
) -> (res: Result<(), Error>)
    ensures
        all_plain_literals(src@, format.items@) ==> res is Ok && final(state).out@ == old(state).out@ + literals_text(src@, format.items@, alignment as int),
        all_simple_items(
            src@,
            format.items@,
            *current,
            *ctx.args,
            ctx.settings.case_sensitive,
            old(state).collection_index,
        ) && fuel >= 2 && can_render_bare(ctx) ==> res is Ok && final(state).out@ == old(state).out@
            + simple_items_text(
            src@,
            format.items@,
            alignment as int,
            *current,
            *ctx.args,
            ctx.settings.case_sensitive,
            old(state).collection_index,
        ) && final(state).collection_index == old(state).collection_index,
        forall|k: int|
            fuel >= 2 && format.items@.len() == 1 && format.items@[0] is Placeholder && placeholder_pick(
                format.items@[0]->Placeholder_0,
                *current,
                *ctx.args,
                ctx.settings.case_sensitive,
                old(state).collection_index,
            ) is Some ==> (#[trigger] named_output(
                ctx.settings,
                ctx.registry.formatters@,
                src@,
                format.items@[0]->Placeholder_0,
                placeholder_pick(
                    format.items@[0]->Placeholder_0,
                    *current,
                    *ctx.args,
                    ctx.settings.case_sensitive,
                    old(state).collection_index,
                )->0,
                ctx.convert,
                k,
            ) matches Some(t) ==> res is Ok && final(state).out@ == old(state).out@ + t),
        res is Ok ==> final(state).rendered() == old(state).rendered().push(
            rendering(src@, *format, *current, old(state).out@, final(state).out@),
        ),
    decreases fuel, 3nat,
{
    let ghost saved = state.rendered@;
    let ghost before = state.out@;
    let ghost plain = all_plain_literals(src@, format.items@);
    let ghost index = state.collection_index;
    let ghost pick = placeholder_pick(
        format.items@[0]->Placeholder_0,
        *current,
        *ctx.args,
        ctx.settings.case_sensitive,
        state.collection_index,
    );
    let ghost one = exists|k: int|
        fuel >= 2 && format.items@.len() == 1 && format.items@[0] is Placeholder && pick is Some
            && #[trigger] named_output(
            ctx.settings,
            ctx.registry.formatters@,
            src@,
            format.items@[0]->Placeholder_0,
            pick->0,
            ctx.convert,
            k,
        ) is Some;
    let ghost kk = choose|k: int|
        fuel >= 2 && format.items@.len() == 1 && format.items@[0] is Placeholder && pick is Some
            && #[trigger] named_output(
            ctx.settings,
            ctx.registry.formatters@,
            src@,
            format.items@[0]->Placeholder_0,
            pick->0,
            ctx.convert,
            k,
        ) is Some;
    let ghost chosen = named_output(
        ctx.settings,
        ctx.registry.formatters@,
        src@,
        format.items@[0]->Placeholder_0,
        pick->0,
        ctx.convert,
        kk,
    );
    let ghost simple = all_simple_items(
        src@,
        format.items@,
        *current,
        *ctx.args,
        ctx.settings.case_sensitive,
        index,
    ) && fuel >= 2 && can_render_bare(ctx);
    let mut i: usize = 0;
    while i < format.items.len()
        invariant
            i <= format.items.len(),
            plain == all_plain_literals(src@, format.items@),
            plain ==> state.out@ == old(state).out@ + literals_text(
                src@,
                format.items@.take(i as int),
                alignment as int,
            ),
            index == old(state).collection_index,
            simple == (all_simple_items(
                src@,
                format.items@,
                *current,
                *ctx.args,
                ctx.settings.case_sensitive,
                index,
            ) && fuel >= 2 && can_render_bare(ctx)),
            simple ==> state.out@ == old(state).out@ + simple_items_text(
                src@,
                format.items@.take(i as int),
                alignment as int,
                *current,
                *ctx.args,
                ctx.settings.case_sensitive,
                index,
            ),
            simple ==> state.collection_index == index,
            chosen == named_output(
                ctx.settings,
                ctx.registry.formatters@,
                src@,
                format.items@[0]->Placeholder_0,
                pick->0,
                ctx.convert,
                kk,
            ),
            pick == placeholder_pick(
                format.items@[0]->Placeholder_0,
                *current,
                *ctx.args,
                ctx.settings.case_sensitive,
                index,
            ),
            one == exists|k: int|
                fuel >= 2 && format.items@.len() == 1 && format.items@[0] is Placeholder && pick is Some
                    && #[trigger] named_output(
                    ctx.settings,
                    ctx.registry.formatters@,
                    src@,
                    format.items@[0]->Placeholder_0,
                    pick->0,
                    ctx.convert,
                    k,
                ) is Some,
            one ==> fuel >= 2 && format.items@.len() == 1 && format.items@[0] is Placeholder && pick is Some
                && named_output(
                ctx.settings,
                ctx.registry.formatters@,
                src@,
                format.items@[0]->Placeholder_0,
                pick->0,
                ctx.convert,
                kk,
            ) is Some,
            one ==> fuel >= 2 && format.items@.len() == 1 && format.items@[0] is Placeholder
                && pick is Some && chosen is Some && (i == 0 ==> *state == *old(state)) && (i == 1
                ==> state.out@ == old(state).out@ + chosen->0),
        decreases format.items.len() - i,
    {
        proof {
            assert(format.items@.take(i + 1).drop_last() == format.items@.take(i as int));
            assert(format.items@.take(i + 1).last() == format.items@[i as int]);
        }
        match &format.items[i] {
            FormatItem::Literal(l) => {
                if l.start <= l.end && l.end <= src.len() {
                    match resolve_escapes(src, l.start, l.end, ctx.convert) {
                        Ok(text) => {
                            if text.len() <= usize::MAX / 4 {
                                write_aligned(&mut state.out, &text, alignment);
                            } else {
                                push_all(&mut state.out, &text);
                            }
                        },
                        Err(e) => {
                            if top {
                                return Err(Error::Escape { message: e.message, position: e.position });
                            } else {
                                return Err(Error::Format { message: e.message, position: e.position });
                            }
                        },
                    }
                }
            },
            FormatItem::Placeholder(p) => {
                if fuel == 0 {
                    return Err(depth_error(p.start));
                }
                let ghost before = *state;
                proof {
                    if one {
                        assert(*p == format.items@[0]->Placeholder_0);
                        assert(state.collection_index == index);
                        if p.selectors.len() == 0 {
                            assert(named_output(
                                ctx.settings,
                                ctx.registry.formatters@,
                                src@,
                                *p,
                                *current,
                                ctx.convert,
                                kk,
                            ) == chosen);
                        } else {
                            assert(named_output(
                                ctx.settings,
                                ctx.registry.formatters@,
                                src@,
                                *p,
                                lone_pick(
                                    *p,
                                    *current,
                                    *ctx.args,
                                    ctx.settings.case_sensitive,
                                    state.collection_index,
                                )->0,
                                ctx.convert,
                                kk,
                            ) == chosen);
                        }
                    }
                }
                eval_placeholder(ctx, src, p, current, scopes, state, fuel - 1)?;
            },
        }
        i += 1;
    }
    assert(format.items@.take(format.items.len() as int) == format.items@);
    state.rendered = Ghost(saved.push(rendering(src@, *format, *current, before, state.out@)));
    proof {
        assert forall|k: int|
            fuel >= 2 && format.items@.len() == 1 && format.items@[0] is Placeholder && pick is Some
                && #[trigger] named_output(
                ctx.settings,
                ctx.registry.formatters@,
                src@,
                format.items@[0]->Placeholder_0,
                pick->0,
                ctx.convert,
                k,
            ) is Some implies state.out@ == old(state).out@ + named_output(
                ctx.settings,
                ctx.registry.formatters@,
                src@,
                format.items@[0]->Placeholder_0,
                pick->0,
                ctx.convert,
                k,
            )->0 by {
            lemma_first_named_unique(
                ctx.settings,
                ctx.registry.formatters@,
                format.items@[0]->Placeholder_0,
                k,
                kk,
            );
        }
    }
    Ok(())
}

/// What parsing a template `{selector:name(options):text}` and rendering
/// its parsed form promise make its rendering [`template_choice_output`].
proof fn lemma_format_reads_named_choice(
    smart: &SmartFormatter,
    template: Seq<char>,
    parsed: &ParsedFormat,
    args: &Value,
    res: Result<String, Error>,
)
    requires
        parsed.src@ == template,
        forall|a: int, q: int, r: int, e: int|
            !smart.parser.string_format_compatibility && #[trigger] named_placeholder_at(template, 0, a, q, r, e)
                && e + 1 == template.len() ==> (parsed.format.items@.len() == 1 && (
            parsed.format.items@[0] matches FormatItem::Placeholder(ph) && named_placeholder_parsed(
                ph,
                parsed.src@,
                0,
                a,
                q,
                r,
                e,
                0,
            ))),
        forall|k: int|
            parsed.format.items@.len() == 1 && parsed.format.items@[0] is Placeholder && placeholder_pick(
                parsed.format.items@[0]->Placeholder_0,
                root_spec(*args),
                *args,
                smart.settings.case_sensitive,
                -1i64,
            ) is Some ==> (#[trigger] named_output(
                smart.settings,
                smart.formatters.formatters@,
                parsed.src@,
                parsed.format.items@[0]->Placeholder_0,
                placeholder_pick(
                    parsed.format.items@[0]->Placeholder_0,
                    root_spec(*args),
                    *args,
                    smart.settings.case_sensitive,
                    -1i64,
                )->0,
                smart.parser.settings.convert_character_string_literals,
                k,
            ) matches Some(t) ==> (res matches Ok(s) && s@ == t)),
    ensures
        forall|a: int, q: int, r: int, e: int, k: int|
            !smart.parser.string_format_compatibility && named_placeholder_at(template, 0, a, q, r, e)
                && e + 1 == template.len() && template_pick(
                template,
                a,
                root_spec(*args),
                *args,
                smart.settings.case_sensitive,
            ) is Some ==> (#[trigger] template_choice_output(
                smart.settings,
                smart.formatters.formatters@,
                template,
                a,
                q,
                r,
                e,
                template_pick(template, a, root_spec(*args), *args, smart.settings.case_sensitive)->0,
                smart.parser.settings.convert_character_string_literals,
                k,
            ) matches Some(t) ==> (res matches Ok(s) && s@ == t)),
{
    assert forall|a: int, q: int, r: int, e: int, k: int|
        !smart.parser.string_format_compatibility && named_placeholder_at(template, 0, a, q, r, e) && e
            + 1 == template.len() && template_pick(
            template,
            a,
            root_spec(*args),
            *args,
            smart.settings.case_sensitive,
        ) is Some && #[trigger] template_choice_output(
            smart.settings,
            smart.formatters.formatters@,
            template,
            a,
            q,
            r,
            e,
            template_pick(template, a, root_spec(*args), *args, smart.settings.case_sensitive)->0,
            smart.parser.settings.convert_character_string_literals,
            k,
        ) is Some implies res is Ok && res->Ok_0@ == template_choice_output(
            smart.settings,
            smart.formatters.formatters@,
            template,
            a,
            q,
            r,
            e,
            template_pick(template, a, root_spec(*args), *args, smart.settings.case_sensitive)->0,
            smart.parser.settings.convert_character_string_literals,
            k,
        )->0 by {
        let ph = parsed.format.items@[0]->Placeholder_0;
        lemma_named_choice_reads_template(
            smart.settings,
            smart.formatters.formatters@,
            parsed.src@,
            ph,
            a,
            q,
            r,
            e,
            template_pick(template, a, root_spec(*args), *args, smart.settings.case_sensitive)->0,
            smart.parser.settings.convert_character_string_literals,
            k,
        );
        assert(placeholder_pick(ph, root_spec(*args), *args, smart.settings.case_sensitive, -1i64)
            == template_pick(template, a, root_spec(*args), *args, smart.settings.case_sensitive));
    }
}

/// The placeholder a template `{:name(options):text}` parses into renders
/// as [`template_choice_output`] says.
proof fn lemma_named_choice_reads_template(
    settings: SmartSettings,
    formatters: Seq<AnyFormatter>,
    src: Seq<char>,
    p: Placeholder,
    a: int,
    q: int,
    r: int,
    e: int,
    value: Value,
    convert: bool,
    k: int,
)
    requires
        named_placeholder_at(src, 0, a, q, r, e),
        named_placeholder_parsed(p, src, 0, a, q, r, e, 0),
    ensures
        template_choice_output(settings, formatters, src, a, q, r, e, value, convert, k) is Some
            ==> named_output(settings, formatters, src, p, value, convert, k) == template_choice_output(
            settings,
            formatters,
            src,
            a,
            q,
            r,
            e,
            value,
            convert,
            k,
        ),
        forall|root: Value, args: Value|
            #[trigger] placeholder_pick(p, root, args, settings.case_sensitive, -1i64) == template_pick(
                src,
                a,
                root,
                args,
                settings.case_sensitive,
            ),
{
    let f = *p.format->0;
    assert(literal_format_text(src, f) == Some(src.subrange(r + 2, e))) by {
        if r + 2 < e {
            assert forall|j: int| r + 2 <= j < e implies src[j] != '\\' by {
                assert(r + 1 < j < e);
            }
        } else {
            assert(src.subrange(r + 2, e) =~= Seq::<char>::empty());
        }
    }
}

/// Only one formatter is the first a placeholder names.
proof fn lemma_first_named_unique(
    settings: SmartSettings,
    formatters: Seq<AnyFormatter>,
    p: Placeholder,
    k: int,
    m: int,
)
    requires
        first_named_in(settings, formatters, p, k),
        first_named_in(settings, formatters, p, m),
    ensures
        k == m,
{
    if k < m {
        assert(!names_match(settings.case_sensitive, formatters[k].name_of(), p.formatter_name@));
    } else if m < k {
        assert(!names_match(settings.case_sensitive, formatters[m].name_of(), p.formatter_name@));
    }
}

/// Whether every item is a literal of the template, of a length a vector of
/// characters can have, holding no backslash — so that it renders as its
/// own text.
pub open spec fn all_plain_literals(src: Seq<char>, items: Seq<FormatItem>) -> bool {
    forall|i: int|
        0 <= i < items.len() ==> (#[trigger] items[i] matches FormatItem::Literal(l) && l.start
            <= l.end <= src.len() && l.end - l.start <= usize::MAX / 4 && forall|k: int|
            l.start <= k < l.end ==> src[k] != '\\')
}

/// The texts of the literals among `items`, each padded to `alignment`.
pub open spec fn literals_text(src: Seq<char>, items: Seq<FormatItem>, alignment: int) -> Seq<char>
    decreases items.len(),
{
    if items.len() == 0 {
        Seq::empty()
    } else {
        literals_text(src, items.drop_last(), alignment) + match items.last() {
            FormatItem::Literal(l) => aligned(src.subrange(l.start as int, l.end as int), alignment),
            FormatItem::Placeholder(_) => Seq::empty(),
        }
    }
}

/// Whether every item is a plain literal (as [`all_plain_literals`] says) or
/// a placeholder with a [`substitution_text`] of a length a vector of
/// characters can have.
pub open spec fn all_simple_items(
    src: Seq<char>,
    items: Seq<FormatItem>,
    current: Value,
    args: Value,
    case: CaseSensitivity,
    index: i64,
) -> bool {
    forall|i: int|
        0 <= i < items.len() ==> match #[trigger] items[i] {
            FormatItem::Literal(l) => l.start <= l.end <= src.len() && l.end - l.start <= usize::MAX
                / 4 && forall|k: int| l.start <= k < l.end ==> src[k] != '\\',
            FormatItem::Placeholder(p) => substitution_text(p, current, args, case, index) is Some
                && substitution_text(p, current, args, case, index)->0.len() <= usize::MAX / 4,
        }
}

/// The text of a run of plain literals and substituted placeholders: each
/// literal padded to `alignment`, each placeholder's substitution padded to
/// its own alignment.
pub open spec fn simple_items_text(
    src: Seq<char>,
    items: Seq<FormatItem>,
    alignment: int,
    current: Value,
    args: Value,
    case: CaseSensitivity,
    index: i64,
) -> Seq<char>
    decreases items.len(),
{
    if items.len() == 0 {
        Seq::empty()
    } else {
        simple_items_text(src, items.drop_last(), alignment, current, args, case, index)
            + match items.last() {
            FormatItem::Literal(l) => aligned(src.subrange(l.start as int, l.end as int), alignment),
            FormatItem::Placeholder(p) => aligned(
                substitution_text(p, current, args, case, index)->0,
                p.alignment as int,
            ),
        }
    }
}

/// The value a call renders its template against: the first of a list of
/// arguments (null for an empty list), or the one argument that is not a
/// list.
pub open spec fn root_spec(args: Value) -> Value {
    match args {
        Value::List(items) => if items.len() > 0 {
            items@[0]
        } else {
            Value::Null
        },
        other => other,
    }
}

/// What the pieces of a simple template render as: a character of text as
/// itself, a placeholder `{name}` (a piece of more than one character) as
/// [`first_selector_text`] of `name`; `None` when some placeholder has no
/// text.
pub open spec fn render_pieces(
    pieces: Seq<Seq<char>>,
    current: Value,
    args: Value,
    case: CaseSensitivity,
    index: i64,
) -> Option<Seq<char>>
    decreases pieces.len(),
{
    if pieces.len() == 0 {
        Some(Seq::empty())
    } else {
        match render_pieces(pieces.drop_last(), current, args, case, index) {
            None => None,
            Some(t) => {
                let piece = pieces.last();
                if piece.len() > 1 {
                    match first_selector_text(
                        current,
                        args,
                        piece.subrange(1, piece.len() - 1),
                        case,
                        index,
                    ) {
                        Some(x) => Some(t + x),
                        None => None,
                    }
                } else {
                    Some(t + piece)
                }
            },
        }
    }
}

/// What a simple template renders as against the arguments of a call,
/// names matched under `case`: its text, with each placeholder `{name}`
/// replaced by the text of the value `name` selects from the first
/// argument — or, for an index, of the argument it names. `None` for a
/// template that is not simple or a placeholder with no text.
pub open spec fn render_template(template: Seq<char>, args: Value, case: CaseSensitivity) -> Option<
    Seq<char>,
> {
    match template_pieces(template, 0) {
        Some(pieces) => render_pieces(pieces, root_spec(args), args, case, -1i64),
        None => None,
    }
}

/// Rendering two runs of pieces one after the other gives the two texts one
/// after the other.
proof fn lemma_render_concat(
    a: Seq<Seq<char>>,
    b: Seq<Seq<char>>,
    current: Value,
    args: Value,
    case: CaseSensitivity,
    index: i64,
)
    ensures
        render_pieces(a + b, current, args, case, index) == match render_pieces(
            a,
            current,
            args,
            case,
            index,
        ) {
            None => None,
            Some(x) => match render_pieces(b, current, args, case, index) {
                None => None,
                Some(y) => Some(x + y),
            },
        },
    decreases b.len(),
{
    if b.len() == 0 {
        assert(a + b =~= a);
        match render_pieces(a, current, args, case, index) {
            None => {},
            Some(x) => {
                assert(x + Seq::<char>::empty() =~= x);
            },
        }
    } else {
        assert((a + b).drop_last() =~= a + b.drop_last());
        assert((a + b).last() == b.last());
        lemma_render_concat(a, b.drop_last(), current, args, case, index);
        match render_pieces(a, current, args, case, index) {
            None => {},
            Some(x) => match render_pieces(b.drop_last(), current, args, case, index) {
                None => {},
                Some(y) => {
                    let piece = b.last();
                    if piece.len() > 1 {
                        match first_selector_text(
                            current,
                            args,
                            piece.subrange(1, piece.len() - 1),
                            case,
                            index,
                        ) {
                            Some(z) => {
                                assert(x + y + z =~= x + (y + z));
                            },
                            None => {},
                        }
                    } else {
                        assert(x + y + piece =~= x + (y + piece));
                    }
                },
            },
        }
    }
}

/// The characters of `src[a..b]` render as that text.
proof fn lemma_render_text(
    src: Seq<char>,
    a: int,
    b: int,
    current: Value,
    args: Value,
    case: CaseSensitivity,
    index: i64,
)
    requires
        0 <= a <= b <= src.len(),
    ensures
        render_pieces(text_pieces(src, a, b), current, args, case, index) == Some(
            src.subrange(a, b),
        ),
    decreases b - a,
{
    if b == a {
        assert(src.subrange(a, b) =~= Seq::<char>::empty());
    } else {
        lemma_render_text(src, a, b - 1, current, args, case, index);
        let pieces = text_pieces(src, a, b);
        assert(pieces.drop_last() =~= text_pieces(src, a, b - 1));
        assert(pieces.last() == seq![src[b - 1]]);
        assert(src.subrange(a, b - 1) + seq![src[b - 1]] =~= src.subrange(a, b));
    }
}

/// The items a simple template parses into render, placeholder by
/// placeholder, as its pieces do.
#[verifier::rlimit(60)]
#[verifier::spinoff_prover]
proof fn lemma_simple_items_render(
    src: Seq<char>,
    items: Seq<FormatItem>,
    current: Value,
    args: Value,
    case: CaseSensitivity,
    index: i64,
)
    requires
        simple_items(src, items),
        render_pieces(items_pieces(src, items), current, args, case, index) is Some,
        render_pieces(items_pieces(src, items), current, args, case, index)->0.len() <= usize::MAX
            / 4,
    ensures
        all_simple_items(src, items, current, args, case, index),
        simple_items_text(src, items, 0, current, args, case, index) == render_pieces(
            items_pieces(src, items),
            current,
            args,
            case,
            index,
        )->0,
    decreases items.len(),
{
    if items.len() == 0 {
        assert(simple_items_text(src, items, 0, current, args, case, index) == Seq::<
            char,
        >::empty());
    } else {
        let init = items.drop_last();
        let last = items.last();
        let last_pieces = match last {
            FormatItem::Literal(l) => text_pieces(src, l.start as int, l.end as int),
            FormatItem::Placeholder(p) => seq![src.subrange(p.start as int, p.end as int)],
        };
        assert(items_pieces(src, items) == items_pieces(src, init) + last_pieces);
        lemma_render_concat(items_pieces(src, init), last_pieces, current, args, case, index);
        assert(simple_items(src, init)) by {
            assert forall|i: int| 0 <= i < init.len() implies match #[trigger] init[i] {
                FormatItem::Literal(l) => l.start <= l.end <= src.len() && forall|k: int|
                    l.start <= k < l.end ==> src[k] != '{' && src[k] != '}' && src[k] != '\\',
                FormatItem::Placeholder(p) => is_name_placeholder(p) && p.start + 2 <= p.end
                    <= src.len() && src.subrange(p.start + 1, p.end - 1) == p.selectors@[0].text@,
            } by {
                assert(init[i] == items[i]);
            }
        }
        let whole = render_pieces(items_pieces(src, items), current, args, case, index)->0;
        let head = render_pieces(items_pieces(src, init), current, args, case, index)->0;
        let tail = render_pieces(last_pieces, current, args, case, index)->0;
        assert(whole == head + tail);
        lemma_simple_items_render(src, init, current, args, case, index);
        assert(items[items.len() - 1] == last);
        match last {
            FormatItem::Literal(l) => {
                lemma_render_text(src, l.start as int, l.end as int, current, args, case, index);
                let text = src.subrange(l.start as int, l.end as int);
                assert(tail == text);
                assert(aligned(text, 0) == text);
                assert(simple_items_text(src, items, 0, current, args, case, index)
                    == simple_items_text(src, init, 0, current, args, case, index) + aligned(
                    text,
                    0,
                ));
            },
            FormatItem::Placeholder(p) => {
                let piece = src.subrange(p.start as int, p.end as int);
                assert(last_pieces.drop_last() =~= Seq::<Seq<char>>::empty());
                assert(piece.subrange(1, piece.len() - 1) =~= p.selectors@[0].text@);
                let x = first_selector_text(current, args, p.selectors@[0].text@, case, index);
                assert(substitution_text(p, current, args, case, index) == x);
                assert(render_pieces(last_pieces.drop_last(), current, args, case, index) == Some(
                    Seq::<char>::empty(),
                ));
                assert(last_pieces.last() == piece);
                assert(piece.len() > 1);
                assert(render_pieces(last_pieces, current, args, case, index) == Some(
                    Seq::<char>::empty() + x->0,
                ));
                assert(Seq::<char>::empty() + x->0 =~= x->0);
                assert(tail == x->0);
                assert(aligned(tail, p.alignment as int) == tail);
                assert(simple_items_text(src, items, 0, current, args, case, index)
                    == simple_items_text(src, init, 0, current, args, case, index) + aligned(
                    substitution_text(p, current, args, case, index)->0,
                    p.alignment as int,
                ));
            },
        }
        assert forall|i: int| 0 <= i < items.len() implies match #[trigger] items[i] {
            FormatItem::Literal(l) => l.start <= l.end <= src.len() && l.end - l.start <= usize::MAX
                / 4 && forall|k: int| l.start <= k < l.end ==> src[k] != '\\',
            FormatItem::Placeholder(p) => substitution_text(p, current, args, case, index) is Some
                && substitution_text(p, current, args, case, index)->0.len() <= usize::MAX / 4,
        } by {
            if i < init.len() {
                assert(items[i] == init[i]);
            }
        }
    }
}

/// A template with no brace and no backslash parses as one literal that
/// renders as the template itself.
pub proof fn lemma_plain_template_renders_as_itself(src: Seq<char>, format: Format)
    requires
        is_plain_text(src),
        src.len() <= usize::MAX / 4,
        plain_literal(src, format),
    ensures
        all_plain_literals(src, format.items@),
        literals_text(src, format.items@, 0) == src,
{
    if src.len() > 0 {
        assert(format.items@.drop_last() =~= Seq::<FormatItem>::empty());
        assert(literals_text(src, format.items@.drop_last(), 0) == Seq::<char>::empty());
        assert(src.subrange(0, src.len() as int) == src);
        assert(aligned(src, 0) == src);
        assert(Seq::<char>::empty() + src =~= src);
    } else {
        assert(src =~= Seq::<char>::empty());
    }
}

/// Renders `format` as a child of the placeholder: against `value`, with the
/// placeholder's value as the innermost enclosing scope, into the same
/// output, padded to `alignment`.
pub fn format_child(
    ctx: &Ctx,
    info: &Info,
    src: &Vec<char>,
    format: &Format,
    value: &Value,
    alignment: i32,
    state: &mut State,
    fuel: usize,
) -> (res: Result<(), Error>)
    ensures
        all_plain_literals(src@, format.items@) ==> res is Ok && final(state).out@ == old(state).out@
            + literals_text(src@, format.items@, alignment as int),
        all_simple_items(
            src@,
            format.items@,
            *value,
            *ctx.args,
            ctx.settings.case_sensitive,
            old(state).collection_index,
        ) && fuel >= 2 && can_render_bare(ctx) ==> res is Ok && final(state).out@ == old(state).out@
            + simple_items_text(
            src@,
            format.items@,
            alignment as int,
            *value,
            *ctx.args,
            ctx.settings.case_sensitive,
            old(state).collection_index,
        ) && final(state).collection_index == old(state).collection_index,
        res is Ok ==> final(state).rendered() == old(state).rendered().push(
            rendering(src@, *format, *value, old(state).out@, final(state).out@),
        ),
    decreases fuel, 4nat,
{
    let scopes = with_scope(info.scopes, info.value);
    format_items(ctx, src, format, value, &scopes, alignment, false, state, fuel)
}

/// [`format_child`] of a part of the placeholder's own format, with the
/// placeholder's alignment — .NET's `FormatAsChild`.
pub fn format_as_child(
    ctx: &Ctx,
    info: &Info,
    format: &Format,
    value: &Value,
    state: &mut State,
    fuel: usize,
) -> (res: Result<(), Error>)
    ensures
        all_plain_literals(info.src@, format.items@) ==> res is Ok && final(state).out@ == old(state).out@ + literals_text(info.src@, format.items@, info.placeholder.alignment as int),
        all_simple_items(
            info.src@,
            format.items@,
            *value,
            *ctx.args,
            ctx.settings.case_sensitive,
            old(state).collection_index,
        ) && fuel >= 2 && can_render_bare(ctx) ==> res is Ok && final(state).out@ == old(state).out@
            + simple_items_text(
            info.src@,
            format.items@,
            info.placeholder.alignment as int,
            *value,
            *ctx.args,
            ctx.settings.case_sensitive,
            old(state).collection_index,
        ) && final(state).collection_index == old(state).collection_index,
        res is Ok ==> final(state).rendered() == old(state).rendered().push(
            rendering(info.src@, *format, *value, old(state).out@, final(state).out@),
        ),
    decreases fuel, 5nat,
{
    format_child(ctx, info, info.src, format, value, info.placeholder.alignment, state, fuel)
}

/// Placeholders that read alike are substituted alike.
proof fn lemma_alike_substitution(
    p: Placeholder,
    q: Placeholder,
    current: Value,
    args: Value,
    case: CaseSensitivity,
    index: i64,
)
    requires
        placeholder_alike(p, q),
    ensures
        substitution_text(p, current, args, case, index) == substitution_text(
            q,
            current,
            args,
            case,
            index,
        ),
{
    if p.selectors.len() > 0 {
        assert(selector_alike(p.selectors@[0], q.selectors@[0]));
    }
    assert forall|k: int| 0 <= k < p.selectors.len() implies #[trigger] chain_names(p)[k]
        == chain_names(q)[k] && p.selectors@[k].operator@ == q.selectors@[k].operator@ by {
        assert(selector_alike(p.selectors@[k], q.selectors@[k]));
    }
    assert(chain_names(p) =~= chain_names(q));
    assert(chained_selectors(p) == chained_selectors(q)) by {
        if chained_selectors(p) {
            assert forall|k: int| 1 <= k < q.selectors.len() implies (#[trigger] q.selectors@[k]).operator@.len()
                > 0 && q.selectors@[k].operator@[0] != '?' by {
                assert(chain_names(p)[k] == chain_names(q)[k]);
            }
        }
        if chained_selectors(q) {
            assert forall|k: int| 1 <= k < p.selectors.len() implies (#[trigger] p.selectors@[k]).operator@.len()
                > 0 && p.selectors@[k].operator@[0] != '?' by {
                assert(chain_names(p)[k] == chain_names(q)[k]);
            }
        }
    }
}

/// Runs of items that are alike are simple alike, and plain alike.
proof fn lemma_alike_all(
    src: Seq<char>,
    a: Seq<FormatItem>,
    b: Seq<FormatItem>,
    current: Value,
    args: Value,
    case: CaseSensitivity,
    index: i64,
)
    requires
        items_alike(a, b),
    ensures
        all_simple_items(src, a, current, args, case, index) ==> all_simple_items(
            src,
            b,
            current,
            args,
            case,
            index,
        ),
        all_plain_literals(src, a) ==> all_plain_literals(src, b),
{
    assert forall|i: int| 0 <= i < b.len() implies (match #[trigger] b[i] {
        FormatItem::Placeholder(q) => match a[i] {
            FormatItem::Placeholder(p) => substitution_text(p, current, args, case, index)
                == substitution_text(q, current, args, case, index),
            _ => false,
        },
        FormatItem::Literal(x) => a[i] == FormatItem::Literal(x),
    }) by {
        assert(item_alike(a[i], b[i]));
        match a[i] {
            FormatItem::Placeholder(p) => {
                match b[i] {
                    FormatItem::Placeholder(q) => {
                        lemma_alike_substitution(p, q, current, args, case, index);
                    },
                    _ => {},
                }
            },
            _ => {},
        }
    }
}

/// Items alike, in the other order.
proof fn lemma_alike_flip(a: Seq<FormatItem>, b: Seq<FormatItem>)
    requires
        items_alike(a, b),
    ensures
        items_alike(b, a),
{
    assert forall|i: int| 0 <= i < b.len() implies item_alike(#[trigger] b[i], a[i]) by {
        assert(item_alike(a[i], b[i]));
        match a[i] {
            FormatItem::Placeholder(p) => {
                match b[i] {
                    FormatItem::Placeholder(q) => {
                        assert forall|k: int| 0 <= k < q.selectors.len() implies selector_alike(
                            #[trigger] q.selectors@[k],
                            p.selectors@[k],
                        ) by {
                            assert(selector_alike(p.selectors@[k], q.selectors@[k]));
                        }
                    },
                    _ => {},
                }
            },
            _ => {},
        }
    }
}

/// Runs of items that are alike render alike.
pub proof fn lemma_alike_renders_alike(
    src: Seq<char>,
    a: Seq<FormatItem>,
    b: Seq<FormatItem>,
    alignment: int,
    current: Value,
    args: Value,
    case: CaseSensitivity,
    index: i64,
)
    requires
        items_alike(a, b),
    ensures
        all_simple_items(src, a, current, args, case, index) == all_simple_items(
            src,
            b,
            current,
            args,
            case,
            index,
        ),
        simple_items_text(src, a, alignment, current, args, case, index) == simple_items_text(
            src,
            b,
            alignment,
            current,
            args,
            case,
            index,
        ),
        all_plain_literals(src, a) == all_plain_literals(src, b),
        literals_text(src, a, alignment) == literals_text(src, b, alignment),
    decreases a.len(),
{
    lemma_alike_all(src, a, b, current, args, case, index);
    lemma_alike_flip(a, b);
    lemma_alike_all(src, b, a, current, args, case, index);
    if a.len() > 0 {
        assert(items_alike(a.drop_last(), b.drop_last())) by {
            assert forall|i: int| 0 <= i < a.len() - 1 implies item_alike(
                #[trigger] a.drop_last()[i],
                b.drop_last()[i],
            ) by {
                assert(item_alike(a[i], b[i]));
            }
        }
        lemma_alike_renders_alike(src, a.drop_last(), b.drop_last(), alignment, current, args, case, index);
        assert(item_alike(a[a.len() - 1], b[b.len() - 1]));
        match a.last() {
            FormatItem::Placeholder(p) => {
                match b.last() {
                    FormatItem::Placeholder(q) => {
                        lemma_alike_substitution(p, q, current, args, case, index);
                    },
                    _ => {},
                }
            },
            _ => {},
        }
    }
}

/// Whether `v` is a string whose text is `text`.
pub open spec fn string_with_text(v: Value, text: Seq<char>) -> bool {
    v matches Value::String(s) && s@ == text
}

/// A chain of names gives two strings with the same text the same text,
/// and picks the same values from them.
proof fn lemma_chain_same_text(
    a: Value,
    b: Value,
    args: Value,
    names: Seq<Seq<char>>,
    case: CaseSensitivity,
    index: i64,
)
    requires
        a is String,
        string_with_text(b, a->String_0@),
    ensures
        names.len() >= 1 ==> chain_value(a, args, names, case, index) == chain_value(
            b,
            args,
            names,
            case,
            index,
        ),
        chain_text(a, args, names, case, index) == chain_text(b, args, names, case, index),
    decreases names.len(),
{
    if names.len() >= 1 {
        lemma_chain_same_text(a, b, args, names.drop_last(), case, index);
    }
}

/// Two strings with the same text render alike in a run of plain literals
/// and substituted placeholders.
pub proof fn lemma_same_text_renders_alike(
    src: Seq<char>,
    items: Seq<FormatItem>,
    alignment: int,
    a: Value,
    b: Value,
    args: Value,
    case: CaseSensitivity,
    index: i64,
)
    requires
        a is String,
        string_with_text(b, a->String_0@),
    ensures
        all_simple_items(src, items, a, args, case, index) == all_simple_items(
            src,
            items,
            b,
            args,
            case,
            index,
        ),
        simple_items_text(src, items, alignment, a, args, case, index) == simple_items_text(
            src,
            items,
            alignment,
            b,
            args,
            case,
            index,
        ),
    decreases items.len(),
{
    assert forall|p: Placeholder| #[trigger]
        substitution_text(p, a, args, case, index) == substitution_text(p, b, args, case, index) by {
        lemma_chain_same_text(a, b, args, chain_names(p), case, index);
    }
    if items.len() > 0 {
        lemma_same_text_renders_alike(src, items.drop_last(), alignment, a, b, args, case, index);
    }
}

/// Whether the registry holds the default formatter.
pub open spec fn has_default(r: FormatterRegistry) -> bool {
    exists|k: int| 0 <= k < r.formatters.len() && (#[trigger] r.formatters@[k]) is Default
}

/// Whether a bare placeholder reaches the default formatter: the call is in
/// `string.Format` compatibility, where only that formatter runs, or the
/// registry holds it.
pub open spec fn can_render_bare(ctx: &Ctx) -> bool {
    ctx.settings.string_format_compatibility || has_default(*ctx.registry)
}

/// What a bare placeholder writes when it has no selector, such as `{}`:
/// [`scalar_text`] of the current value; when its only selector, written
/// with no operator, is `name`: [`first_selector_text`] of the current value
/// under the call's case sensitivity and the collection index; when its
/// selectors are a chain of names ([`chained_selectors`]), such as
/// `{Person.Name}` or `{m[1]}`: [`chain_text`] of the current value. `None` for any other placeholder.
pub open spec fn substitution_text(
    p: Placeholder,
    current: Value,
    args: Value,
    case: CaseSensitivity,
    index: i64,
) -> Option<Seq<char>> {
    if is_bare(p) && p.selectors.len() == 0 {
        scalar_text(current)
    } else if is_bare(p) && p.selectors.len() == 1 && p.selectors@[0].operator@.len() == 0 {
        first_selector_text(current, args, p.selectors@[0].text@, case, index)
    } else if is_bare(p) && p.selectors.len() >= 2 && chained_selectors(p) {
        chain_text(current, args, chain_names(p), case, index)
    } else {
        None
    }
}

/// Renders one placeholder, applying the error action to a failure.
///
/// A formatting error is swallowed (`Ignore`), replaced by the
/// placeholder's own text (`MaintainTokens`), written out
/// (`OutputErrorInResult`) or passed on (`Error`); every other error is
/// passed on whatever the action.
pub fn eval_placeholder(
    ctx: &Ctx,
    src: &Vec<char>,
    p: &Placeholder,
    current: &Value,
    scopes: &Vec<&Value>,
    state: &mut State,
    fuel: usize,
) -> (res: Result<(), Error>)
    ensures
        res is Err && ctx.settings.format_error_action != ErrorAction::Error ==> !(res->Err_0 is Format),
        fuel > 0 && can_render_bare(ctx) ==> match substitution_text(
            *p,
            *current,
            *ctx.args,
            ctx.settings.case_sensitive,
            old(state).collection_index,
        ) {
            Some(text) => text.len() <= usize::MAX / 4 ==> res is Ok && final(state).out@ == old(state).out@ + aligned(text, p.alignment as int) && final(state).collection_index == old(state).collection_index,
            None => true,
        },
        forall|k: int|
            fuel > 0 && p.selectors.len() == 0 && is_scalar(*current) ==> (#[trigger] named_output(
                ctx.settings,
                ctx.registry.formatters@,
                src@,
                *p,
                *current,
                ctx.convert,
                k,
            ) matches Some(t) ==> res is Ok && final(state).out@ == old(state).out@ + t),
        forall|k: int|
            fuel > 0 && lone_pick(
                *p,
                *current,
                *ctx.args,
                ctx.settings.case_sensitive,
                old(state).collection_index,
            ) is Some ==> (#[trigger] named_output(
                ctx.settings,
                ctx.registry.formatters@,
                src@,
                *p,
                lone_pick(
                    *p,
                    *current,
                    *ctx.args,
                    ctx.settings.case_sensitive,
                    old(state).collection_index,
                )->0,
                ctx.convert,
                k,
            ) matches Some(t) ==> res is Ok && final(state).out@ == old(state).out@ + t),
    decreases fuel, 2nat,
{
    let result = evaluate(ctx, src, p, current, scopes, state, fuel);
    match result {
        Ok(()) => Ok(()),
        Err(Error::Format { message, position }) => {
            let raw = raw_range(src, p.start, p.end);
            apply_error_action(
                ctx.settings.format_error_action,
                message,
                position,
                &raw,
                &mut state.out,
            )
        },
        Err(e) => Err(e),
    }
}

/// What a formatting error turns into under an error action: with
/// [`ErrorAction::Error`] the error itself, leaving the output alone; with
/// any other action success, after writing nothing (`Ignore`), the
/// placeholder's own text (`MaintainTokens`) or the error's message
/// (`OutputErrorInResult`).
pub fn apply_error_action(
    action: ErrorAction,
    message: String,
    position: usize,
    raw: &Vec<char>,
    out: &mut Vec<char>,
) -> (res: Result<(), Error>)
    ensures
        action == ErrorAction::Error ==> (res matches Err(Error::Format { message: m, position: q })
            && m == message && q == position && final(out)@ == old(out)@),
        action == ErrorAction::Ignore ==> res is Ok && final(out)@ == old(out)@,
        action == ErrorAction::MaintainTokens ==> res is Ok && final(out)@ == old(out)@ + raw@,
        action == ErrorAction::OutputErrorInResult ==> res is Ok && final(out)@ == old(out)@
            + message@,
{
    match action {
        ErrorAction::Error => Err(Error::Format { message, position }),
        ErrorAction::Ignore => Ok(()),
        ErrorAction::OutputErrorInResult => {
            push_str(out, message.as_str());
            Ok(())
        },
        ErrorAction::MaintainTokens => {
            push_all(out, raw);
            Ok(())
        },
    }
}

/// Evaluates the selectors of a placeholder and hands the value to the
/// formatters.
fn evaluate(
    ctx: &Ctx,
    src: &Vec<char>,
    p: &Placeholder,
    current: &Value,
    scopes: &Vec<&Value>,
    state: &mut State,
    fuel: usize,
) -> (res: Result<(), Error>)
    ensures
        fuel > 0 && can_render_bare(ctx) ==> match substitution_text(
            *p,
            *current,
            *ctx.args,
            ctx.settings.case_sensitive,
            old(state).collection_index,
        ) {
            Some(text) => text.len() <= usize::MAX / 4 ==> res is Ok && final(state).out@ == old(state).out@ + aligned(text, p.alignment as int) && final(state).collection_index == old(state).collection_index,
            None => true,
        },
        forall|k: int|
            fuel > 0 && p.selectors.len() == 0 && is_scalar(*current) ==> (#[trigger] named_output(
                ctx.settings,
                ctx.registry.formatters@,
                src@,
                *p,
                *current,
                ctx.convert,
                k,
            ) matches Some(t) ==> res is Ok && final(state).out@ == old(state).out@ + t),
        forall|k: int|
            fuel > 0 && lone_pick(
                *p,
                *current,
                *ctx.args,
                ctx.settings.case_sensitive,
                old(state).collection_index,
            ) is Some ==> (#[trigger] named_output(
                ctx.settings,
                ctx.registry.formatters@,
                src@,
                *p,
                lone_pick(
                    *p,
                    *current,
                    *ctx.args,
                    ctx.settings.case_sensitive,
                    old(state).collection_index,
                )->0,
                ctx.convert,
                k,
            ) matches Some(t) ==> res is Ok && final(state).out@ == old(state).out@ + t),
    decreases fuel, 1nat,
{
    let value = select(ctx, p, current, scopes, state)?;
    let parents = with_scope(scopes, current);
    let info = Info { src, placeholder: p, value: &value, scopes: &parents };
    proof {
        if p.selectors.len() == 0 && is_scalar(*current) {
            assert(value == *current);
        }
    }
    let res = run_formatters(ctx, &info, state, fuel);
    proof {
        assert forall|k: int|
            fuel > 0 && p.selectors.len() == 0 && is_scalar(*current) && #[trigger] named_output(
                ctx.settings,
                ctx.registry.formatters@,
                src@,
                *p,
                *current,
                ctx.convert,
                k,
            ) is Some implies res is Ok && state.out@ == old(state).out@ + named_output(
                ctx.settings,
                ctx.registry.formatters@,
                src@,
                *p,
                *current,
                ctx.convert,
                k,
            )->0 by {
            assert(first_named(ctx, *info.placeholder, k));
        }
        let pick = lone_pick(
            *p,
            *current,
            *ctx.args,
            ctx.settings.case_sensitive,
            old(state).collection_index,
        );
        assert forall|k: int|
            fuel > 0 && pick is Some && #[trigger] named_output(
                ctx.settings,
                ctx.registry.formatters@,
                src@,
                *p,
                pick->0,
                ctx.convert,
                k,
            ) is Some implies res is Ok && state.out@ == old(state).out@ + named_output(
                ctx.settings,
                ctx.registry.formatters@,
                src@,
                *p,
                pick->0,
                ctx.convert,
                k,
            )->0 by {
            assert(first_named(ctx, *info.placeholder, k));
            match ctx.registry.formatters@[k] {
                AnyFormatter::Choose(c) => {
                    lemma_copy_matches_alike(pick->0, value, c.case_spec());
                },
                _ => {},
            }
        }
    }
    res
}

/// Hands the placeholder to the formatters: to the ones of its formatter
/// name when it names one, to the auto-detecting ones in order when it does
/// not. The first that takes it renders it.
#[verifier::loop_isolation(false)]
fn run_formatters(ctx: &Ctx, info: &Info, state: &mut State, fuel: usize) -> (res: Result<
    (),
    Error,
>)
    ensures
        is_bare(*info.placeholder) && is_scalar(*info.value) && fuel > 0 && can_render_bare(ctx)
            ==> match default_text_spec(*info.value, Seq::empty()) {
            Some(text) => text.len() <= usize::MAX / 4 ==> res is Ok && final(state).out@ == old(state).out@ + aligned(text, info.placeholder.alignment as int) && final(state).collection_index == old(state).collection_index,
            None => true,
        },
        fuel > 0 && unnamed_formatter(ctx, *info.placeholder) ==> *final(state) == *old(state)
            && (res matches Err(Error::Format { message, position }) && message@ == envelope_spec(
            ctx.template@,
            "No suitable Formatter could be found"@,
            error_position_spec(info.placeholder) as nat,
        ) && position == error_position_spec(info.placeholder)),
        forall|k: int|
            fuel > 0 && #[trigger] first_named(ctx, *info.placeholder, k) ==> (sure_output(
                ctx.registry.formatters@[k],
                info.src@,
                *info.placeholder,
                *info.value,
                ctx.convert,
            ) matches Some(t) ==> res is Ok && final(state).out@ == old(state).out@ + t),
    decreases fuel, 0nat,
{
    if fuel == 0 {
        return Err(depth_error(info.placeholder.start));
    }
    let ghost nameless = unnamed_formatter(ctx, *info.placeholder);
    let ghost text = default_text_spec(*info.value, Seq::empty());
    let ghost law = is_bare(*info.placeholder) && is_scalar(*info.value) && can_render_bare(ctx)
        && text is Some && text->0.len() <= usize::MAX / 4;
    let ghost chosen = exists|k: int|
        #[trigger] first_named(ctx, *info.placeholder, k) && sure_output(
            ctx.registry.formatters@[k],
            info.src@,
            *info.placeholder,
            *info.value,
            ctx.convert,
        ) is Some;
    let ghost target = choose|k: int|
        #[trigger] first_named(ctx, *info.placeholder, k) && sure_output(
            ctx.registry.formatters@[k],
            info.src@,
            *info.placeholder,
            *info.value,
            ctx.convert,
        ) is Some;
    if ctx.settings.string_format_compatibility {
        let handled = default_format(ctx, info, state, fuel - 1)?;
        if handled {
            return Ok(());
        }
    } else {
        let name = &info.placeholder.formatter_name;
        let formatters = &ctx.registry.formatters;
        let ghost dflt: int = choose|k: int|
            0 <= k < formatters.len() && (#[trigger] formatters@[k]) is Default;
        let mut i: usize = 0;
        while i < formatters.len()
            invariant
                i <= formatters.len(),
                fuel > 0,
                formatters == &ctx.registry.formatters,
                name == &info.placeholder.formatter_name,
                law ==> !ctx.settings.string_format_compatibility,
                law ==> i <= dflt < formatters.len() && formatters@[dflt] is Default,
                law ==> *state == *old(state),
                nameless == unnamed_formatter(ctx, *info.placeholder),
                nameless ==> *state == *old(state) && !ctx.settings.string_format_compatibility,
                chosen ==> i <= target && *state == *old(state) && first_named(
                    ctx,
                    *info.placeholder,
                    target,
                ) && sure_output(
                    formatters@[target],
                    info.src@,
                    *info.placeholder,
                    *info.value,
                    ctx.convert,
                ) is Some,
            decreases formatters.len() - i,
        {
            let f = &formatters[i];
            proof {
                if nameless {
                    assert(!names_match(ctx.settings.case_sensitive, formatters@[i as int].name_of(), name@));
                }
            }
            let eligible = if name.len() > 0 {
                let own = chars_of(f.name());
                ctx.settings.case_sensitive.matches(&own, name)
            } else {
                f.can_auto_detect()
            };
            if eligible {
                let handled = try_evaluate(ctx, f, info, state, fuel - 1)?;
                if handled {
                    return Ok(());
                }
            }
            i += 1;
        }
    }
    let mut issue: Vec<char> = Vec::new();
    push_str(&mut issue, "No suitable Formatter could be found");
    assert(issue@ =~= "No suitable Formatter could be found"@);
    Err(formatting_error(ctx, &issue, error_position(info.placeholder)))
}

/// Whether the formatter registered at `k` is the first one that answers to
/// the formatter name the placeholder gives — under the call's case
/// sensitivity — outside `string.Format` compatibility.
pub open spec fn first_named(ctx: &Ctx, p: Placeholder, k: int) -> bool {
    first_named_in(ctx.settings, ctx.registry.formatters@, p, k)
}

/// [`first_named`] for a call with these settings and these registered
/// formatters.
pub open spec fn first_named_in(
    settings: SmartSettings,
    formatters: Seq<AnyFormatter>,
    p: Placeholder,
    k: int,
) -> bool {
    &&& !settings.string_format_compatibility
    &&& p.formatter_name@.len() > 0
    &&& 0 <= k < formatters.len()
    &&& names_match(settings.case_sensitive, formatters[k].name_of(), p.formatter_name@)
    &&& forall|j: int|
        0 <= j < k ==> !names_match(
            settings.case_sensitive,
            (#[trigger] formatters[j]).name_of(),
            p.formatter_name@,
        )
}

/// The value a placeholder with one selector, written with no operator,
/// picks from `current` — [`step_value`] of its name, when the name asks
/// for no change of a text's case ([`step_text`]); `None` for any other
/// placeholder.
pub open spec fn lone_pick(
    p: Placeholder,
    current: Value,
    args: Value,
    case: CaseSensitivity,
    index: i64,
) -> Option<Value> {
    if p.selectors.len() == 1 && p.selectors@[0].operator@.len() == 0 && step_text(
        current,
        p.selectors@[0].text@,
        case,
    ) is None {
        step_value(current, args, p.selectors@[0].text@, case, index, true)
    } else {
        None
    }
}

/// The value a placeholder hands its formatter: `current` itself when the
/// placeholder has no selector and `current` is a single value, what its
/// one selector picks ([`lone_pick`]) when it has one; `None` otherwise.
pub open spec fn placeholder_pick(
    p: Placeholder,
    current: Value,
    args: Value,
    case: CaseSensitivity,
    index: i64,
) -> Option<Value> {
    if p.selectors.len() == 0 {
        if is_scalar(current) {
            Some(current)
        } else {
            None
        }
    } else {
        lone_pick(p, current, args, case, index)
    }
}

/// [`placeholder_pick`] for the placeholder of a template
/// `{selector:name(options):text}` whose selector ends before `a`, picking
/// from `root` outside any list.
pub open spec fn template_pick(src: Seq<char>, a: int, root: Value, args: Value, case: CaseSensitivity) -> Option<
    Value,
> {
    if a == 1 {
        if is_scalar(root) {
            Some(root)
        } else {
            None
        }
    } else if step_text(root, src.subrange(1, a), case) is None {
        step_value(root, args, src.subrange(1, a), case, -1i64, true)
    } else {
        None
    }
}

/// What a template `{selector:name(options):text}` — one placeholder, the
/// `:` after its selector at `a`, its `(` at `q`, its `)` at `r` and its
/// closing `}` at `e` — renders as with `value`, when the first formatter
/// registered under `name` is a choice formatter and `text` has a part the
/// value picks.
pub open spec fn template_choice_output(
    settings: SmartSettings,
    formatters: Seq<AnyFormatter>,
    src: Seq<char>,
    a: int,
    q: int,
    r: int,
    e: int,
    value: Value,
    convert: bool,
    k: int,
) -> Option<Seq<char>> {
    let name = src.subrange(a + 1, q);
    if !settings.string_format_compatibility && name.len() > 0 && 0 <= k < formatters.len()
        && names_match(settings.case_sensitive, formatters[k].name_of(), name) && (forall|j: int|
        0 <= j < k ==> !names_match(settings.case_sensitive, (#[trigger] formatters[j]).name_of(), name)) {
        match formatters[k] {
            AnyFormatter::Choose(c) => match resolved_spec(src, q + 1, r, convert) {
                Ok(opts) => c.pick_output(opts, src.subrange(r + 2, e), value, 0),
                Err(_) => None,
            },
            _ => None,
        }
    } else {
        None
    }
}

/// What a formatter surely writes for placeholder `p` of `src` with
/// `value`: a choice formatter the part of a plain format the value picks
/// ([`ChooseFormatter::chosen_output`]), a substring formatter the piece its
/// options cut out of a string ([`SubStringFormatter::cut_output`]), a null
/// formatter the part for a null or for any other value
/// ([`NullFormatter::null_output`]); `None` for any other formatter or
/// placeholder.
pub open spec fn sure_output(f: AnyFormatter, src: Seq<char>, p: Placeholder, value: Value, convert: bool) -> Option<
    Seq<char>,
> {
    match f {
        AnyFormatter::Choose(c) => c.chosen_output(src, p, value, convert),
        AnyFormatter::SubString(c) => c.cut_output(src, p, value, convert),
        AnyFormatter::Null(c) => c.null_output(src, p, value, convert),
        _ => None,
    }
}

/// What the first formatter a placeholder names surely writes for it with
/// `value` ([`sure_output`]).
pub open spec fn named_output(
    settings: SmartSettings,
    formatters: Seq<AnyFormatter>,
    src: Seq<char>,
    p: Placeholder,
    value: Value,
    convert: bool,
    k: int,
) -> Option<Seq<char>> {
    if first_named_in(settings, formatters, p, k) {
        sure_output(formatters[k], src, p, value, convert)
    } else {
        None
    }
}

/// Whether the placeholder names a formatter that no registered formatter
/// answers to — under the call's case sensitivity — outside `string.Format`
/// compatibility, so that no formatter is tried.
pub open spec fn unnamed_formatter(ctx: &Ctx, p: Placeholder) -> bool {
    &&& !ctx.settings.string_format_compatibility
    &&& p.formatter_name@.len() > 0
    &&& forall|k: int|
        0 <= k < ctx.registry.formatters.len() ==> !names_match(
            ctx.settings.case_sensitive,
            (#[trigger] ctx.registry.formatters@[k]).name_of(),
            p.formatter_name@,
        )
}

/// Asks one formatter to render the placeholder: `Ok(true)` when it did,
/// `Ok(false)` when it declined.
fn try_evaluate(ctx: &Ctx, f: &AnyFormatter, info: &Info, state: &mut State, fuel: usize) -> (res:
    Result<bool, Error>)
    ensures
        is_bare(*info.placeholder) && is_scalar(*info.value) && f is Default ==> match default_text_spec(
            *info.value,
            Seq::empty(),
        ) {
            Some(text) => text.len() <= usize::MAX / 4 ==> res == Ok::<bool, Error>(true) && final(state).out@ == old(state).out@ + aligned(text, info.placeholder.alignment as int) && final(state).collection_index == old(state).collection_index,
            None => true,
        },
        is_bare(*info.placeholder) && is_scalar(*info.value) && !(f is Default) && f.auto_detects()
            ==> res == Ok::<bool, Error>(false) && *final(state) == *old(state),
        sure_output(*f, info.src@, *info.placeholder, *info.value, ctx.convert) matches Some(t)
            ==> res == Ok::<bool, Error>(true) && final(state).out@ == old(state).out@ + t,
    decreases fuel, 9nat,
{
    match f {
        AnyFormatter::Choose(c) => c.try_evaluate_format(ctx, info, state, fuel),
        AnyFormatter::Null(c) => c.try_evaluate_format(ctx, info, state, fuel),
        AnyFormatter::IsMatch(c) => c.try_evaluate_format(ctx, info, state, fuel),
        AnyFormatter::Template(c) => c.try_evaluate_format(ctx, info, state, fuel),
        AnyFormatter::Localization(c) => c.try_evaluate_format(ctx, info, state, fuel),
        AnyFormatter::Conditional(c) => c.try_evaluate_format(ctx, info, state, fuel),
        AnyFormatter::List(c) => c.try_evaluate_format(ctx, info, state, fuel),
        AnyFormatter::SubString(c) => c.try_evaluate_format(ctx, info, state, fuel),
        AnyFormatter::Default(_) => default_format(ctx, info, state, fuel),
    }
}

// ---------------------------------------------------------------------------
// Selectors
// ---------------------------------------------------------------------------

/// The value of a run of at most nine ASCII digits, `None` for any other
/// text.
pub fn parse_index(text: &Vec<char>) -> (res: Option<usize>)
    ensures
        res is Some <==> (0 < text.len() <= 9 && all_digits(text@)),
        res matches Some(k) ==> k == digits_value(text@),
{
    if text.len() == 0 || text.len() > 9 {
        return None;
    }
    let mut i: usize = 0;
    while i < text.len()
        invariant
            i <= text.len() <= 9,
            all_digits(text@.take(i as int)),
        decreases text.len() - i,
    {
        let c = text[i];
        if !('0' <= c && c <= '9') {
            return None;
        }
        assert(text@.take(i + 1) =~= text@.take(i as int).push(c));
        i += 1;
    }
    assert(text@.take(text.len() as int) == text@);
    proof {
        lemma_digits_value_bound(text@);
        reveal_with_fuel(pow10, 10);
        assert(pow10(9) == 1000000000);
        lemma_pow10_monotone(text.len() as nat, 9);
    }
    let mut value: usize = 0;
    let mut j: usize = 0;
    while j < text.len()
        invariant
            j <= text.len() <= 9,
            all_digits(text@),
            digits_value(text@) < 1000000000,
            value == digits_value(text@.take(j as int)),
        decreases text.len() - j,
    {
        proof {
            assert(text@.take(j + 1).drop_last() == text@.take(j as int));
            lemma_digits_value_prefix(text@, (j + 1) as nat);
        }
        value = value * 10 + ((text[j] as u32) - 48) as usize;
        j += 1;
    }
    assert(text@.take(text.len() as int) == text@);
    Some(value)
}

/// `10^m <= 10^n` for `m <= n`.
proof fn lemma_pow10_monotone(m: nat, n: nat)
    requires
        m <= n,
    ensures
        pow10(m) <= pow10(n),
    decreases n - m,
{
    if m < n {
        lemma_pow10_monotone(m, (n - 1) as nat);
    }
}

/// The argument `k` names: the `k`-th of a list of arguments, or the only
/// argument when they are not a list and `k` is zero.
pub open spec fn argument_spec(args: Value, k: nat) -> Option<Value> {
    match args {
        Value::List(items) => if k < items.len() {
            Some(items@[k as int])
        } else {
            None
        },
        other => if k == 0 {
            Some(other)
        } else {
            None
        },
    }
}

/// The text of a value that stands alone, under the empty specifier;
/// `None` for a null, a list or a dictionary.
pub open spec fn scalar_text(v: Value) -> Option<Seq<char>> {
    if is_scalar(v) {
        default_text_spec(v, Seq::empty())
    } else {
        None
    }
}

/// The value of the first entry of a dictionary whose key is `name` under
/// `case`.
pub open spec fn dictionary_entry(
    entries: Seq<(String, Value)>,
    name: Seq<char>,
    case: CaseSensitivity,
) -> Option<Value>
    decreases entries.len(),
{
    if entries.len() == 0 {
        None
    } else {
        match dictionary_entry(entries.drop_last(), name, case) {
            Some(v) => Some(v),
            None => if names_match(case, entries.last().0@, name) {
                Some(entries.last().1)
            } else {
                None
            },
        }
    }
}

/// What `ToUpper`, `ToLower` and `Length` read from a string: its text in
/// upper or lower case, and its length in UTF-16 code units when that fits
/// an `int`. `None` for any other name or value.
pub open spec fn string_selector_text(current: Value, name: Seq<char>, case: CaseSensitivity) -> Option<
    Seq<char>,
> {
    match current {
        Value::String(s) => if names_match(case, name, "ToUpper"@) {
            Some(to_upper_spec(s@))
        } else if names_match(case, name, "ToLower"@) {
            Some(to_lower_spec(s@))
        } else if names_match(case, name, "Length"@) && s@.len() <= usize::MAX / 2 && utf16_len_spec(
            s@,
        ) <= 0x7fff_ffff {
            scalar_text(Value::Int(utf16_len_spec(s@) as i64))
        } else {
            None
        },
        _ => None,
    }
}

/// The text of the argument that `name`, one to nine digits, indexes.
pub open spec fn index_argument_text(name: Seq<char>, args: Value) -> Option<Seq<char>> {
    if 0 < name.len() <= 9 && all_digits(name) {
        match argument_spec(args, digits_value(name)) {
            Some(a) => scalar_text(a),
            None => None,
        }
    } else {
        None
    }
}

/// The text of the value the first selector `name` of a placeholder picks
/// from the current value: for a string, `ToUpper`, `ToLower` and `Length`;
/// then `Index`, which is the collection index `index`, for a list, a
/// dictionary or a string; then the first entry of a dictionary whose key
/// is `name` under `case`; then, for one to nine digits, the argument they
/// index. `None` when nothing answers, or the answer has no text of its own.
pub open spec fn first_selector_text(
    current: Value,
    args: Value,
    name: Seq<char>,
    case: CaseSensitivity,
    index: i64,
) -> Option<Seq<char>> {
    match string_selector_text(current, name, case) {
        Some(t) => Some(t),
        None => if eq_ignore_case(name, "Index"@) && (current is List || current is Dictionary
            || current is String) {
            scalar_text(Value::Int(index))
        } else {
            match current {
                Value::Dictionary(entries) => match dictionary_entry(entries@, name, case) {
                    Some(v) => scalar_text(v),
                    None => index_argument_text(name, args),
                },
                _ => index_argument_text(name, args),
            }
        },
    }
}

/// Once a prefix of the entries answers a name, so do all of them, with the
/// same value.
proof fn lemma_dictionary_entry_prefix(
    entries: Seq<(String, Value)>,
    k: int,
    name: Seq<char>,
    case: CaseSensitivity,
)
    requires
        0 <= k <= entries.len(),
        dictionary_entry(entries.take(k), name, case) is Some,
    ensures
        dictionary_entry(entries, name, case) == dictionary_entry(entries.take(k), name, case),
    decreases entries.len() - k,
{
    if k == entries.len() {
        assert(entries.take(k) =~= entries);
    } else {
        assert(entries.take(k + 1).drop_last() =~= entries.take(k));
        lemma_dictionary_entry_prefix(entries, k + 1, name, case);
    }
}

/// A dictionary copied entry by entry answers a name as the dictionary it
/// copies does.
proof fn lemma_dictionary_entry_copy(
    entries: Seq<(String, Value)>,
    copy: Seq<(String, Value)>,
    name: Seq<char>,
    case: CaseSensitivity,
)
    requires
        copy.len() == entries.len(),
        forall|i: int|
            0 <= i < entries.len() ==> (#[trigger] copy[i]).0 == entries[i].0 && copies(
                entries[i].1,
                copy[i].1,
            ),
    ensures
        dictionary_entry(copy, name, case) is Some == dictionary_entry(entries, name, case) is Some,
        dictionary_entry(entries, name, case) is Some ==> copies(
            dictionary_entry(entries, name, case)->0,
            dictionary_entry(copy, name, case)->0,
        ),
    decreases entries.len(),
{
    if entries.len() > 0 {
        let n = entries.len() - 1;
        assert(copy[n].0 == entries[n].0);
        lemma_dictionary_entry_copy(entries.drop_last(), copy.drop_last(), name, case);
    }
}

/// A copy made entry by entry answers every first selector as the value it
/// copies does.
proof fn lemma_copy_selects_alike(
    v: Value,
    copy: Value,
    args: Value,
    name: Seq<char>,
    case: CaseSensitivity,
    index: i64,
)
    requires
        faithful_copy(v, copy),
    ensures
        first_selector_text(copy, args, name, case, index) == first_selector_text(
            v,
            args,
            name,
            case,
            index,
        ),
{
    match v {
        Value::Dictionary(entries) => match copy {
            Value::Dictionary(c) => {
                lemma_dictionary_entry_copy(entries@, c@, name, case);
            },
            _ => {},
        },
        _ => {},
    }
}

/// The text a selector gives a string by changing its case — `ToUpper` or
/// `ToLower` under `case` — and `None` for any other selector or value.
pub open spec fn step_text(v: Value, name: Seq<char>, case: CaseSensitivity) -> Option<Seq<char>> {
    match v {
        Value::String(s) => if names_match(case, name, "ToUpper"@) {
            Some(to_upper_spec(s@))
        } else if names_match(case, name, "ToLower"@) {
            Some(to_lower_spec(s@))
        } else {
            None
        },
        _ => None,
    }
}

/// The value one selector `name` picks out of `v` when it is no change of
/// case ([`step_text`]); `absolute` for the first selector of a chain,
/// written with no operator. In order: the `Length` of a string, in UTF-16
/// code units, when it fits an `i32`; `Index`, which is the collection
/// index for the first selector of a list, a dictionary or a string, and
/// the item at the collection index of a list for a later one; a numeric
/// index into a list, for a selector that is not the first; the first entry
/// of a dictionary whose key is `name` under `case`; for the first
/// selector, one to nine digits indexing the arguments. `None` when nothing
/// answers.
pub open spec fn step_value(
    v: Value,
    args: Value,
    name: Seq<char>,
    case: CaseSensitivity,
    index: i64,
    absolute: bool,
) -> Option<Value> {
    let numeric = 0 < name.len() <= 9 && all_digits(name);
    let from_args = if absolute && numeric {
        argument_spec(args, digits_value(name))
    } else {
        None
    };
    let from_entries = match v {
        Value::Dictionary(entries) => match dictionary_entry(entries@, name, case) {
            Some(w) => Some(w),
            None => from_args,
        },
        _ => from_args,
    };
    let is_index = eq_ignore_case(name, "Index"@);
    match v {
        Value::String(s) => if names_match(case, name, "Length"@) && s@.len() <= usize::MAX / 2
            && utf16_len_spec(s@) <= 0x7fff_ffff {
            Some(Value::Int(utf16_len_spec(s@) as i64))
        } else if is_index && absolute {
            Some(Value::Int(index))
        } else {
            from_entries
        },
        Value::List(items) => if is_index && absolute {
            Some(Value::Int(index))
        } else if is_index && 0 <= index < items.len() {
            Some(items@[index as int])
        } else if !is_index && !absolute && numeric && digits_value(name) < items.len() {
            Some(items@[digits_value(name) as int])
        } else {
            from_entries
        },
        Value::Dictionary(_) => if is_index && absolute {
            Some(Value::Int(index))
        } else {
            from_entries
        },
        _ => from_entries,
    }
}

/// The value a chain of selector names picks, starting from `v`: each name
/// after the first picks from what the one before it picked
/// ([`step_value`], the first as the absolute one). `None` when a name picks
/// nothing, or changes the case of a string before the last.
pub open spec fn chain_value(
    v: Value,
    args: Value,
    names: Seq<Seq<char>>,
    case: CaseSensitivity,
    index: i64,
) -> Option<Value>
    decreases names.len(),
{
    if names.len() == 0 {
        Some(v)
    } else {
        match chain_value(v, args, names.drop_last(), case, index) {
            Some(w) => if step_text(w, names.last(), case) is Some {
                None
            } else {
                step_value(w, args, names.last(), case, index, names.len() == 1)
            },
            None => None,
        }
    }
}

/// The text a chain of selector names gives: what its last name makes of
/// what the names before it picked ([`chain_value`]) — a change of case, or
/// the [`scalar_text`] of the value it picks. `None` when nothing answers.
pub open spec fn chain_text(
    v: Value,
    args: Value,
    names: Seq<Seq<char>>,
    case: CaseSensitivity,
    index: i64,
) -> Option<Seq<char>> {
    if names.len() == 0 {
        scalar_text(v)
    } else {
        match chain_value(v, args, names.drop_last(), case, index) {
            Some(w) => match step_text(w, names.last(), case) {
                Some(t) => Some(t),
                None => match step_value(w, args, names.last(), case, index, names.len() == 1) {
                    Some(x) => scalar_text(x),
                    None => None,
                },
            },
            None => None,
        }
    }
}

/// The names of a placeholder's selectors, in order.
pub open spec fn chain_names(p: Placeholder) -> Seq<Seq<char>> {
    p.selectors@.map_values(|s: Selector| s.text@)
}

/// Whether the first selector is written with no operator and every later
/// one after an operator that does not start with the null-conditional
/// `?`, as in `{Person.Address.City}` or `{m[1]}`.
pub open spec fn chained_selectors(p: Placeholder) -> bool {
    p.selectors.len() > 0 && p.selectors@[0].operator@.len() == 0 && forall|k: int|
        1 <= k < p.selectors.len() ==> (#[trigger] p.selectors@[k]).operator@.len() > 0
            && p.selectors@[k].operator@[0] != '?'
}

/// One step of a chain that gives a text, taken on a copy of what the names
/// before it picked: whatever [`try_selector`] answers is a copy of what the
/// chain picks next, or, after the last name, has the chain's text.
proof fn lemma_chain_step(
    current: Value,
    args: Value,
    names: Seq<Seq<char>>,
    case: CaseSensitivity,
    index: i64,
    k: int,
    value: Value,
    picked: Option<Value>,
)
    requires
        chain_text(current, args, names, case, index) is Some,
        forall|j: int|
            0 <= j < names.len() ==> chain_value(current, args, #[trigger] names.take(j), case, index)
                is Some,
        0 <= k < names.len(),
        deep_copy(chain_value(current, args, names.take(k), case, index)->0, value),
        step_text(value, names[k], case) matches Some(t) ==> (picked matches Some(v) && v matches Value::String(
            s,
        ) && s@ == t),
        step_text(value, names[k], case) is None ==> match step_value(
            value,
            args,
            names[k],
            case,
            index,
            k == 0,
        ) {
            Some(w) => picked matches Some(v) && deep_copy(w, v),
            None => picked is None,
        },
    ensures
        picked is Some,
        k + 1 < names.len() ==> deep_copy(
            chain_value(current, args, names.take(k + 1), case, index)->0,
            picked->0,
        ),
        k + 1 == names.len() ==> scalar_text(picked->0) == chain_text(current, args, names, case, index),
{
    let w = chain_value(current, args, names.take(k), case, index)->0;
    lemma_step_on_copy(w, value, args, names[k], case, index, k == 0);
    assert(names.take(k + 1).drop_last() =~= names.take(k));
    assert(names.take(k + 1).last() == names[k]);
    if k + 1 == names.len() {
        assert(names.take(k + 1) =~= names);
        assert(names.drop_last() =~= names.take(k));
    } else {
        assert(chain_value(current, args, names.take(k + 1), case, index) is Some);
    }
    if step_text(w, names[k], case) is None {
        if step_value(w, args, names[k], case, index, k == 0) is Some {
            lemma_deep_copy_trans(
                step_value(w, args, names[k], case, index, k == 0)->0,
                step_value(value, args, names[k], case, index, k == 0)->0,
                picked->0,
            );
        }
    }
}

/// When a chain gives a text, every shorter chain of its names picks a
/// value.
proof fn lemma_chain_prefixes(
    v: Value,
    args: Value,
    names: Seq<Seq<char>>,
    case: CaseSensitivity,
    index: i64,
)
    requires
        names.len() > 0,
        chain_text(v, args, names, case, index) is Some,
    ensures
        forall|j: int|
            0 <= j < names.len() ==> chain_value(v, args, #[trigger] names.take(j), case, index)
                is Some,
{
    assert(names.take(names.len() - 1) =~= names.drop_last());
    assert forall|j: int| 0 <= j < names.len() implies chain_value(
        v,
        args,
        #[trigger] names.take(j),
        case,
        index,
    ) is Some by {
        lemma_chain_prefix_down(v, args, names, case, index, j, names.len() - 1);
    }
}

proof fn lemma_chain_prefix_down(
    v: Value,
    args: Value,
    names: Seq<Seq<char>>,
    case: CaseSensitivity,
    index: i64,
    j: int,
    m: int,
)
    requires
        0 <= j <= m < names.len(),
        chain_value(v, args, names.take(m), case, index) is Some,
    ensures
        chain_value(v, args, names.take(j), case, index) is Some,
    decreases m - j,
{
    if j < m {
        assert(names.take(m).drop_last() =~= names.take(m - 1));
        lemma_chain_prefix_down(v, args, names, case, index, j, m - 1);
    }
}

/// Every value holds what it holds.
pub proof fn lemma_same_content_refl(v: Value)
    ensures
        same_content(v, v),
    decreases v,
{
    match v {
        Value::List(xs) => {
            assert forall|i: int| 0 <= i < xs.len() implies same_content(#[trigger] xs@[i], xs@[i]) by {
                lemma_same_content_refl(xs@[i]);
            }
        },
        Value::Dictionary(xs) => {
            assert forall|i: int| 0 <= i < xs.len() implies (#[trigger] xs@[i]).0@ == xs@[i].0@
                && same_content(xs@[i].1, xs@[i].1) by {
                lemma_same_content_refl(xs@[i].1);
            }
        },
        _ => {},
    }
}

/// Dictionaries with the same content answer a name with values of the
/// same content.
proof fn lemma_dictionary_entry_same(
    entries: Seq<(String, Value)>,
    other: Seq<(String, Value)>,
    name: Seq<char>,
    case: CaseSensitivity,
)
    requires
        other.len() == entries.len(),
        forall|i: int|
            0 <= i < entries.len() ==> (#[trigger] other[i]).0@ == entries[i].0@ && same_content(
                entries[i].1,
                other[i].1,
            ),
    ensures
        dictionary_entry(other, name, case) is Some == dictionary_entry(entries, name, case) is Some,
        dictionary_entry(entries, name, case) is Some ==> same_content(
            dictionary_entry(entries, name, case)->0,
            dictionary_entry(other, name, case)->0,
        ),
    decreases entries.len(),
{
    if entries.len() > 0 {
        let n = entries.len() - 1;
        assert(other[n].0@ == entries[n].0@);
        lemma_dictionary_entry_same(entries.drop_last(), other.drop_last(), name, case);
    }
}

/// Values of the same content answer a selector alike: with the same
/// change of case, or with values of the same content.
pub proof fn lemma_step_same(
    v: Value,
    c: Value,
    args: Value,
    name: Seq<char>,
    case: CaseSensitivity,
    index: i64,
    absolute: bool,
)
    requires
        same_content(v, c),
    ensures
        step_text(c, name, case) == step_text(v, name, case),
        step_value(c, args, name, case, index, absolute) is Some == step_value(
            v,
            args,
            name,
            case,
            index,
            absolute,
        ) is Some,
        step_value(v, args, name, case, index, absolute) is Some ==> same_content(
            step_value(v, args, name, case, index, absolute)->0,
            step_value(c, args, name, case, index, absolute)->0,
        ),
        scalar_text(c) == scalar_text(v),
{
    lemma_same_content_refl(args);
    match v {
        Value::Dictionary(entries) => {
            let cs = c->Dictionary_0;
            lemma_dictionary_entry_same(entries@, cs@, name, case);
        },
        Value::List(items) => {
            let cs = c->List_0;
            if 0 <= index < items.len() {
                assert(same_content(items@[index as int], cs@[index as int]));
            }
            if 0 < name.len() <= 9 && all_digits(name) && digits_value(name) < items.len() {
                assert(same_content(
                    items@[digits_value(name) as int],
                    cs@[digits_value(name) as int],
                ));
            }
        },
        _ => {},
    }
    if 0 < name.len() <= 9 && all_digits(name) {
        match argument_spec(args, digits_value(name)) {
            Some(a) => {
                lemma_same_content_refl(a);
            },
            None => {},
        }
    }
    if v is String {
        lemma_same_content_refl(Value::Int(index));
    }
}

/// A chain of names picks values of the same content from values of the
/// same content, and gives them the same text.
pub proof fn lemma_chain_same(
    a: Value,
    b: Value,
    args: Value,
    names: Seq<Seq<char>>,
    case: CaseSensitivity,
    index: i64,
)
    requires
        same_content(a, b),
    ensures
        chain_value(b, args, names, case, index) is Some == chain_value(
            a,
            args,
            names,
            case,
            index,
        ) is Some,
        chain_value(a, args, names, case, index) is Some ==> same_content(
            chain_value(a, args, names, case, index)->0,
            chain_value(b, args, names, case, index)->0,
        ),
        chain_text(a, args, names, case, index) == chain_text(b, args, names, case, index),
    decreases names.len(),
{
    if names.len() == 0 {
        lemma_step_same(a, b, args, Seq::empty(), case, index, true);
    } else {
        lemma_chain_same(a, b, args, names.drop_last(), case, index);
        if chain_value(a, args, names.drop_last(), case, index) is Some {
            let wa = chain_value(a, args, names.drop_last(), case, index)->0;
            let wb = chain_value(b, args, names.drop_last(), case, index)->0;
            lemma_step_same(wa, wb, args, names.last(), case, index, names.len() == 1);
            if step_value(wa, args, names.last(), case, index, names.len() == 1) is Some {
                lemma_step_same(
                    step_value(wa, args, names.last(), case, index, names.len() == 1)->0,
                    step_value(wb, args, names.last(), case, index, names.len() == 1)->0,
                    args,
                    Seq::empty(),
                    case,
                    index,
                    true,
                );
            }
        }
    }
}

/// Values of the same content are substituted alike.
pub proof fn lemma_substitution_same(
    p: Placeholder,
    a: Value,
    b: Value,
    args: Value,
    case: CaseSensitivity,
    index: i64,
)
    requires
        same_content(a, b),
    ensures
        substitution_text(p, a, args, case, index) == substitution_text(p, b, args, case, index),
{
    lemma_chain_same(a, b, args, chain_names(p), case, index);
    if p.selectors.len() > 0 {
        let name = p.selectors@[0].text@;
        lemma_chain_same(a, b, args, seq![name], case, index);
        assert(seq![name].drop_last() =~= Seq::<Seq<char>>::empty());
        lemma_step_same(a, b, args, name, case, index, true);
        match a {
            Value::Dictionary(entries) => {
                lemma_dictionary_entry_same(entries@, b->Dictionary_0@, name, case);
                if dictionary_entry(entries@, name, case) is Some {
                    lemma_step_same(
                        dictionary_entry(entries@, name, case)->0,
                        dictionary_entry(b->Dictionary_0@, name, case)->0,
                        args,
                        Seq::empty(),
                        case,
                        index,
                        true,
                    );
                }
            },
            _ => {},
        }
    }
}

/// Values of the same content render a run of plain literals and
/// substituted placeholders alike.
pub proof fn lemma_same_content_renders(
    src: Seq<char>,
    items: Seq<FormatItem>,
    alignment: int,
    a: Value,
    b: Value,
    args: Value,
    case: CaseSensitivity,
    index: i64,
)
    requires
        same_content(a, b),
    ensures
        all_simple_items(src, items, a, args, case, index) == all_simple_items(
            src,
            items,
            b,
            args,
            case,
            index,
        ),
        simple_items_text(src, items, alignment, a, args, case, index) == simple_items_text(
            src,
            items,
            alignment,
            b,
            args,
            case,
            index,
        ),
    decreases items.len(),
{
    assert forall|p: Placeholder| #[trigger]
        substitution_text(p, a, args, case, index) == substitution_text(p, b, args, case, index) by {
        lemma_substitution_same(p, a, b, args, case, index);
    }
    if items.len() > 0 {
        lemma_same_content_renders(src, items.drop_last(), alignment, a, b, args, case, index);
    }
}

/// Copies of copies are copies.
pub proof fn lemma_deep_copy_trans(a: Value, b: Value, c: Value)
    requires
        deep_copy(a, b),
        deep_copy(b, c),
    ensures
        deep_copy(a, c),
    decreases a,
{
    match a {
        Value::List(xs) => {
            let ys = b->List_0;
            let zs = c->List_0;
            assert forall|i: int| 0 <= i < xs.len() implies deep_copy(#[trigger] xs@[i], zs@[i]) by {
                assert(deep_copy(xs@[i], ys@[i]));
                assert(deep_copy(ys@[i], zs@[i]));
                lemma_deep_copy_trans(xs@[i], ys@[i], zs@[i]);
            }
        },
        Value::Dictionary(xs) => {
            let ys = b->Dictionary_0;
            let zs = c->Dictionary_0;
            assert forall|i: int| 0 <= i < xs.len() implies (#[trigger] zs@[i]).0 == xs@[i].0
                && deep_copy(xs@[i].1, zs@[i].1) by {
                assert(ys@[i].0 == xs@[i].0 && deep_copy(xs@[i].1, ys@[i].1));
                assert(zs@[i].0 == ys@[i].0 && deep_copy(ys@[i].1, zs@[i].1));
                lemma_deep_copy_trans(xs@[i].1, ys@[i].1, zs@[i].1);
            }
        },
        _ => {},
    }
}

/// A dictionary copied all the way down answers a name with a copy of what
/// the dictionary it copies answers.
proof fn lemma_dictionary_entry_deep_copy(
    entries: Seq<(String, Value)>,
    copy: Seq<(String, Value)>,
    name: Seq<char>,
    case: CaseSensitivity,
)
    requires
        copy.len() == entries.len(),
        forall|i: int|
            0 <= i < entries.len() ==> (#[trigger] copy[i]).0 == entries[i].0 && deep_copy(
                entries[i].1,
                copy[i].1,
            ),
    ensures
        dictionary_entry(copy, name, case) is Some == dictionary_entry(entries, name, case) is Some,
        dictionary_entry(entries, name, case) is Some ==> deep_copy(
            dictionary_entry(entries, name, case)->0,
            dictionary_entry(copy, name, case)->0,
        ),
    decreases entries.len(),
{
    if entries.len() > 0 {
        let n = entries.len() - 1;
        assert(copy[n].0 == entries[n].0);
        lemma_dictionary_entry_deep_copy(entries.drop_last(), copy.drop_last(), name, case);
    }
}

/// A copy answers a selector as the value it copies does: with the same
/// change of case, or with a copy of the same value.
pub proof fn lemma_step_on_copy(
    v: Value,
    c: Value,
    args: Value,
    name: Seq<char>,
    case: CaseSensitivity,
    index: i64,
    absolute: bool,
)
    requires
        deep_copy(v, c),
    ensures
        step_text(c, name, case) == step_text(v, name, case),
        step_value(c, args, name, case, index, absolute) is Some == step_value(
            v,
            args,
            name,
            case,
            index,
            absolute,
        ) is Some,
        step_value(v, args, name, case, index, absolute) is Some ==> deep_copy(
            step_value(v, args, name, case, index, absolute)->0,
            step_value(c, args, name, case, index, absolute)->0,
        ),
{
    lemma_deep_copy_refl(args);
    match v {
        Value::Dictionary(entries) => {
            let cs = c->Dictionary_0;
            lemma_dictionary_entry_deep_copy(entries@, cs@, name, case);
        },
        Value::List(items) => {
            let cs = c->List_0;
            if 0 <= index < items.len() {
                assert(deep_copy(items@[index as int], cs@[index as int]));
            }
            if 0 < name.len() <= 9 && all_digits(name) && digits_value(name) < items.len() {
                assert(deep_copy(
                    items@[digits_value(name) as int],
                    cs@[digits_value(name) as int],
                ));
            }
        },
        _ => {},
    }
}

/// Every value is a copy of itself.
pub proof fn lemma_deep_copy_refl(v: Value)
    ensures
        deep_copy(v, v),
    decreases v,
{
    match v {
        Value::List(xs) => {
            assert forall|i: int| 0 <= i < xs.len() implies deep_copy(#[trigger] xs@[i], xs@[i]) by {
                lemma_deep_copy_refl(xs@[i]);
            }
        },
        Value::Dictionary(xs) => {
            assert forall|i: int| 0 <= i < xs.len() implies (#[trigger] xs@[i]).0 == xs@[i].0
                && deep_copy(xs@[i].1, xs@[i].1) by {
                lemma_deep_copy_refl(xs@[i].1);
            }
        },
        _ => {},
    }
}

/// The value one selector picks out of `value`, or `None` when no source
/// answers it. `absolute` is the first selector of a chain, written with no
/// operator.
///
/// In order: the `ToUpper`, `ToLower` and `Length` of a string; `Index`,
/// which is the collection index for the first selector of an enumerable and
/// the item at the collection index of a list for a later one; a numeric
/// index into a list, for a selector that is not the first; the entry of a
/// dictionary; and, for the first selector, a numeric index into the
/// arguments of the call.
#[verifier::loop_isolation(false)]
fn try_selector(ctx: &Ctx, value: &Value, sel: &Selector, absolute: bool, state: &State) -> (res:
    Option<Value>)
    ensures
        step_text(*value, sel.text@, ctx.settings.case_sensitive) matches Some(t) ==> (res matches Some(
            v,
        ) && v matches Value::String(s) && s@ == t),
        step_text(*value, sel.text@, ctx.settings.case_sensitive) is None ==> match step_value(
            *value,
            *ctx.args,
            sel.text@,
            ctx.settings.case_sensitive,
            state.collection_index,
            absolute,
        ) {
            Some(w) => res matches Some(v) && deep_copy(w, v),
            None => res is None,
        },
        absolute ==> match first_selector_text(
            *value,
            *ctx.args,
            sel.text@,
            ctx.settings.case_sensitive,
            state.collection_index,
        ) {
            Some(t) => res matches Some(v) && scalar_text(v) == Some(t),
            None => true,
        },
{
    let case = ctx.settings.case_sensitive;
    if let Value::String(s) = value {
        let upper = chars_of("ToUpper");
        let lower = chars_of("ToLower");
        let length = chars_of("Length");

        if case.matches(&sel.text, &upper) {
            return Some(Value::String(string_to_upper(s.as_str())));
        }
        if case.matches(&sel.text, &lower) {
            return Some(Value::String(string_to_lower(s.as_str())));
        }
        if case.matches(&sel.text, &length) {
            let chars = chars_of(s.as_str());
            if chars.len() <= usize::MAX / 2 {
                let n = utf16_length(&chars);
                if n <= 0x7fff_ffff {
                    return Some(Value::Int(n as i64));
                }
            }
        }
    }
    let index_word = chars_of("Index");
    let index = parse_index(&sel.text);

    if chars_equal_ignore_case(&sel.text, &index_word) {
        if absolute {
            match value {
                Value::List(_) | Value::Dictionary(_) | Value::String(_) => {
                    return Some(Value::Int(state.collection_index));
                },
                _ => {},
            }
        } else if let Value::List(items) = value {
            if state.collection_index >= 0 && (state.collection_index as u64) < (
            items.len() as u64) {
                return Some(copy_value(&items[state.collection_index as usize]));
            }
        }
    } else if !absolute {
        if let (Value::List(items), Some(k)) = (value, index) {
            if k < items.len() {
                return Some(copy_value(&items[k]));
            }
        }
    }
    if let Value::Dictionary(entries) = value {
        let mut i: usize = 0;
        proof {
            assert(entries@.take(0) =~= Seq::<(String, Value)>::empty());
        }
        while i < entries.len()
            invariant
                i <= entries.len(),
                dictionary_entry(entries@.take(i as int), sel.text@, case) is None,
            decreases entries.len() - i,
        {
            let key = chars_of(entries[i].0.as_str());
            proof {
                assert(entries@.take(i + 1).drop_last() =~= entries@.take(i as int));
                assert(entries@.take(i + 1).last() == entries@[i as int]);
            }
            if case.matches(&key, &sel.text) {
                proof {
                    lemma_dictionary_entry_prefix(entries@, i + 1, sel.text@, case);
                }
                return Some(copy_value(&entries[i].1));
            }
            i += 1;
        }
        proof {
            assert(entries@.take(entries.len() as int) =~= entries@);
        }
    }
    if absolute {
        if let Some(k) = index {
            match ctx.args {
                Value::List(items) => {
                    if k < items.len() {
                        return Some(copy_value(&items[k]));
                    }
                },
                other => {
                    if k == 0 {
                        return Some(copy_value(other));
                    }
                },
            }
        }
    }
    None
}

/// The value the placeholder's selector chain picks, starting from
/// `current`. A selector no source answers is tried against each enclosing
/// scope, innermost first; a null reached through a `?` operator ends the
/// chain with null.
#[verifier::loop_isolation(false)]
fn select(ctx: &Ctx, p: &Placeholder, current: &Value, scopes: &Vec<&Value>, state: &State) -> (res:
    Result<Value, Error>)
    ensures
        p.selectors.len() == 0 ==> (res matches Ok(v) && copies(*current, v)),
        p.selectors.len() == 1 && p.selectors@[0].operator@.len() == 0 ==> match first_selector_text(
            *current,
            *ctx.args,
            p.selectors@[0].text@,
            ctx.settings.case_sensitive,
            state.collection_index,
        ) {
            Some(t) => res matches Ok(v) && scalar_text(v) == Some(t),
            None => true,
        },
        p.selectors.len() >= 2 && chained_selectors(*p) ==> match chain_text(
            *current,
            *ctx.args,
            chain_names(*p),
            ctx.settings.case_sensitive,
            state.collection_index,
        ) {
            Some(t) => res matches Ok(v) && scalar_text(v) == Some(t),
            None => true,
        },
        p.selectors.len() == 1 && p.selectors@[0].operator@.len() == 0 && step_text(
            *current,
            p.selectors@[0].text@,
            ctx.settings.case_sensitive,
        ) is None ==> match step_value(
            *current,
            *ctx.args,
            p.selectors@[0].text@,
            ctx.settings.case_sensitive,
            state.collection_index,
            true,
        ) {
            Some(w) => res matches Ok(v) && deep_copy(w, v),
            None => true,
        },
{
    let ghost names = chain_names(*p);
    let ghost lone = p.selectors.len() == 1 && p.selectors@[0].operator@.len() == 0 && step_text(
        *current,
        p.selectors@[0].text@,
        ctx.settings.case_sensitive,
    ) is None && step_value(
        *current,
        *ctx.args,
        p.selectors@[0].text@,
        ctx.settings.case_sensitive,
        state.collection_index,
        true,
    ) is Some;
    let ghost lone_value = step_value(
        *current,
        *ctx.args,
        p.selectors@[0].text@,
        ctx.settings.case_sensitive,
        state.collection_index,
        true,
    )->0;
    let ghost case = ctx.settings.case_sensitive;
    let ghost index = state.collection_index;
    let ghost chained = p.selectors.len() >= 2 && chained_selectors(*p) && chain_text(
        *current,
        *ctx.args,
        names,
        case,
        index,
    ) is Some;
    proof {
        if chained {
            lemma_chain_prefixes(*current, *ctx.args, names, case, index);
        }
    }
    let ghost single = p.selectors.len() == 1 && p.selectors@[0].operator@.len() == 0;
    let ghost answer = first_selector_text(
        *current,
        *ctx.args,
        p.selectors@[0].text@,
        ctx.settings.case_sensitive,
        state.collection_index,
    );
    let mut value = copy_value(current);
    proof {
        lemma_copy_selects_alike(
            *current,
            value,
            *ctx.args,
            p.selectors@[0].text@,
            ctx.settings.case_sensitive,
            state.collection_index,
        );
    }
    let mut k: usize = 0;
    while k < p.selectors.len()
        invariant
            k <= p.selectors.len(),
            single && answer is Some && k == 0 ==> first_selector_text(
                value,
                *ctx.args,
                p.selectors@[0].text@,
                ctx.settings.case_sensitive,
                state.collection_index,
            ) == answer,
            single && answer is Some && k == 1 ==> scalar_text(value) == answer,
            k == 0 ==> copies(*current, value),
            k == 0 ==> deep_copy(*current, value),
            lone ==> p.selectors.len() == 1 && p.selectors@[0].operator@.len() == 0 && step_text(
                *current,
                p.selectors@[0].text@,
                ctx.settings.case_sensitive,
            ) is None && step_value(
                *current,
                *ctx.args,
                p.selectors@[0].text@,
                ctx.settings.case_sensitive,
                state.collection_index,
                true,
            ) == Some(lone_value),
            lone && k == 1 ==> deep_copy(lone_value, value),
            chained ==> p.selectors.len() >= 2 && chained_selectors(*p) && names == chain_names(*p)
                && names.len() == p.selectors.len() && case == ctx.settings.case_sensitive && index
                == state.collection_index,
            chained ==> forall|j: int|
                0 <= j < names.len() ==> chain_value(
                    *current,
                    *ctx.args,
                    #[trigger] names.take(j),
                    case,
                    index,
                ) is Some,
            chained && k < p.selectors.len() ==> deep_copy(
                chain_value(*current, *ctx.args, names.take(k as int), case, index)->0,
                value,
            ),
            chained && k == p.selectors.len() ==> scalar_text(value) == chain_text(
                *current,
                *ctx.args,
                names,
                case,
                index,
            ),
        decreases p.selectors.len() - k,
    {
        let sel = &p.selectors[k];
        proof {
            if chained {
                assert(names[k as int] == sel.text@);
                if k > 0 {
                    assert(sel.operator@.len() > 0 && sel.operator@[0] != '?');
                } else {
                    assert(sel.operator@.len() == 0);
                }
            }
        }
        let nullable = sel.operator.len() > 0 && sel.operator[0] == '?';
        if value.is_null() && nullable {
            return Ok(Value::Null);
        }
        let absolute = k == 0 && sel.operator.len() == 0;
        let picked = try_selector(ctx, &value, sel, absolute, state);
        proof {
            if lone {
                lemma_step_on_copy(
                    *current,
                    value,
                    *ctx.args,
                    sel.text@,
                    ctx.settings.case_sensitive,
                    state.collection_index,
                    true,
                );
                lemma_deep_copy_trans(
                    lone_value,
                    step_value(
                        value,
                        *ctx.args,
                        sel.text@,
                        ctx.settings.case_sensitive,
                        state.collection_index,
                        true,
                    )->0,
                    picked->0,
                );
            }
            if chained {
                lemma_chain_step(*current, *ctx.args, names, case, index, k as int, value, picked);
            }
        }
        match picked {
            Some(v) => {
                value = v;
            },
            None => {
                assert(!chained);
                let mut found: Option<Value> = None;
                let mut j: usize = scopes.len();
                while j > 0 && found.is_none()
                    invariant
                        j <= scopes.len(),
                    decreases j,
                {
                    j -= 1;
                    found = try_selector(ctx, scopes[j], sel, absolute, state);
                }
                match found {
                    Some(v) => {
                        value = v;
                    },
                    None => {
                        let mut issue: Vec<char> = Vec::new();
                        push_str(&mut issue, "No source extension could handle the selector named \"");
                        push_all(&mut issue, &sel.text);
                        push_str(&mut issue, "\"");
                        return Err(formatting_error(ctx, &issue, sel.start));
                    },
                }
            },
        }
        k += 1;
    }
    Ok(value)
}

/// std's `str::to_uppercase`: the text with every character replaced by its
/// Unicode uppercase mapping.
#[verifier::external_body]
fn string_to_upper(s: &str) -> (res: String)
    ensures
        res@ == to_upper_spec(s@),
{
    s.to_uppercase()
}

/// std's `str::to_lowercase`: the text with every character replaced by its
/// Unicode lowercase mapping.
#[verifier::external_body]
fn string_to_lower(s: &str) -> (res: String)
    ensures
        res@ == to_lower_spec(s@),
{
    s.to_lowercase()
}

/// What std's `str::to_uppercase` makes of a text.
pub uninterp spec fn to_upper_spec(s: Seq<char>) -> Seq<char>;

/// What std's `str::to_lowercase` makes of a text.
pub uninterp spec fn to_lower_spec(s: Seq<char>) -> Seq<char>;

// ---------------------------------------------------------------------------
// The default formatter
// ---------------------------------------------------------------------------

/// The formatter that takes every placeholder the others leave: it renders
/// a nested format as a child, and otherwise writes the value — a null as
/// nothing, a bool as `True` or `False`, a string as it is whatever the
/// format says, an integer under the format as a numeric specifier.
#[derive(Debug, Clone, Copy)]
pub struct DefaultFormatter;

impl DefaultFormatter {
    /// The formatter's name, .NET `DefaultFormatter.Name`.
    pub fn name(&self) -> (res: &'static str)
        ensures
            res@ == "d"@,
    {
        "d"
    }

    /// The default formatter takes any placeholder.
    pub fn can_auto_detect(&self) -> (res: bool)
        ensures
            res,
    {
        true
    }
}

/// The text the default formatter writes for a value under a specifier: a
/// null writes nothing, a string itself whatever the specifier says, a bool
/// `True` or `False`, an integer its text under the numeric specifier, a span
/// of time its text under the standard `TimeSpan` specifier with `.` before
/// the fraction. `None` for a specifier an integer or a span has no answer
/// to, and for a list or a dictionary, which have no text.
pub open spec fn default_text_spec(value: Value, spec: Seq<char>) -> Option<Seq<char>> {
    match value {
        Value::Null => Some(Seq::empty()),
        Value::String(s) => Some(s@),
        Value::Bool(b) => Some(
            if b {
                "True"@
            } else {
                "False"@
            },
        ),
        Value::Int(n) => crate::number::integer_with_spec(
            n < 0,
            (if n < 0 {
                -n
            } else {
                n as int
            }) as nat,
            spec,
        ),
        Value::UInt(n) => crate::number::integer_with_spec(false, n as nat, spec),
        Value::TimeSpan(n) => timespan_text(ticks_spec(n as int), spec, seq!['.']),
        _ => None,
    }
}

/// [`default_text_spec`] of the value under the specifier: `Err(true)` where
/// the specifier has no answer, `Err(false)` for a list or a dictionary.
pub fn value_with_spec(value: &Value, spec: &Vec<char>) -> (res: Result<Vec<char>, bool>)
    ensures
        match default_text_spec(*value, spec@) {
            Some(text) => res matches Ok(t) && t@ == text,
            None => res == Err::<Vec<char>, bool>(!(value is List || value is Dictionary)),
        },
{
    match value {
        Value::Null => Ok(Vec::new()),
        Value::String(s) => Ok(chars_of(s.as_str())),
        Value::Bool(b) => Ok(
            if *b {
                chars_of("True")
            } else {
                chars_of("False")
            },
        ),
        Value::Int(n) => {
            let negative = *n < 0;
            let magnitude: u64 = if *n == i64::MIN {
                9223372036854775808u64
            } else if negative {
                (-*n) as u64
            } else {
                *n as u64
            };
            match integer_with_spec_exec(negative, magnitude, spec) {
                Some(t) => Ok(t),
                None => Err(true),
            }
        },
        Value::UInt(n) => match integer_with_spec_exec(false, *n, spec) {
            Some(t) => Ok(t),
            None => Err(true),
        },
        Value::TimeSpan(n) => {
            let separator = chars_of(".");
            proof {
                reveal_strlit(".");
            }
            match timespan_chars(*n, spec, &separator) {
                Some(t) => Ok(t),
                None => Err(true),
            }
        },
        _ => Err(false),
    }
}

/// The specifier a placeholder gives the default formatter: the literal
/// text of its format, empty when it has none.
pub open spec fn specifier_spec(src: Seq<char>, p: Placeholder, convert: bool) -> Result<
    Seq<char>,
    (Seq<char>, int),
> {
    match p.format {
        None => Ok(Seq::empty()),
        Some(f) => items_text(src, f.items@, convert, false),
    }
}

/// Whether the placeholder's format, if it has one, holds no placeholder.
pub open spec fn format_is_flat(p: Placeholder) -> bool {
    match p.format {
        None => true,
        Some(f) => forall|i: int| 0 <= i < f.items.len() ==> !(f.items@[i] is Placeholder),
    }
}

/// The default formatter: a nested format is rendered as a child; anything
/// else writes [`default_text_spec`] of the value under the format's text,
/// padded to the placeholder's alignment, or fails for a value that has no
/// text under it.
pub fn default_format(ctx: &Ctx, info: &Info, state: &mut State, fuel: usize) -> (res: Result<
    bool,
    Error,
>)
    ensures
        format_is_flat(*info.placeholder) ==> match specifier_spec(
            info.src@,
            *info.placeholder,
            ctx.convert,
        ) {
            Ok(spec) => match default_text_spec(*info.value, spec) {
                Some(text) => text.len() <= usize::MAX / 4 ==> res == Ok::<bool, Error>(true)
                    && final(state).out@ == old(state).out@ + aligned(
                    text,
                    info.placeholder.alignment as int,
                ),
                None => if info.value is List {
                    res matches Err(Error::Format { message, .. }) && message@
                        == "Default formatting of a list is not supported; select a value from it"@
                } else if info.value is Dictionary {
                    res matches Err(Error::Format { message, .. }) && message@
                        == "Default formatting of a map is not supported; select a value from it"@
                } else {
                    res matches Err(Error::UnsupportedSpec { spec: s, .. }) && s@ == spec
                },
            },
            Err((message, position)) => res matches Err(Error::Format { message: m, position: p })
                && m@ == message && p == position,
        },
        format_is_flat(*info.placeholder) ==> final(state).collection_index == old(state).collection_index,
    decreases fuel, 8nat,
{
    let mut spec: Vec<char> = Vec::new();
    let mut spec_position = error_position(info.placeholder);
    if let Some(format) = &info.placeholder.format {
        if has_nested(format) {
            format_as_child(ctx, info, format, info.value, state, fuel)?;
            return Ok(true);
        }
        spec_position = format.start;
        match literal_text(info.src, format, ctx.convert) {
            Ok(t) => {
                spec = t;
            },
            Err(e) => {
                return Err(plain_error(&chars_of(e.message.as_str()), e.position));
            },
        }
    }
    match value_with_spec(info.value, &spec) {
        Ok(text) => {
            write_text(info, state, &text);
            Ok(true)
        },
        Err(true) => {
            let mut message: Vec<char> = Vec::new();
            push_str(&mut message, "The format specifier '");
            push_all(&mut message, &spec);
            push_str(&mut message, "' is not supported");
            Err(
                Error::UnsupportedSpec {
                    spec: to_string(&spec),
                    message: to_string(&message),
                    position: spec_position,
                },
            )
        },
        Err(false) => {
            let mut issue: Vec<char> = Vec::new();
            match info.value {
                Value::List(_) => push_str(
                    &mut issue,
                    "Default formatting of a list is not supported; select a value from it",
                ),
                _ => push_str(
                    &mut issue,
                    "Default formatting of a map is not supported; select a value from it",
                ),
            }
            Err(plain_error(&issue, error_position(info.placeholder)))
        },
    }
}

// ---------------------------------------------------------------------------
// The registry and the formatter
// ---------------------------------------------------------------------------

/// One formatter extension.
#[derive(Debug)]
pub enum AnyFormatter {
    Choose(ChooseFormatter),
    Null(NullFormatter),
    IsMatch(IsMatchFormatter),
    Template(TemplateFormatter),
    Conditional(ConditionalFormatter),
    List(ListFormatter),
    SubString(SubStringFormatter),
    Localization(LocalizationFormatter),
    Default(DefaultFormatter),
}

impl AnyFormatter {
    /// The name a placeholder selects the formatter by.
    pub open spec fn name_of(&self) -> Seq<char> {
        match self {
            AnyFormatter::Choose(c) => c.name_spec(),
            AnyFormatter::Conditional(c) => c.name_spec(),
            AnyFormatter::IsMatch(c) => c.name_spec(),
            AnyFormatter::List(c) => c.name_spec(),
            AnyFormatter::Null(c) => c.name_spec(),
            AnyFormatter::SubString(c) => c.name_spec(),
            AnyFormatter::Template(c) => c.name_spec(),
            AnyFormatter::Localization(c) => c.name_spec(),
            AnyFormatter::Default(_) => "d"@,
        }
    }

    /// Whether a placeholder that names no formatter may be handed to it.
    pub open spec fn auto_detects(&self) -> bool {
        match self {
            AnyFormatter::Choose(_) => false,
            AnyFormatter::Conditional(c) => c.auto_detect_spec(),
            AnyFormatter::IsMatch(c) => c.auto_detect_spec(),
            AnyFormatter::List(c) => c.auto_detect_spec(),
            AnyFormatter::Null(c) => c.auto_detect_spec(),
            AnyFormatter::SubString(c) => c.auto_detect_spec(),
            AnyFormatter::Template(_) => false,
            AnyFormatter::Localization(_) => false,
            AnyFormatter::Default(_) => true,
        }
    }

    /// The name a placeholder selects the formatter by.
    pub fn name(&self) -> (res: &str)
        ensures
            res@ == self.name_of(),
    {
        match self {
            AnyFormatter::Choose(c) => c.name(),
            AnyFormatter::Conditional(c) => c.name(),
            AnyFormatter::IsMatch(c) => c.name(),
            AnyFormatter::List(c) => c.name(),
            AnyFormatter::Null(c) => c.name(),
            AnyFormatter::SubString(c) => c.name(),
            AnyFormatter::Template(c) => c.name(),
            AnyFormatter::Localization(c) => c.name(),
            AnyFormatter::Default(c) => c.name(),
        }
    }

    /// Whether a placeholder that names no formatter may be handed to this
    /// one.
    pub fn can_auto_detect(&self) -> (res: bool)
        ensures
            res == self.auto_detects(),
    {
        match self {
            AnyFormatter::Choose(c) => c.can_auto_detect(),
            AnyFormatter::Conditional(c) => c.can_auto_detect(),
            AnyFormatter::IsMatch(c) => c.can_auto_detect(),
            AnyFormatter::List(c) => c.can_auto_detect(),
            AnyFormatter::Null(c) => c.can_auto_detect(),
            AnyFormatter::SubString(c) => c.can_auto_detect(),
            AnyFormatter::Template(c) => c.can_auto_detect(),
            AnyFormatter::Localization(c) => c.can_auto_detect(),
            AnyFormatter::Default(c) => c.can_auto_detect(),
        }
    }
}

/// The formatters a [`SmartFormatter`] tries, in order.
#[derive(Debug)]
pub struct FormatterRegistry {
    pub formatters: Vec<AnyFormatter>,
}

impl FormatterRegistry {
    /// No formatter at all.
    pub fn empty() -> (res: FormatterRegistry)
        ensures
            res.formatters.len() == 0,
    {
        FormatterRegistry { formatters: Vec::new() }
    }

    /// The default set, in this order: `list`, `cond`, `ismatch`, `isnull`,
    /// `choose`, `substr`, and the default formatter last.
    pub fn new() -> (res: FormatterRegistry)
        ensures
            is_default_registry(res),
            res.formatters@.len() == 7,
            res.formatters@[0] is List,
            res.formatters@[1] is Conditional,
            res.formatters@[2] is IsMatch,
            res.formatters@[3] is Null,
            res.formatters@[4] is Choose,
            res.formatters@[5] is SubString,
            res.formatters@[6] is Default,
    {
        let mut formatters: Vec<AnyFormatter> = Vec::new();
        formatters.push(AnyFormatter::List(ListFormatter::new()));
        formatters.push(AnyFormatter::Conditional(ConditionalFormatter::new()));
        formatters.push(AnyFormatter::IsMatch(IsMatchFormatter::new()));
        formatters.push(AnyFormatter::Null(NullFormatter::new()));
        formatters.push(AnyFormatter::Choose(ChooseFormatter::new()));
        formatters.push(AnyFormatter::SubString(SubStringFormatter::new()));
        formatters.push(AnyFormatter::Default(DefaultFormatter));
        FormatterRegistry { formatters }
    }

    /// Appends a formatter: it is tried after every one already there.
    pub fn push(&mut self, formatter: AnyFormatter)
        ensures
            final(self).formatters@ == old(self).formatters@.push(formatter),
    {
        self.formatters.push(formatter);
    }

    /// Inserts a formatter at `index`, or last when `index` is past the end.
    pub fn insert(&mut self, index: usize, formatter: AnyFormatter)
        ensures
            index <= old(self).formatters.len() ==> final(self).formatters@ == old(self).formatters@.insert(index as int, formatter),
            index > old(self).formatters.len() ==> final(self).formatters@ == old(self).formatters@.push(formatter),
    {
        if index <= self.formatters.len() {
            self.formatters.insert(index, formatter);
        } else {
            self.formatters.push(formatter);
        }
    }

    /// Adds a formatter ahead of the first default formatter, so that the
    /// default one stays last; appends it when there is no default formatter.
    pub fn add(&mut self, formatter: AnyFormatter)
        ensures
            forall|k: int|
                0 <= k < old(self).formatters.len() && (#[trigger] old(self).formatters@[k]) is Default
                    && (forall|j: int| 0 <= j < k ==> !(old(self).formatters@[j] is Default))
                    ==> final(self).formatters@ == old(self).formatters@.insert(k, formatter),
            (forall|k: int|
                0 <= k < old(self).formatters.len() ==> !(#[trigger] old(self).formatters@[k] is Default)) ==> final(self).formatters@ == old(self).formatters@.push(formatter),
            exists|k: int|
                0 <= k <= old(self).formatters.len() && final(self).formatters@ == old(self).formatters@.insert(k, formatter) && #[trigger] final(self).formatters@[k]
                    == formatter,
    {
        let mut i: usize = 0;
        while i < self.formatters.len()
            invariant
                i <= self.formatters.len(),
                self.formatters == old(self).formatters,
                forall|j: int| 0 <= j < i ==> !(self.formatters@[j] is Default),
            decreases self.formatters.len() - i,
        {
            let is_default = match &self.formatters[i] {
                AnyFormatter::Default(_) => true,
                _ => false,
            };
            if is_default {
                self.formatters.insert(i, formatter);
                assert(self.formatters@[i as int] == formatter);
                return;
            }
            i += 1;
        }
        let ghost n = self.formatters@.len();
        self.formatters.push(formatter);
        assert(self.formatters@ =~= old(self).formatters@.insert(n as int, formatter));
        assert(self.formatters@[n as int] == formatter);
    }

    /// How many formatters there are.
    pub fn len(&self) -> (res: usize)
        ensures
            res == self.formatters.len(),
    {
        self.formatters.len()
    }
}

/// Whether a formatter is a template formatter whose last registered
/// template is `template` under `name`.
pub open spec fn holds_template(f: AnyFormatter, name: Seq<char>, template: Seq<char>) -> bool {
    match f {
        AnyFormatter::Template(t) => t.names().len() > 0 && t.names().last() == name
            && t.source_at(t.names().len() - 1) == template,
        _ => false,
    }
}

/// Whether the registry is the default set: `list`, `cond`, `ismatch`,
/// `isnull`, `choose`, `substr` and the default formatter, in this order.
pub open spec fn is_default_registry(r: FormatterRegistry) -> bool {
    &&& r.formatters@.len() == 7
    &&& r.formatters@[0] is List
    &&& r.formatters@[1] is Conditional
    &&& r.formatters@[2] is IsMatch
    &&& r.formatters@[3] is Null
    &&& r.formatters@[4] is Choose
    &&& r.formatters@[5] is SubString
    &&& r.formatters@[6] is Default
    &&& r.formatters@[0]->List_0.name_spec() == "list"@
    &&& r.formatters@[1]->Conditional_0.name_spec() == "cond"@
    &&& r.formatters@[2]->IsMatch_0.name_spec() == "ismatch"@
    &&& r.formatters@[3]->Null_0.name_spec() == "isnull"@
    &&& r.formatters@[4]->Choose_0.name_spec() == "choose"@
    &&& r.formatters@[5]->SubString_0.name_spec() == "substr"@
}

/// Whether `i` is the first template formatter among `fs`.
pub open spec fn is_first_template(fs: Seq<AnyFormatter>, i: int) -> bool {
    0 <= i < fs.len() && fs[i] is Template && forall|j: int| 0 <= j < i ==> !(#[trigger] fs[j] is Template)
}

/// Whether `after` is the template formatter `before` with `template`
/// registered under `name` last when `registered`, and with the same
/// templates otherwise; the same case sensitivity either way.
pub open spec fn template_updated(
    before: AnyFormatter,
    after: AnyFormatter,
    name: Seq<char>,
    template: Seq<char>,
    registered: bool,
) -> bool {
    match before {
        AnyFormatter::Template(b) => match after {
            AnyFormatter::Template(a) => a.case_spec() == b.case_spec() && if registered {
                a.names() == b.names().push(name) && a.source_at(b.names().len() as int)
                    == template
            } else {
                a.names() == b.names()
            },
            _ => false,
        },
        _ => false,
    }
}

/// Whether `f` is a template formatter of case sensitivity `case` holding
/// `template` under `name` alone when `registered`, and no template
/// otherwise.
pub open spec fn new_template(
    f: AnyFormatter,
    case: CaseSensitivity,
    name: Seq<char>,
    template: Seq<char>,
    registered: bool,
) -> bool {
    match f {
        AnyFormatter::Template(t) => t.case_spec() == case && if registered {
            t.names() == seq![name] && t.source_at(0) == template
        } else {
            t.names().len() == 0
        },
        _ => false,
    }
}

/// Parses templates and renders them against values.
#[derive(Debug)]
pub struct SmartFormatter {
    pub settings: SmartSettings,
    pub parser: Parser,
    pub formatters: FormatterRegistry,
}

impl SmartFormatter {
    /// A formatter with these settings, the default parser settings and the
    /// default formatters.
    pub fn new(settings: SmartSettings) -> (res: SmartFormatter)
        ensures
            res.settings == settings,
            has_default(res.formatters),
            is_default_registry(res.formatters),
            res.parser.settings.convert_character_string_literals,
            res.parser.string_format_compatibility == settings.string_format_compatibility,
    {
        SmartFormatter::with_parser_settings(settings, ParserSettings::default())
    }

    /// A formatter with these settings and parser settings.
    pub fn with_parser_settings(settings: SmartSettings, parser_settings: ParserSettings) -> (res:
        SmartFormatter)
        ensures
            res.settings == settings,
            has_default(res.formatters),
            res.parser.settings == parser_settings,
            res.parser.string_format_compatibility == settings.string_format_compatibility,
            is_default_registry(res.formatters),
    {
        let formatters = FormatterRegistry::new();
        assert(formatters.formatters@[6] is Default);
        SmartFormatter {
            settings,
            parser: Parser::new(parser_settings, settings.string_format_compatibility),
            formatters,
        }
    }

    /// A formatter with the default settings.
    pub fn default() -> (res: SmartFormatter)
        ensures
            res.settings.format_error_action == ErrorAction::Error,
            res.settings.case_sensitive == CaseSensitivity::CaseSensitive,
            !res.settings.string_format_compatibility,
            res.parser.settings.convert_character_string_literals,
            !res.parser.string_format_compatibility,
            has_default(res.formatters),
            is_default_registry(res.formatters),
    {
        SmartFormatter::new(SmartSettings::default())
    }

    /// The parser templates are read with.
    pub fn parser(&self) -> (res: &Parser)
        ensures
            *res == self.parser,
    {
        &self.parser
    }

    /// The formatters, to change.
    pub fn formatters_mut(&mut self) -> (res: &mut FormatterRegistry)
        ensures
            *res == old(self).formatters,
            final(self).formatters == *final(res),
            final(self).settings == old(self).settings,
            final(self).parser == old(self).parser,
    {
        &mut self.formatters
    }

    /// The settings.
    pub fn settings(&self) -> (res: SmartSettings)
        ensures
            res == self.settings,
    {
        self.settings
    }

    /// Renders `template` against `args`: a list is the positional
    /// arguments `{0}`, `{1}`, ... and its first item the value the
    /// template is rendered against; any other value is the one argument.
    ///
    /// A template of text and placeholders `{k}` renders as its text with
    /// each placeholder replaced by the text of the argument at index `k`
    /// ([`render_template`]), whenever the default formatter can be reached.
    /// A template that is one placeholder naming a formatter renders as the
    /// first formatter registered under that name writes it
    /// ([`template_choice_output`]). A template that does not parse fails
    /// with its syntax errors.
    pub fn format(&self, template: &str, args: &Value) -> (res: Result<String, Error>)
        ensures
            is_plain_text(template@) && template@.len() <= usize::MAX / 4 ==> (res matches Ok(s)
                && s@ == template@),
            render_template(template@, *args, self.settings.case_sensitive) matches Some(out) ==> (
            out.len() <= usize::MAX / 4
                && (self.settings.string_format_compatibility || has_default(self.formatters))
                ==> (res matches Ok(s) && s@ == out)),
            forall|k: int|
                #[trigger] stray_closing_brace(template@, 0, k) ==> (res matches Err(Error::Parse { errors })
                    && errors@.len() > 0 && stray_brace_error(errors@[0], k)),
            forall|k: int|
                #[trigger] unclosed_placeholder(template@, 0, k) ==> (res matches Err(Error::Parse { errors })
                    && errors@.len() == 1 && missing_brace_error(errors@[0], template@.len() as int)),
            forall|a: int, q: int, r: int, e: int, k: int|
                !self.parser.string_format_compatibility && named_placeholder_at(template@, 0, a, q, r, e)
                    && e + 1 == template@.len() && template_pick(
                    template@,
                    a,
                    root_spec(*args),
                    *args,
                    self.settings.case_sensitive,
                ) is Some ==> (#[trigger] template_choice_output(
                    self.settings,
                    self.formatters.formatters@,
                    template@,
                    a,
                    q,
                    r,
                    e,
                    template_pick(template@, a, root_spec(*args), *args, self.settings.case_sensitive)->0,
                    self.parser.settings.convert_character_string_literals,
                    k,
                ) matches Some(t) ==> (res matches Ok(s) && s@ == t)),
    {
        let parsed = match self.parser.parse(template) {
            Ok(p) => p,
            Err(e) => {
                return Err(e);
            },
        };
        proof {
            if is_plain_text(template@) && template@.len() <= usize::MAX / 4 {
                lemma_plain_template_renders_as_itself(parsed.src@, parsed.format);
            }
            let case = self.settings.case_sensitive;
            if render_template(template@, *args, case) is Some {
                let out = render_template(template@, *args, case)->0;
                if out.len() <= usize::MAX / 4 {
                    lemma_simple_items_render(
                        parsed.src@,
                        parsed.format.items@,
                        root_spec(*args),
                        *args,
                        case,
                        -1i64,
                    );
                }
            }
        }
        let res = self.format_parsed(&parsed, args);
        proof {
            lemma_format_reads_named_choice(self, template@, &parsed, args, res);
        }
        res
    }

    /// Renders an already parsed template against `args`.
    ///
    /// A template of plain literals and bare placeholders that pick an
    /// argument by index renders as its literals with each placeholder
    /// replaced by the text of its argument, whenever the default formatter
    /// can be reached.
    pub fn format_parsed(&self, parsed: &ParsedFormat, args: &Value) -> (res: Result<String, Error>)
        ensures
            all_plain_literals(parsed.src@, parsed.format.items@) ==> (res matches Ok(s) && s@
                == literals_text(parsed.src@, parsed.format.items@, 0)),
            all_simple_items(
                parsed.src@,
                parsed.format.items@,
                root_spec(*args),
                *args,
                self.settings.case_sensitive,
                -1i64,
            ) && (self.settings.string_format_compatibility || has_default(self.formatters)) ==> (
            res matches Ok(s) && s@ == simple_items_text(
                parsed.src@,
                parsed.format.items@,
                0,
                root_spec(*args),
                *args,
                self.settings.case_sensitive,
                -1i64,
            )),
            forall|k: int|
                parsed.format.items@.len() == 1 && parsed.format.items@[0] is Placeholder && placeholder_pick(
                    parsed.format.items@[0]->Placeholder_0,
                    root_spec(*args),
                    *args,
                    self.settings.case_sensitive,
                    -1i64,
                ) is Some ==> (#[trigger] named_output(
                    self.settings,
                    self.formatters.formatters@,
                    parsed.src@,
                    parsed.format.items@[0]->Placeholder_0,
                    placeholder_pick(
                        parsed.format.items@[0]->Placeholder_0,
                        root_spec(*args),
                        *args,
                        self.settings.case_sensitive,
                        -1i64,
                    )->0,
                    self.parser.settings.convert_character_string_literals,
                    k,
                ) matches Some(t) ==> (res matches Ok(s) && s@ == t)),
    {
        let null = Value::Null;
        let root: &Value = match args {
            Value::List(items) => if items.len() > 0 {
                &items[0]
            } else {
                &null
            },
            other => other,
        };
        let ctx = Ctx {
            settings: self.settings,
            convert: self.parser.settings.convert_character_string_literals,
            registry: &self.formatters,
            args,
            root,
            template: &parsed.src,
        };
        let mut state = State {
            out: Vec::new(),
            collection_index: NO_COLLECTION_INDEX,
            rendered: Ghost(Seq::empty()),
        };
        assert(state.out@ == Seq::<char>::empty());
        let scopes: Vec<&Value> = Vec::new();
        format_items(&ctx, &parsed.src, &parsed.format, root, &scopes, 0, true, &mut state, MAX_DEPTH)?;
        Ok(to_string(&state.out))
    }
    /// Registers `template` under `name` with the first template formatter,
    /// adding one — with the formatter's case sensitivity — ahead of the
    /// default formatter when there is none yet.
    pub fn register_template(&mut self, name: &str, template: &str) -> (res: Result<
        (),
        crate::extensions::template::RegisterError,
    >)
        ensures
            final(self).settings == old(self).settings,
            final(self).parser == old(self).parser,
            res is Ok ==> exists|i: int|
                0 <= i < final(self).formatters.formatters.len() && holds_template(
                    #[trigger] final(self).formatters.formatters@[i],
                    name@,
                    template@,
                ),
            forall|i: int|
                is_first_template(old(self).formatters.formatters@, i) ==> final(self).formatters.formatters@.len() == old(self).formatters.formatters@.len() && (forall|
                    j: int,
                |
                    0 <= j < old(self).formatters.formatters@.len() && j != i ==> #[trigger] final(self).formatters.formatters@[j] == old(self).formatters.formatters@[j])
                    && template_updated(
                    old(self).formatters.formatters@[i],
                    final(self).formatters.formatters@[i],
                    name@,
                    template@,
                    res is Ok,
                ) && (is_plain_text(template@) || template_pieces(template@, 0) is Some ==> (res is Ok
                    <==> find_name(
                    old(self).formatters.formatters@[i]->Template_0.names(),
                    name@,
                    old(self).formatters.formatters@[i]->Template_0.case_spec(),
                ) is None)),
            (forall|i: int|
                0 <= i < old(self).formatters.formatters@.len() ==> !(#[trigger] old(self).formatters.formatters@[i] is Template)) ==> (exists|k: int|
                0 <= k <= old(self).formatters.formatters@.len() && final(self).formatters.formatters@ == old(self).formatters.formatters@.insert(
                    k,
                    final(self).formatters.formatters@[k],
                ) && new_template(
                    #[trigger] final(self).formatters.formatters@[k],
                    old(self).settings.case_sensitive,
                    name@,
                    template@,
                    res is Ok,
                )) && (is_plain_text(template@) || template_pieces(template@, 0) is Some ==> res is Ok),
    {
        let parser = self.parser;
        let case = self.settings.case_sensitive;
        let n = self.formatters.formatters.len();
        let mut i: usize = 0;
        while i < n
            invariant
                i <= n,
                n == self.formatters.formatters.len(),
                self.settings == old(self).settings,
                self.parser == old(self).parser,
                parser == old(self).parser,
                self.formatters == old(self).formatters,
                forall|j: int| 0 <= j < i ==> !(#[trigger] self.formatters.formatters@[j] is Template),
            decreases n - i,
        {
            let is_template = match &self.formatters.formatters[i] {
                AnyFormatter::Template(_) => true,
                _ => false,
            };
            if is_template {
                let ghost before = self.formatters.formatters@;
                let f = self.formatters.formatters.remove(i);
                match f {
                    AnyFormatter::Template(mut t) => {
                        let res = t.register(&parser, name, template);
                        self.formatters.formatters.insert(i, AnyFormatter::Template(t));
                        proof {
                            assert(is_first_template(before, i as int));
                            assert forall|k: int| is_first_template(before, k) implies k == i by {
                                if k < i {
                                    assert(!(before[k] is Template));
                                } else if k > i {
                                    assert(!(before[i as int] is Template));
                                }
                            }
                            assert forall|j: int|
                                0 <= j < before.len() && j != i implies #[trigger] self.formatters.formatters@[j]
                                == before[j] by {
                                if j < i {
                                } else {
                                }
                            }
                            if res is Ok {
                                assert(holds_template(
                                    self.formatters.formatters@[i as int],
                                    name@,
                                    template@,
                                ));
                            }
                        }
                        return res;
                    },
                    other => {
                        self.formatters.formatters.insert(i, other);
                    },
                }
            }
            i += 1;
        }
        let mut t = TemplateFormatter::new(case);
        let ghost fresh = t;
        let res = t.register(&parser, name, template);
        proof {
            assert(find_name(fresh.names(), name@, fresh.case_spec()) is None);
            if res is Ok {
                assert(t.names() =~= seq![name@]);
            }
        }
        let ghost added = AnyFormatter::Template(t);
        let ghost before = self.formatters.formatters@;
        self.formatters.add(AnyFormatter::Template(t));
        proof {
            let k = choose|k: int|
                0 <= k <= before.len() && self.formatters.formatters@ == before.insert(k, added)
                    && #[trigger] self.formatters.formatters@[k] == added;
            if res is Ok {
                assert(holds_template(self.formatters.formatters@[k], name@, template@));
            }
            assert(t.names().len() == 0 ==> find_name(t.names(), name@, case) is None);
            assert(new_template(self.formatters.formatters@[k], case, name@, template@, res is Ok));
            assert forall|j: int| is_first_template(before, j) implies false by {
                assert(before[j] is Template);
            }
        }
        res
    }
}

} // verus!
