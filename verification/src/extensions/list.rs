//! `{0:list:itemFormat|spacer}` renders every item of a list with the same
//! format and writes the spacer between them. A third part is the spacer
//! before the last item, a fourth the spacer for a list of exactly two.
//!
//! The formatter auto-detects and is tried first, so `{0:one|many}` on a list
//! is a list. While it renders, the engine's collection index is the index
//! of the item, which `{Index}` reads.

use vstd::prelude::*;
use crate::text::{owned, chars_of};
use crate::value::{Value, is_scalar};
use crate::error::Error;
use crate::parsing::{Format, FormatItem, Placeholder, Selector, has_nested, literal_text,
    copy_format, split, items_text, PartView, items_alike, item_alike, lemma_items_text_alike};
use crate::formatter::{is_bare, Ctx, Info, State, Rendering, format_child, write_text, write_unaligned,
    decline_or_error, plain_error, error_position, NO_COLLECTION_INDEX, all_simple_items,
    simple_items_text, can_render_bare, format_parts, lemma_alike_renders_alike, declines_or_fails};
use crate::text::aligned;
use crate::settings::CaseSensitivity;
use super::{InvalidSplitChar, valid_split_char, is_valid_split_char};

verus! {

/// Renders each item of a list with the same format.
#[derive(Debug, Clone)]
pub struct ListFormatter {
    name: String,
    split_char: char,
    can_auto_detect: bool,
}

/// The part of the format written before the item at `index` of a list of
/// `count` items, whose format has `parts` parts: none before the first item;
/// the spacer (part 1) between items; before the last item the last spacer
/// (part 2, or the spacer when there is none); before the second of exactly
/// two items the two-spacer (part 3, or the last spacer when there is none).
pub open spec fn spacer_part_spec(index: int, count: int, parts: nat) -> Option<nat> {
    let last = if parts > 2 {
        2nat
    } else {
        1nat
    };
    let two = if parts > 3 {
        3nat
    } else {
        last
    };
    if index == 0 {
        None
    } else if index < count - 1 {
        Some(1)
    } else if index == 1 {
        Some(two)
    } else {
        Some(last)
    }
}

/// Whether `after` is `before` with one rendering of the format spanning
/// `start..end` of `src` for each of `items`, in order.
pub open spec fn renders_each_item(
    before: Seq<Rendering>,
    after: Seq<Rendering>,
    src: Seq<char>,
    start: int,
    end: int,
    items: Seq<Value>,
) -> bool {
    &&& after.len() == before.len() + items.len()
    &&& after.take(before.len() as int) == before
    &&& forall|i: int|
        0 <= i < items.len() ==> (#[trigger] after[before.len() + i]).0 == src && after[before.len()
            + i].1 == start && after[before.len() + i].2 == end && after[before.len() + i].3 == items[i]
}

/// [`spacer_part_spec`] of the index, the count and the number of parts.
pub fn spacer_part(index: i64, count: i64, parts: usize) -> (res: Option<usize>)
    requires
        count >= 0,
    ensures
        res matches Some(k) ==> spacer_part_spec(index as int, count as int, parts as nat) == Some(
            k as nat,
        ),
        res is None <==> spacer_part_spec(index as int, count as int, parts as nat) is None,
{
    let last: usize = if parts > 2 {
        2
    } else {
        1
    };
    let two: usize = if parts > 3 {
        3
    } else {
        last
    };
    if index == 0 {
        None
    } else if index < count - 1 {
        Some(1)
    } else if index == 1 {
        Some(two)
    } else {
        Some(last)
    }
}

/// Every item but the first has a spacer written before it.
pub proof fn lemma_spacer_between_items(index: int, count: int, parts: nat)
    requires
        0 <= index < count,
        parts >= 2,
    ensures
        spacer_part_spec(index, count, parts) is None <==> index == 0,
        spacer_part_spec(index, count, parts) matches Some(k) ==> 1 <= k < parts,
{
}

/// The items of each format.
pub open spec fn items_of(formats: Seq<Format>) -> Seq<Seq<FormatItem>> {
    formats.map_values(|f: Format| f.items@)
}

/// The number of items the spacers are chosen by: the length of the list,
/// held to `i32::MAX`.
pub open spec fn list_count(len: nat) -> int {
    if len > 0x7fff_ffff {
        0x7fff_ffff
    } else {
        len as int
    }
}

/// Whether a run of items holds a placeholder.
pub open spec fn holds_placeholder(items: Seq<FormatItem>) -> bool {
    exists|i: int| 0 <= i < items.len() && items[i] is Placeholder
}

/// Whether every spacer part — every part after the first, each given by
/// its items — holds no placeholder and its literal text resolves.
pub open spec fn plain_spacers(src: Seq<char>, parts: Seq<Seq<FormatItem>>, convert: bool) -> bool {
    forall|k: int|
        1 <= k < parts.len() ==> !holds_placeholder(#[trigger] parts[k]) && items_text(
            src,
            parts[k],
            convert,
            false,
        ) is Ok
}

/// What is written before the item at `index` of a list of `count` items:
/// the literal text of the spacer part [`spacer_part_spec`] picks, nothing
/// before the first item.
pub open spec fn spacer_text(
    src: Seq<char>,
    parts: Seq<Seq<FormatItem>>,
    index: int,
    count: int,
    convert: bool,
) -> Seq<char> {
    match spacer_part_spec(index, count, parts.len()) {
        Some(k) => if k < parts.len() {
            match items_text(src, parts[k as int], convert, false) {
                Ok(t) => t,
                Err(_) => Seq::empty(),
            }
        } else {
            Seq::empty()
        },
        None => Seq::empty(),
    }
}

/// What the first `n` items of a list render as: each preceded by its
/// [`spacer_text`], each rendered as [`simple_items_text`] of the item
/// format's items against the item, with the item's index as the
/// collection index.
pub open spec fn list_text(
    src: Seq<char>,
    item_items: Seq<FormatItem>,
    parts: Seq<Seq<FormatItem>>,
    items: Seq<Value>,
    alignment: int,
    args: Value,
    case: CaseSensitivity,
    convert: bool,
    n: nat,
) -> Seq<char>
    decreases n,
{
    if n == 0 || n > items.len() {
        Seq::empty()
    } else {
        list_text(src, item_items, parts, items, alignment, args, case, convert, (n - 1) as nat)
            + spacer_text(src, parts, n - 1, list_count(items.len()), convert) + simple_items_text(
            src,
            item_items,
            alignment,
            items[n - 1],
            args,
            case,
            (n - 1) as i64,
        )
    }
}

/// Whether a list renders as [`list_text`]: each item renders through the
/// item format as plain literals and substituted placeholders, the spacers
/// are plain, and there are fewer items than the collection index counts.
pub open spec fn list_renders_simply(
    src: Seq<char>,
    item_items: Seq<FormatItem>,
    parts: Seq<Seq<FormatItem>>,
    items: Seq<Value>,
    args: Value,
    case: CaseSensitivity,
    convert: bool,
) -> bool {
    &&& items.len() < 0x7fff_ffff_ffff_ffff
    &&& plain_spacers(src, parts, convert)
    &&& forall|i: int|
        0 <= i < items.len() ==> all_simple_items(src, item_items, #[trigger] items[i], args, case, i as i64)
}

/// The items of each part as splitting builds it.
pub open spec fn view_items(views: Seq<PartView>) -> Seq<Seq<FormatItem>> {
    views.map_values(|v: PartView| v.0)
}

/// Whether two runs of parts are alike part by part.
pub open spec fn parts_items_alike(a: Seq<Seq<FormatItem>>, b: Seq<Seq<FormatItem>>) -> bool {
    a.len() == b.len() && forall|k: int| 0 <= k < a.len() ==> items_alike(#[trigger] a[k], b[k])
}

/// Alike runs of items hold a placeholder alike.
proof fn lemma_holds_placeholder_alike(a: Seq<FormatItem>, b: Seq<FormatItem>)
    requires
        items_alike(a, b),
    ensures
        holds_placeholder(a) == holds_placeholder(b),
{
    if holds_placeholder(a) {
        let i = choose|i: int| 0 <= i < a.len() && a[i] is Placeholder;
        assert(item_alike(a[i], b[i]));
    }
    if holds_placeholder(b) {
        let i = choose|i: int| 0 <= i < b.len() && b[i] is Placeholder;
        assert(item_alike(a[i], b[i]));
    }
}

/// Alike item formats and alike parts render a list alike.
proof fn lemma_list_text_alike(
    src: Seq<char>,
    ai: Seq<FormatItem>,
    bi: Seq<FormatItem>,
    ap: Seq<Seq<FormatItem>>,
    bp: Seq<Seq<FormatItem>>,
    items: Seq<Value>,
    alignment: int,
    args: Value,
    case: CaseSensitivity,
    convert: bool,
    n: nat,
)
    requires
        items_alike(ai, bi),
        parts_items_alike(ap, bp),
    ensures
        list_text(src, ai, ap, items, alignment, args, case, convert, n) == list_text(
            src,
            bi,
            bp,
            items,
            alignment,
            args,
            case,
            convert,
            n,
        ),
    decreases n,
{
    if n > 0 && n <= items.len() {
        lemma_list_text_alike(src, ai, bi, ap, bp, items, alignment, args, case, convert, (n - 1) as nat);
        lemma_alike_renders_alike(src, ai, bi, alignment, items[n - 1], args, case, (n - 1) as i64);
        match spacer_part_spec(n - 1, list_count(items.len()), ap.len()) {
            Some(k) => {
                if k < ap.len() {
                    assert(items_alike(ap[k as int], bp[k as int]));
                    lemma_items_text_alike(src, ap[k as int], bp[k as int], convert, false);
                }
            },
            None => {},
        }
    }
}

/// Alike item formats and alike parts render a list simply alike.
proof fn lemma_list_simple_alike(
    src: Seq<char>,
    ai: Seq<FormatItem>,
    bi: Seq<FormatItem>,
    ap: Seq<Seq<FormatItem>>,
    bp: Seq<Seq<FormatItem>>,
    items: Seq<Value>,
    args: Value,
    case: CaseSensitivity,
    convert: bool,
)
    requires
        items_alike(ai, bi),
        parts_items_alike(ap, bp),
    ensures
        list_renders_simply(src, bi, bp, items, args, case, convert) ==> list_renders_simply(
            src,
            ai,
            ap,
            items,
            args,
            case,
            convert,
        ),
{
    if list_renders_simply(src, bi, bp, items, args, case, convert) {
        assert forall|k: int| 1 <= k < ap.len() implies !holds_placeholder(#[trigger] ap[k])
            && items_text(src, ap[k], convert, false) is Ok by {
            assert(items_alike(ap[k], bp[k]));
            assert(!holds_placeholder(bp[k]));
            lemma_holds_placeholder_alike(ap[k], bp[k]);
            lemma_items_text_alike(src, ap[k], bp[k], convert, false);
        }
        assert forall|i: int| 0 <= i < items.len() implies all_simple_items(
            src,
            ai,
            #[trigger] items[i],
            args,
            case,
            i as i64,
        ) by {
            lemma_alike_renders_alike(src, ai, bi, 0, items[i], args, case, i as i64);
        }
    }
}

/// Whether a selector of the placeholder, or the operator after the last
/// one, starts with the nullable operator `?`.
pub open spec fn has_nullable_operator_spec(p: &Placeholder) -> bool {
    (exists|i: int|
        0 <= i < p.selectors.len() && #[trigger] p.selectors@[i].operator@.len() > 0
            && p.selectors@[i].operator@[0] == '?') || (p.trailing_operator@.len() > 0
        && p.trailing_operator@[0] == '?')
}

/// The nullable operator counts wherever it stands: after any selector of
/// the placeholder, as in `{Data?.Names}`, as well as after the last one.
pub proof fn law_nullable_operator_anywhere(p: &Placeholder, i: int)
    requires
        0 <= i < p.selectors.len(),
        p.selectors@[i].operator@.len() > 0,
        p.selectors@[i].operator@[0] == '?',
    ensures
        has_nullable_operator_spec(p),
{
}

/// [`has_nullable_operator_spec`] of the placeholder.
pub fn has_nullable_operator(p: &Placeholder) -> (res: bool)
    ensures
        res == has_nullable_operator_spec(p),
{
    let mut i: usize = 0;
    while i < p.selectors.len()
        invariant
            i <= p.selectors.len(),
            forall|k: int|
                0 <= k < i ==> !(#[trigger] p.selectors@[k].operator@.len() > 0
                    && p.selectors@[k].operator@[0] == '?'),
        decreases p.selectors.len() - i,
    {
        let op = &p.selectors[i].operator;
        if op.len() > 0 && op[0] == '?' {
            return true;
        }
        i += 1;
    }
    p.trailing_operator.len() > 0 && p.trailing_operator[0] == '?'
}

/// A format holding one placeholder with no selectors and `format` as its
/// format: how an item format that is a specifier, such as `N2`, is applied
/// to each item.
pub fn as_placeholder(format: &Format, alignment: i32) -> (res: Format)
    ensures
        res.start == format.start,
        res.end == format.end,
        res.items.len() == 1,
        res.items@[0] matches FormatItem::Placeholder(p) && p.selectors.len() == 0
            && p.alignment == alignment && p.formatter_name@.len() == 0 && p.format is Some,
{
    let placeholder = Placeholder {
        selectors: Vec::new(),
        trailing_operator: Vec::new(),
        alignment,
        formatter_name: Vec::new(),
        options: None,
        format: Some(Box::new(copy_format(format))),
        start: format.start,
        end: format.end,
    };
    let mut items: Vec<FormatItem> = Vec::new();
    items.push(FormatItem::Placeholder(placeholder));
    Format { items, start: format.start, end: format.end }
}

impl ListFormatter {
    pub closed spec fn name_spec(&self) -> Seq<char> {
        self.name@
    }

    pub closed spec fn split_char_spec(&self) -> char {
        self.split_char
    }

    pub closed spec fn auto_detect_spec(&self) -> bool {
        self.can_auto_detect
    }

    /// A formatter named `list`, splitting on `|` and auto-detecting.
    pub fn new() -> (res: ListFormatter)
        ensures
            res.name_spec() == "list"@,
            res.split_char_spec() == '|',
            res.auto_detect_spec(),
    {
        ListFormatter { name: owned("list"), split_char: '|', can_auto_detect: true }
    }

    /// The formatter under another name.
    pub fn with_name(self, name: &str) -> (res: ListFormatter)
        ensures
            res.name_spec() == name@,
            res.split_char_spec() == self.split_char_spec(),
            res.auto_detect_spec() == self.auto_detect_spec(),
    {
        ListFormatter { name: owned(name), ..self }
    }

    pub fn name(&self) -> (res: &str)
        ensures
            res@ == self.name_spec(),
    {
        self.name.as_str()
    }

    /// The character the parts of the format are split on.
    pub fn split_char(&self) -> (res: char)
        ensures
            res == self.split_char_spec(),
    {
        self.split_char
    }

    /// Changes the split character; only `|`, `,` and `~` are accepted.
    pub fn set_split_char(&mut self, split_char: char) -> (res: Result<(), InvalidSplitChar>)
        ensures
            is_valid_split_char(split_char) ==> res is Ok && final(self).split_char_spec()
                == split_char,
            !is_valid_split_char(split_char) ==> res == Err::<(), InvalidSplitChar>(
                InvalidSplitChar(split_char),
            ) && final(self).split_char_spec() == old(self).split_char_spec(),
            final(self).name_spec() == old(self).name_spec(),
            final(self).auto_detect_spec() == old(self).auto_detect_spec(),
    {
        match valid_split_char(split_char) {
            Ok(c) => {
                self.split_char = c;
                Ok(())
            },
            Err(e) => Err(e),
        }
    }

    /// Whether a placeholder that names no formatter may be handled here.
    pub fn can_auto_detect(&self) -> (res: bool)
        ensures
            res == self.auto_detect_spec(),
    {
        self.can_auto_detect
    }

    pub fn set_can_auto_detect(&mut self, can_auto_detect: bool)
        ensures
            final(self).auto_detect_spec() == can_auto_detect,
            final(self).name_spec() == old(self).name_spec(),
            final(self).split_char_spec() == old(self).split_char_spec(),
    {
        self.can_auto_detect = can_auto_detect;
    }

    /// Renders every item of a list with the first part of the format, with
    /// the spacer [`spacer_part_spec`] picks before each; a null under the
    /// nullable operator renders nothing. Declines — or fails naming the
    /// formatter — for anything but a list, or a format of fewer than two
    /// parts. The collection index is the item's index while it renders and
    /// is restored afterwards.
    #[verifier::loop_isolation(false)]
    pub fn try_evaluate_format(&self, ctx: &Ctx, info: &Info, state: &mut State, fuel: usize) -> (res:
        Result<bool, Error>)
        ensures
            is_bare(*info.placeholder) && is_scalar(*info.value) ==> res == Ok::<bool, Error>(false)
                && *final(state) == *old(state),
            info.placeholder.formatter_name@.len() == 0 && !(info.value is List) && !(
            info.value is Null) ==> res == Ok::<bool, Error>(false),
            res matches Ok(true) && !(info.value is Null) ==> final(state).collection_index == old(
                state,
            ).collection_index,
            info.value matches Value::List(items) ==> (format_parts(
                info.src@,
                *info.placeholder,
                self.split_char_spec(),
                4,
            ) matches Some(ps) ==> (ps.len() >= 2 && holds_placeholder(ps[0].0) && list_renders_simply(
                info.src@,
                ps[0].0,
                view_items(ps),
                items@,
                *ctx.args,
                ctx.settings.case_sensitive,
                ctx.convert,
            ) && fuel >= 2 && can_render_bare(ctx) ==> res == Ok::<bool, Error>(true) && final(state).out@
                == old(state).out@ + list_text(
                info.src@,
                ps[0].0,
                view_items(ps),
                items@,
                info.placeholder.alignment as int,
                *ctx.args,
                ctx.settings.case_sensitive,
                ctx.convert,
                items.len() as nat,
            ))),
            info.value matches Value::List(items) ==> (format_parts(
                info.src@,
                *info.placeholder,
                self.split_char_spec(),
                4,
            ) matches Some(ps) ==> (ps.len() >= 2 && holds_placeholder(ps[0].0) && (forall|j: int|
                1 <= j < ps.len() ==> !holds_placeholder(#[trigger] ps[j].0)) ==> (res is Ok
                ==> renders_each_item(
                old(state).rendered(),
                final(state).rendered(),
                info.src@,
                ps[0].1,
                ps[0].2,
                items@,
            )))),
            info.value is Null && has_nullable_operator_spec(info.placeholder) ==> res == Ok::<
                bool,
                Error,
            >(true) && final(state).out@ == old(state).out@ + aligned(
                Seq::<char>::empty(),
                info.placeholder.alignment as int,
            ),
            info.value is Null && (exists|i: int|
                0 <= i < info.placeholder.selectors.len()
                    && #[trigger] info.placeholder.selectors@[i].operator@.len() > 0
                    && info.placeholder.selectors@[i].operator@[0] == '?') ==> res == Ok::<
                bool,
                Error,
            >(true) && final(state).out@ == old(state).out@ + aligned(
                Seq::<char>::empty(),
                info.placeholder.alignment as int,
            ),
            !(info.value is List) && !(info.value is Null && has_nullable_operator_spec(
                info.placeholder,
            )) ==> declines_or_fails(
                *info.placeholder,
                " requires an IEnumerable argument and at least 2 format parameters."@,
                res,
            ),
            info.value is List ==> match format_parts(
                info.src@,
                *info.placeholder,
                self.split_char_spec(),
                4,
            ) {
                None => declines_or_fails(
                    *info.placeholder,
                    " requires an IEnumerable argument and at least 2 format parameters."@,
                    res,
                ),
                Some(ps) => ps.len() < 2 ==> declines_or_fails(
                    *info.placeholder,
                    " requires an IEnumerable argument and at least 2 format parameters."@,
                    res,
                ),
            },
        decreases fuel, 8nat,
    {
        if info.value.is_null() && has_nullable_operator(info.placeholder) {
            let empty: Vec<char> = Vec::new();
            write_text(info, state, &empty);
            return Ok(true);
        }
        let parts = match &info.placeholder.format {
            Some(f) => Some(split(info.src, f, self.split_char, 4)),
            None => None,
        };
        let items = match info.value {
            Value::List(items) => items,
            _ => {
                return decline_or_error(
                    info,
                    " requires an IEnumerable argument and at least 2 format parameters.",
                );
            },
        };
        let parts = match parts {
            Some(p) => {
                if p.len() >= 2 {
                    p
                } else {
                    return decline_or_error(
                        info,
                        " requires an IEnumerable argument and at least 2 format parameters.",
                    );
                }
            },
            None => {
                return decline_or_error(
                    info,
                    " requires an IEnumerable argument and at least 2 format parameters.",
                );
            },
        };
        let wrapped: Format;
        let item_format: &Format = if has_nested(&parts[0]) {
            &parts[0]
        } else {
            wrapped = as_placeholder(&parts[0], info.placeholder.alignment);
            &wrapped
        };
        proof {
            let ps = format_parts(info.src@, *info.placeholder, self.split_char, 4)->0;
            assert(parts_items_alike(items_of(parts@), view_items(ps))) by {
                assert forall|k: int| 0 <= k < parts.len() implies items_alike(
                    #[trigger] items_of(parts@)[k],
                    view_items(ps)[k],
                ) by {
                    assert(items_of(parts@)[k] == parts@[k].items@);
                    assert(view_items(ps)[k] == ps[k].0);
                }
            }
            assert(items_alike(parts@[0].items@, ps[0].0)) by {
                assert(items_of(parts@)[0] == parts@[0].items@);
                assert(view_items(ps)[0] == ps[0].0);
            }
            lemma_holds_placeholder_alike(parts@[0].items@, ps[0].0);
            assert forall|j: int| 1 <= j < parts.len() implies holds_placeholder(
                #[trigger] parts@[j].items@,
            ) == holds_placeholder(ps[j].0) by {
                assert(items_of(parts@)[j] == parts@[j].items@);
                assert(view_items(ps)[j] == ps[j].0);
                lemma_holds_placeholder_alike(parts@[j].items@, ps[j].0);
            }
            if holds_placeholder(ps[0].0) {
                assert(*item_format == parts@[0]);
                lemma_list_simple_alike(
                    info.src@,
                    item_format.items@,
                    ps[0].0,
                    items_of(parts@),
                    view_items(ps),
                    items@,
                    *ctx.args,
                    ctx.settings.case_sensitive,
                    ctx.convert,
                );
                lemma_list_text_alike(
                    info.src@,
                    item_format.items@,
                    ps[0].0,
                    items_of(parts@),
                    view_items(ps),
                    items@,
                    info.placeholder.alignment as int,
                    *ctx.args,
                    ctx.settings.case_sensitive,
                    ctx.convert,
                    items.len() as nat,
                );
            }
        }
        self.render_items(ctx, info, item_format, &parts, items, state, fuel)?;
        Ok(true)
    }

    /// Renders each item through `item_format`, with the spacer the parts
    /// pick written before it and the item's index as the collection index
    /// while it renders; the collection index is restored afterwards.
    fn render_items(
        &self,
        ctx: &Ctx,
        info: &Info,
        item_format: &Format,
        parts: &Vec<Format>,
        items: &Vec<Value>,
        state: &mut State,
        fuel: usize,
    ) -> (res: Result<(), Error>)
        requires
            2 <= parts.len() <= 5,
        ensures
            res is Ok ==> final(state).collection_index == old(state).collection_index,
            list_renders_simply(
                info.src@,
                item_format.items@,
                items_of(parts@),
                items@,
                *ctx.args,
                ctx.settings.case_sensitive,
                ctx.convert,
            ) && fuel >= 2 && can_render_bare(ctx) ==> res is Ok && final(state).out@ == old(
                state,
            ).out@ + list_text(
                info.src@,
                item_format.items@,
                items_of(parts@),
                items@,
                info.placeholder.alignment as int,
                *ctx.args,
                ctx.settings.case_sensitive,
                ctx.convert,
                items.len() as nat,
            ),
            (forall|j: int| 1 <= j < parts.len() ==> !holds_placeholder(#[trigger] parts@[j].items@))
                ==> (res is Ok ==> renders_each_item(
                old(state).rendered(),
                final(state).rendered(),
                info.src@,
                item_format.start as int,
                item_format.end as int,
                items@,
            )),
        decreases fuel, 7nat,
    {
        assert(items_of(parts@).len() == parts.len());
        let ghost good = list_renders_simply(
            info.src@,
            item_format.items@,
            items_of(parts@),
            items@,
            *ctx.args,
            ctx.settings.case_sensitive,
            ctx.convert,
        ) && fuel >= 2 && can_render_bare(ctx);
        let ghost start = state.out@;
        let ghost trace = state.rendered();
        let ghost plain_spacers = forall|j: int|
            1 <= j < parts.len() ==> !holds_placeholder(#[trigger] parts@[j].items@);
        assert(trace.take(trace.len() as int) =~= trace);
        assert(items@.take(0) =~= Seq::<Value>::empty());
        let saved = state.collection_index;
        state.collection_index = NO_COLLECTION_INDEX;
        let count: i64 = if items.len() > 0x7fff_ffff {
            0x7fff_ffff
        } else {
            items.len() as i64
        };
        let mut i: usize = 0;
        while i < items.len()
            invariant
                i <= items.len(),
                parts.len() >= 2,
                parts.len() <= 5,
                0 <= count,
                count == list_count(items.len() as nat),
                good == (list_renders_simply(
                    info.src@,
                    item_format.items@,
                    items_of(parts@),
                    items@,
                    *ctx.args,
                    ctx.settings.case_sensitive,
                    ctx.convert,
                ) && fuel >= 2 && can_render_bare(ctx)),
                good ==> state.collection_index == i - 1 && state.out@ == start + list_text(
                    info.src@,
                    item_format.items@,
                    items_of(parts@),
                    items@,
                    info.placeholder.alignment as int,
                    *ctx.args,
                    ctx.settings.case_sensitive,
                    ctx.convert,
                    i as nat,
                ),
                plain_spacers == (forall|j: int|
                    1 <= j < parts.len() ==> !holds_placeholder(#[trigger] parts@[j].items@)),
                plain_spacers ==> renders_each_item(
                    trace,
                    state.rendered(),
                    info.src@,
                    item_format.start as int,
                    item_format.end as int,
                    items@.take(i as int),
                ),
            decreases items.len() - i,
        {
            let index = if state.collection_index < i64::MAX {
                state.collection_index + 1
            } else {
                i64::MAX
            };
            state.collection_index = index;
            match spacer_part(index, count, parts.len()) {
                Some(k) => {
                    if k < parts.len() {
                        assert(items_of(parts@)[k as int] == parts@[k as int].items@);
                        assert(k >= 1);
                        self.write_spacer(ctx, info, &parts[k], state, fuel)?;
                    }
                },
                None => {},
            }
            proof {
                if good {
                    assert(all_simple_items(
                        info.src@,
                        item_format.items@,
                        items@[i as int],
                        *ctx.args,
                        ctx.settings.case_sensitive,
                        i as i64,
                    ));
                }
            }
            let ghost mid = state.rendered();
            format_child(
                ctx,
                info,
                info.src,
                item_format,
                &items[i],
                info.placeholder.alignment,
                state,
                fuel,
            )?;
            proof {
                if plain_spacers {
                    let r = state.rendered();
                    assert(r == mid.push(r.last()));
                    assert(r.take(trace.len() as int) =~= mid.take(trace.len() as int));
                    assert forall|j: int| 0 <= j < i + 1 implies (#[trigger] r[trace.len() + j]).0
                        == info.src@ && r[trace.len() + j].1 == item_format.start && r[trace.len()
                        + j].2 == item_format.end && r[trace.len() + j].3 == items@.take(i + 1)[j] by {
                        if j < i {
                            assert(r[trace.len() + j] == mid[trace.len() + j]);
                            assert(items@.take(i + 1)[j] == items@.take(i as int)[j]);
                        }
                    }
                }
            }
            proof {
                if good {
                    assert(state.out@ == start + list_text(
                        info.src@,
                        item_format.items@,
                        items_of(parts@),
                        items@,
                        info.placeholder.alignment as int,
                        *ctx.args,
                        ctx.settings.case_sensitive,
                        ctx.convert,
                        (i + 1) as nat,
                    ));
                }
            }
            proof {
                if plain_spacers {
                    assert(items@.take(i + 1).drop_last() =~= items@.take(i as int));
                }
            }
            i += 1;
        }
        state.collection_index = saved;
        assert(items@.take(items.len() as int) =~= items@);
        Ok(())
    }

    /// A spacer: a format with placeholders is rendered against the value the
    /// call was made with, unpadded; one without is written as its literal
    /// text.
    fn write_spacer(&self, ctx: &Ctx, info: &Info, spacer: &Format, state: &mut State, fuel: usize) -> (res:
        Result<(), Error>)
        ensures
            !holds_placeholder(spacer.items@) ==> match items_text(info.src@, spacer.items@, ctx.convert, false) {
                Ok(t) => res is Ok && final(state).out@ == old(state).out@ + t
                    && final(state).collection_index == old(state).collection_index
                    && final(state).rendered() == old(state).rendered(),
                Err(_) => res is Err,
            },
        decreases fuel, 6nat,
    {
        if has_nested(spacer) {
            return format_child(ctx, info, info.src, spacer, ctx.root, 0, state, fuel);
        }
        match literal_text(info.src, spacer, ctx.convert) {
            Ok(text) => {
                write_unaligned(state, &text);
                Ok(())
            },
            Err(e) => Err(plain_error(&chars_of(e.message.as_str()), error_position(info.placeholder))),
        }
    }
}

} // verus!
