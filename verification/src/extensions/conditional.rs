//! `{0:cond:zero|one|many}` picks one of the `|`-separated parts of the format
//! by looking at the value: an integer picks the part it indexes (a negative
//! one the last part), a bool picks `true|false`, a string
//! `has-value|empty`, and a null the second part. A part may also start with
//! a complex condition — `>=100?a lot` — in which case the first condition
//! that holds wins.
//!
//! Every error of this formatter is a plain one, without the envelope of a
//! formatting error.

use vstd::prelude::*;
use std::cmp::Ordering;
use crate::text::{owned, chars_of, sub_chars, split_spec, lemma_split_piece_bound};
use crate::value::{Value, is_scalar};
use crate::error::Error;
use crate::decimal::{Decimal, DecimalError, parse_decimal_chars, parse_decimal_spec, order_of, cross};
use crate::dotnet_messages::{not_in_a_correct_format, not_in_a_correct_format_spec, decimal_overflow, int32_overflow,
    out_of_range_index};
use crate::parsing::{Format, FormatItem, raw_range, raw_range_spec, substring, split,
    literal_format_text, spanned_literal_text, substring_items, items_alike, PartView,
    parts_alike, item_alike, lemma_items_alike_push};
use crate::formatter::{fails_with, error_position_spec, is_bare, literal_format_of, spanned_format_of, all_simple_items, format_parts,
    simple_items_text, can_render_bare, lemma_alike_renders_alike, part_output, lemma_literal_part_renders, Ctx, Info, State, format_as_child, decline_or_error, plain_error,
    error_position};
use super::{InvalidSplitChar, valid_split_char, is_valid_split_char};

verus! {

/// Picks one of several formats by the value.
#[derive(Debug, Clone)]
pub struct ConditionalFormatter {
    name: String,
    split_char: char,
    can_auto_detect: bool,
}

// ---------------------------------------------------------------------------
// Complex conditions
// ---------------------------------------------------------------------------

/// One `[&/]?[<>=!]=?[0-9.-]+` of a complex condition: the connector, the
/// comparer and the value, as written.
#[derive(Debug)]
pub struct Condition {
    pub and_or: Vec<char>,
    pub comparer: Vec<char>,
    pub value: Vec<char>,
}

impl Condition {
    pub open spec fn view(&self) -> (Seq<char>, Seq<char>, Seq<char>) {
        (self.and_or@, self.comparer@, self.value@)
    }
}

pub open spec fn is_comparer_char(c: char) -> bool {
    c == '<' || c == '>' || c == '=' || c == '!'
}

pub open spec fn is_value_char(c: char) -> bool {
    ('0' <= c && c <= '9') || c == '.' || c == '-'
}

/// The number of value characters from `at` on.
pub open spec fn value_run(text: Seq<char>, at: nat) -> nat
    decreases text.len() - at,
{
    if at < text.len() && is_value_char(text[at as int]) {
        1 + value_run(text, at + 1)
    } else {
        0
    }
}

/// The conditions of a complex condition starting at `at`, and where the
/// text after its closing `?` starts: .NET's pattern
/// `^(?:([&/]?)([<>=!]=?)([0-9.-]+))+\?`, matched greedily.
pub open spec fn match_from(text: Seq<char>, at: nat) -> Option<
    (Seq<(Seq<char>, Seq<char>, Seq<char>)>, nat),
>
    decreases text.len() - at,
{
    if at > text.len() {
        None
    } else {
        let a: nat = if at < text.len() && (text[at as int] == '&' || text[at as int] == '/') {
            at + 1
        } else {
            at
        };
        if !(a < text.len() && is_comparer_char(text[a as int])) {
            None
        } else {
            let c: nat = if a + 1 < text.len() && text[a + 1 as int] == '=' {
                a + 2
            } else {
                a + 1
            };
            let v: nat = c + value_run(text, c);
            if v == c || v > text.len() {
                None
            } else {
                let cond = (
                    text.subrange(at as int, a as int),
                    text.subrange(a as int, c as int),
                    text.subrange(c as int, v as int),
                );
                if v < text.len() && text[v as int] == '?' {
                    Some((seq![cond], v + 1))
                } else {
                    match match_from(text, v) {
                        Some((rest, l)) => Some((seq![cond] + rest, l)),
                        None => None,
                    }
                }
            }
        }
    }
}

/// [`value_run`] of `text` from `at`.
fn value_end(text: &Vec<char>, at: usize) -> (res: usize)
    requires
        at <= text.len(),
    ensures
        res == at + value_run(text@, at as nat),
        res <= text.len(),
{
    let mut v = at;
    while v < text.len() && ((text[v] >= '0' && text[v] <= '9') || text[v] == '.' || text[v] == '-')
        invariant
            at <= v <= text.len(),
            value_run(text@, at as nat) == (v - at) + value_run(text@, v as nat),
        decreases text.len() - v,
    {
        v += 1;
    }
    v
}

/// The conditions and the length of the complex condition `text` starts
/// with, as [`match_from`] says, or `None` when it starts with none.
pub fn match_conditions(text: &Vec<char>) -> (res: Option<(Vec<Condition>, usize)>)
    ensures
        res is None <==> match_from(text@, 0) is None,
        res matches Some((conds, l)) ==> match_from(text@, 0) == Some(
            (conds@.map_values(|c: Condition| c.view()), l as nat),
        ),
{
    let mut conds: Vec<Condition> = Vec::new();
    let mut at: usize = 0;
    loop
        invariant
            at <= text.len(),
            match_from(text@, 0) == (match match_from(text@, at as nat) {
                Some((rest, l)) => Some((conds@.map_values(|c: Condition| c.view()) + rest, l)),
                None => None,
            }),
        decreases text.len() - at,
    {
        let ghost old_conds = conds@.map_values(|c: Condition| c.view());
        let a = if at < text.len() && (text[at] == '&' || text[at] == '/') {
            at + 1
        } else {
            at
        };
        if !(a < text.len() && (text[a] == '<' || text[a] == '>' || text[a] == '=' || text[a]
            == '!')) {
            return None;
        }
        let c = if a + 1 < text.len() && text[a + 1] == '=' {
            a + 2
        } else {
            a + 1
        };
        let v = value_end(text, c);
        if v == c {
            return None;
        }
        let cond = Condition {
            and_or: sub_chars(text, at, a),
            comparer: sub_chars(text, a, c),
            value: sub_chars(text, c, v),
        };
        let ghost cv = cond.view();
        conds.push(cond);
        assert(conds@.map_values(|c: Condition| c.view()) == old_conds.push(cv));
        if v < text.len() && text[v] == '?' {
            assert(old_conds + seq![cv] == old_conds.push(cv));
            return Some((conds, v + 1));
        }
        proof {
            match match_from(text@, v as nat) {
                Some((rest, l)) => {
                    assert(old_conds + (seq![cv] + rest) == old_conds.push(cv) + rest);
                },
                None => {},
            }
        }
        at = v;
    }
}

/// Whether a comparer holds of how the value compares to the condition's
/// value.
pub open spec fn holds_spec(comparer: Seq<char>, o: Ordering) -> bool {
    if comparer == seq!['>'] {
        o == Ordering::Greater
    } else if comparer == seq!['<'] {
        o == Ordering::Less
    } else if comparer == seq!['='] || comparer == seq!['=', '='] {
        o == Ordering::Equal
    } else if comparer == seq!['<', '='] {
        o != Ordering::Greater
    } else if comparer == seq!['>', '='] {
        o != Ordering::Less
    } else if comparer == seq!['!'] || comparer == seq!['!', '='] {
        o != Ordering::Equal
    } else {
        false
    }
}

/// [`holds_spec`] of the comparer and the ordering.
pub fn holds(comparer: &Vec<char>, o: Ordering) -> (res: bool)
    ensures
        res == holds_spec(comparer@, o),
{
    let n = comparer.len();
    let first = if n > 0 {
        comparer[0]
    } else {
        ' '
    };
    let second = if n > 1 {
        comparer[1]
    } else {
        ' '
    };
    assert(n == 1 ==> comparer@ == seq![first]);
    assert(n == 2 ==> comparer@ == seq![first, second]);
    let greater = match o {
        Ordering::Greater => true,
        _ => false,
    };
    let less = match o {
        Ordering::Less => true,
        _ => false,
    };
    let equal = match o {
        Ordering::Equal => true,
        _ => false,
    };
    if n == 1 && first == '>' {
        greater
    } else if n == 1 && first == '<' {
        less
    } else if (n == 1 && first == '=') || (n == 2 && first == '=' && second == '=') {
        equal
    } else if n == 2 && first == '<' && second == '=' {
        !greater
    } else if n == 2 && first == '>' && second == '=' {
        !less
    } else if (n == 1 && first == '!') || (n == 2 && first == '!' && second == '=') {
        !equal
    } else {
        false
    }
}

/// The comparers as written tell each other apart by their characters.
proof fn lemma_comparer_literals()
    ensures
        seq!['!'][0] == '!' && seq!['='][0] == '=' && seq!['<'][0] == '<' && seq!['>'][0] == '>',
        seq!['!', '='][0] == '!' && seq!['=', '='][0] == '=' && seq!['<', '='][0] == '<'
            && seq!['>', '='][0] == '>',
        seq!['!'].len() == 1 && seq!['='].len() == 1 && seq!['<'].len() == 1 && seq!['>'].len() == 1,
        seq!['!', '='].len() == 2 && seq!['=', '='].len() == 2 && seq!['<', '='].len() == 2
            && seq!['>', '='].len() == 2,
{
}

/// What each comparer asks of how the value compares to the condition's
/// value: `!` and `!=` hold of every value other than it, below it as well
/// as above; `=` and `==` of it alone; `<` and `>` of the values on their
/// side; `<=` and `>=` of those and of the value itself.
pub proof fn law_comparers_hold(o: Ordering)
    ensures
        holds_spec(seq!['!'], o) <==> (o == Ordering::Less || o == Ordering::Greater),
        holds_spec(seq!['!', '='], o) <==> (o == Ordering::Less || o == Ordering::Greater),
        holds_spec(seq!['='], o) <==> o == Ordering::Equal,
        holds_spec(seq!['=', '='], o) <==> o == Ordering::Equal,
        holds_spec(seq!['<'], o) <==> o == Ordering::Less,
        holds_spec(seq!['>'], o) <==> o == Ordering::Greater,
        holds_spec(seq!['<', '='], o) <==> (o == Ordering::Less || o == Ordering::Equal),
        holds_spec(seq!['>', '='], o) <==> (o == Ordering::Greater || o == Ordering::Equal),
{
    lemma_comparer_literals();
}

/// Over numbers: `!=` holds exactly when the value differs from the
/// condition's value, whichever side of it the value lies on; `<=` when it
/// is not above it, `>=` when it is not below it.
pub proof fn law_comparers_on_numbers(value: int, compared: int)
    ensures
        holds_spec(seq!['!', '='], order_of(value, compared)) <==> value != compared,
        holds_spec(seq!['!'], order_of(value, compared)) <==> value != compared,
        holds_spec(seq!['=', '='], order_of(value, compared)) <==> value == compared,
        holds_spec(seq!['<', '='], order_of(value, compared)) <==> value <= compared,
        holds_spec(seq!['>', '='], order_of(value, compared)) <==> value >= compared,
        holds_spec(seq!['<'], order_of(value, compared)) <==> value < compared,
        holds_spec(seq!['>'], order_of(value, compared)) <==> value > compared,
{
    law_comparers_hold(order_of(value, compared));
}

/// Whether the comparer holds of how `value` compares to `compared`.
fn condition_holds(comparer: &Vec<char>, value: &Decimal, compared: &Decimal) -> (res: bool)
    requires
        value.wf(),
        compared.wf(),
    ensures
        res == holds_spec(comparer@, order_of(cross(*value, *compared), cross(*compared, *value))),
{
    let o = value.cmp_value(compared);
    holds(comparer, o)
}

/// Why a complex condition cannot be evaluated: its value is not a decimal.
#[derive(Debug)]
pub struct ConditionError {
    pub error: DecimalError,
    /// The value as written.
    pub text: Vec<char>,
}

/// Whether the conditions hold of `value`: each one compares the value to
/// its own, and they are folded left to right, `/` as OR and anything else
/// as AND; the error of the first value that is not a decimal.
pub open spec fn conditions_hold(conds: Seq<(Seq<char>, Seq<char>, Seq<char>)>, value: Decimal) -> Result<
    bool,
    (DecimalError, Seq<char>),
>
    decreases conds.len(),
{
    if conds.len() == 0 {
        Ok(false)
    } else {
        match conditions_hold(conds.drop_last(), value) {
            Err(e) => Err(e),
            Ok(r) => {
                let c = conds.last();
                match parse_decimal_spec(c.2) {
                    Err(e) => Err((e, c.2)),
                    Ok(d) => {
                        let h = holds_spec(c.1, order_of(cross(value, d), cross(d, value)));
                        if conds.len() == 1 {
                            Ok(h)
                        } else if c.0 == seq!['/'] {
                            Ok(r || h)
                        } else {
                            Ok(r && h)
                        }
                    },
                }
            },
        }
    }
}

/// [`conditions_hold`] of the conditions and the value.
pub fn evaluate_conditions(conds: &Vec<Condition>, value: &Decimal) -> (res: Result<bool, ConditionError>)
    requires
        value.wf(),
    ensures
        res matches Ok(b) ==> conditions_hold(conds@.map_values(|c: Condition| c.view()), *value)
            == Ok::<bool, (DecimalError, Seq<char>)>(b),
        res matches Err(e) ==> conditions_hold(conds@.map_values(|c: Condition| c.view()), *value)
            == Err::<bool, (DecimalError, Seq<char>)>((e.error, e.text@)),
{
    let ghost all = conds@.map_values(|c: Condition| c.view());
    let mut result = false;
    let mut i: usize = 0;
    while i < conds.len()
        invariant
            i <= conds.len(),
            value.wf(),
            all == conds@.map_values(|c: Condition| c.view()),
            conditions_hold(all.take(i as int), *value) == Ok::<bool, (DecimalError, Seq<char>)>(
                result,
            ),
        decreases conds.len() - i,
    {
        assert(all.take(i + 1).drop_last() == all.take(i as int));
        assert(all.take(i + 1).last() == conds@[i as int].view());
        let c = &conds[i];
        let compared = match parse_decimal_chars(&c.value) {
            Ok(d) => d,
            Err(e) => {
                let text = sub_chars(&c.value, 0, c.value.len());
                proof {
                    assert(c.value@.subrange(0, c.value.len() as int) == c.value@);
                    assert(conditions_hold(all.take(i + 1), *value) == Err::<
                        bool,
                        (DecimalError, Seq<char>),
                    >((e, c.value@)));
                    lemma_conditions_prefix_err(all, *value, (i + 1) as nat);
                }
                return Err(ConditionError { error: e, text });
            },
        };
        let h = condition_holds(&c.comparer, value, &compared);
        let slash = c.and_or.len() == 1 && c.and_or[0] == '/';
        proof {
            if c.and_or.len() == 1 {
                assert(c.and_or@ =~= seq![c.and_or@[0]]);
            }
        }
        assert(slash == (c.and_or@ == seq!['/']));
        if i == 0 {
            result = h;
        } else if slash {
            result = result || h;
        } else {
            result = result && h;
        }
        i += 1;
    }
    assert(all.take(conds.len() as int) == all);
    Ok(result)
}

proof fn lemma_conditions_prefix_err(
    conds: Seq<(Seq<char>, Seq<char>, Seq<char>)>,
    value: Decimal,
    n: nat,
)
    requires
        n <= conds.len(),
        conditions_hold(conds.take(n as int), value) is Err,
    ensures
        conditions_hold(conds, value) == conditions_hold(conds.take(n as int), value),
    decreases conds.len() - n,
{
    if n < conds.len() {
        assert(conds.take(n + 1 as int).drop_last() == conds.take(n as int));
        lemma_conditions_prefix_err(conds, value, n + 1);
    } else {
        assert(conds.take(n as int) == conds);
    }
}

/// What a number picks among the literal parts `pieces`, from part `i`
/// on: `Some((k, cut))` when part `k` is rendered without its first `cut`
/// characters — the first part whose complex condition holds, cut after its
/// `?`, or whole the first part without one after a part with one; `None`
/// when the first part has no complex condition, so that the plain index
/// decides; `Err` when a value of a condition is not a decimal or no part
/// is left.
pub open spec fn condition_pick(pieces: Seq<Seq<char>>, value: Decimal, i: nat) -> Result<
    Option<(nat, nat)>,
    (),
>
    decreases pieces.len() - i,
{
    if i >= pieces.len() {
        Err(())
    } else {
        match match_from(pieces[i as int], 0) {
            Some((conds, length)) => match conditions_hold(conds, value) {
                Ok(true) => Ok(Some((i, length))),
                Ok(false) => condition_pick(pieces, value, i + 1),
                Err(_) => Err(()),
            },
            None => if i == 0 {
                Ok(None)
            } else {
                Ok(Some((i, 0)))
            },
        }
    }
}

/// The source text of each part.
pub open spec fn part_texts(src: Seq<char>, parts: Seq<Format>) -> Seq<Seq<char>> {
    Seq::new(parts.len(), |j: int| raw_range_spec(src, parts[j].start as int, parts[j].end as int))
}

/// Where a part that starts at `start` renders from once its first `cut`
/// characters — its complex condition — are cut.
pub open spec fn cut_start(start: int, cut: nat) -> int {
    if start + cut <= usize::MAX {
        start + cut
    } else {
        usize::MAX as int
    }
}

/// The items a part renders with once its first `cut` characters — its
/// complex condition — are cut: all of them when nothing is cut.
pub open spec fn chosen_items(part: Format, cut: nat) -> Seq<FormatItem> {
    if cut == 0 {
        part.items@
    } else {
        substring_items(part.items@, part.start + cut, part.end as int)
    }
}

/// The source text of each part as splitting builds it.
pub open spec fn raw_texts(src: Seq<char>, views: Seq<PartView>) -> Seq<Seq<char>> {
    Seq::new(views.len(), |j: int| raw_range_spec(src, views[j].1, views[j].2))
}

/// [`chosen_items`] of a part as splitting builds it.
pub open spec fn chosen_view(part: PartView, cut: nat) -> Seq<FormatItem> {
    if cut == 0 {
        part.0
    } else {
        substring_items(part.0, part.1 + cut, part.2)
    }
}

/// The part a value picks among parts with the source texts `texts`, and
/// how much of its start is cut: for a number, the part its complex
/// conditions pick ([`condition_pick`]) when the first part has one;
/// otherwise the part [`plain_index_spec`] picks, whole. `Err` where either
/// fails.
pub open spec fn conditional_pick(value: Value, texts: Seq<Seq<char>>) -> Result<
    (nat, nat),
    Seq<char>,
> {
    let plain = match plain_index_spec(value, texts.len()) {
        Ok(k) => Ok((k, 0nat)),
        Err(()) => Err("Value was either too large or too small for an Int32."@),
    };
    match number_spec(value) {
        Some(d) => match condition_pick(texts, d, 0) {
            Ok(Some(picked)) => Ok(picked),
            Ok(None) => plain,
            Err(()) => Err(condition_failure(texts, d, 0)),
        },
        None => plain,
    }
}

/// Why [`condition_pick`] fails from part `i` on: a value of a condition
/// that is not a decimal — not in a correct format, or too large — or no
/// part left, which is an index out of range.
pub open spec fn condition_failure(pieces: Seq<Seq<char>>, value: Decimal, i: nat) -> Seq<char>
    decreases pieces.len() - i,
{
    if i >= pieces.len() {
        "Specified argument was out of the range of valid values. (Parameter 'index')"@
    } else {
        match match_from(pieces[i as int], 0) {
            Some((conds, _)) => match conditions_hold(conds, value) {
                Ok(false) => condition_failure(pieces, value, i + 1),
                Err((DecimalError::Format, t)) => not_in_a_correct_format_spec(t),
                Err((DecimalError::Overflow, _)) => "Value was either too large or too small for a Decimal."@,
                Ok(true) => Seq::empty(),
            },
            None => Seq::empty(),
        }
    }
}

/// Cutting alike runs of items at the same positions leaves alike runs.
proof fn lemma_substring_alike(a: Seq<FormatItem>, b: Seq<FormatItem>, start: int, end: int)
    requires
        items_alike(a, b),
    ensures
        items_alike(substring_items(a, start, end), substring_items(b, start, end)),
    decreases a.len(),
{
    if a.len() > 0 {
        assert(items_alike(a.drop_last(), b.drop_last())) by {
            assert forall|i: int| 0 <= i < a.len() - 1 implies item_alike(
                #[trigger] a.drop_last()[i],
                b.drop_last()[i],
            ) by {
                assert(item_alike(a[i], b[i]));
            }
        }
        lemma_substring_alike(a.drop_last(), b.drop_last(), start, end);
        assert(item_alike(a[a.len() - 1], b[b.len() - 1]));
        let ra = substring_items(a.drop_last(), start, end);
        let rb = substring_items(b.drop_last(), start, end);
        match a.last() {
            FormatItem::Placeholder(p) => {
                match b.last() {
                    FormatItem::Placeholder(q) => {
                        if start <= p.start && p.end <= end {
                            lemma_items_alike_push(ra, rb, a.last(), b.last());
                        }
                    },
                    _ => {},
                }
            },
            FormatItem::Literal(l) => {
                let a0: int = if l.start > start {
                    l.start as int
                } else {
                    start
                };
                let b0: int = if l.end < end {
                    l.end as int
                } else {
                    end
                };
                if a0 < b0 {
                    let lit = FormatItem::Literal(crate::parsing::Literal { start: a0 as usize, end: b0 as usize });
                    lemma_items_alike_push(ra, rb, lit, lit);
                }
            },
        }
    }
}

/// The part conditions pick is one of the parts.
pub proof fn lemma_condition_pick_in_range(pieces: Seq<Seq<char>>, value: Decimal, i: nat)
    ensures
        condition_pick(pieces, value, i) matches Ok(Some((k, _))) ==> i <= k < pieces.len(),
    decreases pieces.len() - i,
{
    if i < pieces.len() {
        lemma_condition_pick_in_range(pieces, value, i + 1);
    }
}

/// A complex condition ends within the text it starts.
proof fn lemma_match_within(text: Seq<char>, at: nat)
    ensures
        match_from(text, at) matches Some((_, l)) ==> at < l <= text.len(),
    decreases text.len() - at,
{
    if at <= text.len() {
        let a: nat = if at < text.len() && (text[at as int] == '&' || text[at as int] == '/') {
            at + 1
        } else {
            at
        };
        if a < text.len() && is_comparer_char(text[a as int]) {
            let c: nat = if a + 1 < text.len() && text[a + 1 as int] == '=' {
                a + 2
            } else {
                a + 1
            };
            let v: nat = c + value_run(text, c);
            if v != c && v <= text.len() && !(v < text.len() && text[v as int] == '?') {
                lemma_match_within(text, v);
            }
        }
    }
}

/// A part that is one literal spanning it reads in the template as its own
/// text.
proof fn lemma_spanned_raw(src: Seq<char>, part: Format)
    requires
        spanned_literal_text(src, part) is Some,
    ensures
        raw_range_spec(src, part.start as int, part.end as int) == spanned_literal_text(src, part)->0,
{
    if part.items.len() == 0 {
        assert(src.subrange(part.start as int, part.end as int) =~= Seq::<char>::empty());
    }
}

/// Cutting the first `cut` characters of a part that is one literal
/// spanning it leaves a literal part holding the rest of its text.
proof fn lemma_spanned_part(src: Seq<char>, part: Format, cut: nat, rest: Format)
    requires
        spanned_literal_text(src, part) is Some,
        part.start + cut <= part.end,
        rest.start == part.start + cut,
        rest.end == part.end,
        part.items.len() == 0 ==> rest.items.len() == 0,
        part.items.len() == 1 && (part.items@[0] matches FormatItem::Literal(l) && l.start
            <= rest.start && rest.end <= l.end) ==> if rest.start < rest.end {
            rest.items@ == seq![FormatItem::Literal(crate::parsing::Literal { start: rest.start, end: rest.end })]
        } else {
            rest.items.len() == 0
        },
    ensures
        literal_format_text(src, rest) == Some(
            spanned_literal_text(src, part)->0.subrange(
                cut as int,
                spanned_literal_text(src, part)->0.len() as int,
            ),
        ),
{
    let t = spanned_literal_text(src, part)->0;
    if part.items.len() == 0 {
        assert(t =~= Seq::<char>::empty());
        assert(src.subrange(part.start as int, part.end as int) =~= Seq::<char>::empty());
        assert(t.subrange(cut as int, t.len() as int) =~= Seq::<char>::empty());
    } else {
        assert(t == src.subrange(part.start as int, part.end as int));
        if rest.start < rest.end {
            assert(t.subrange(cut as int, t.len() as int) =~= src.subrange(
                rest.start as int,
                rest.end as int,
            ));
        } else {
            assert(t.subrange(cut as int, t.len() as int) =~= Seq::<char>::empty());
        }
    }
}

// ---------------------------------------------------------------------------
// The plain index
// ---------------------------------------------------------------------------

/// The part a value picks among `count` parts when no complex condition
/// decides: an integer picks the part it indexes, clamped to the last, and a
/// negative one the last part — one above `i32::MAX` is an error (`Err`);
/// `true` picks the first part and `false` the second; a non-empty string
/// the first and an empty one the second; a span of time the part
/// [`time_span_index_spec`] picks; a null the second; anything else the
/// first.
pub open spec fn plain_index_spec(value: Value, count: nat) -> Result<nat, ()> {
    match value {
        Value::TimeSpan(n) => Ok(time_span_index_spec(n as int, count)),
        Value::Int(n) => if n < 0 {
            Ok((count - 1) as nat)
        } else if n > i32::MAX {
            Err(())
        } else if n < count - 1 {
            Ok(n as nat)
        } else {
            Ok((count - 1) as nat)
        },
        Value::UInt(n) => if n > i32::MAX {
            Err(())
        } else if n < count - 1 {
            Ok(n as nat)
        } else {
            Ok((count - 1) as nat)
        },
        Value::Bool(b) => Ok(
            if b {
                0
            } else {
                1
            },
        ),
        Value::String(s) => Ok(
            if s@.len() == 0 {
                1
            } else {
                0
            },
        ),
        Value::Null => Ok(1),
        _ => Ok(0),
    }
}

/// The part a span of `nanos` nanoseconds picks among `count` parts: with
/// exactly three parts, a negative span the first, a zero span the second
/// and a positive one the third; otherwise a span at or below zero the first
/// and a positive one the last.
pub open spec fn time_span_index_spec(nanos: int, count: nat) -> nat {
    if count == 3 && nanos == 0 {
        1
    } else if nanos <= 0 {
        0
    } else {
        (count - 1) as nat
    }
}

/// [`time_span_index_spec`] of the span and the number of parts.
pub fn time_span_index(value: i128, param_count: usize) -> (res: usize)
    requires
        param_count >= 1,
    ensures
        res == time_span_index_spec(value as int, param_count as nat),
{
    if param_count == 3 && value == 0 {
        1
    } else if value <= 0 {
        0
    } else {
        param_count - 1
    }
}

/// [`plain_index_spec`] of the value and the number of parts.
pub fn plain_index(value: &Value, count: usize) -> (res: Result<usize, ()>)
    requires
        count >= 2,
    ensures
        res matches Ok(k) ==> plain_index_spec(*value, count as nat) == Ok::<nat, ()>(k as nat)
            && k < count,
        res is Err ==> plain_index_spec(*value, count as nat) is Err,
{
    match value {
        Value::TimeSpan(n) => Ok(time_span_index(*n, count)),
        Value::Int(n) => {
            if *n < 0 {
                Ok(count - 1)
            } else if *n > 2147483647 {
                Err(())
            } else if (*n as usize) < count - 1 {
                Ok(*n as usize)
            } else {
                Ok(count - 1)
            }
        },
        Value::UInt(n) => {
            if *n > 2147483647 {
                Err(())
            } else if (*n as usize) < count - 1 {
                Ok(*n as usize)
            } else {
                Ok(count - 1)
            }
        },
        Value::Bool(b) => Ok(
            if *b {
                0
            } else {
                1
            },
        ),
        Value::String(s) => Ok(
            if s.as_str().unicode_len() == 0 {
                1
            } else {
                0
            },
        ),
        Value::Null => Ok(1),
        _ => Ok(0),
    }
}

/// The value as a decimal of scale zero when it is an integer, `None`
/// otherwise.
pub open spec fn number_spec(value: Value) -> Option<Decimal> {
    match value {
        Value::Int(n) => Some(Decimal::of_int(n as int)),
        Value::UInt(n) => Some(Decimal::of_int(n as int)),
        _ => None,
    }
}

/// [`number_spec`] of the value.
pub fn number_of(value: &Value) -> (res: Option<Decimal>)
    ensures
        res == number_spec(*value),
        res matches Some(d) ==> d.wf(),
{
    match value {
        Value::Int(n) => Some(Decimal::from_i128(*n as i128)),
        Value::UInt(n) => Some(Decimal::from_i128(*n as i128)),
        _ => None,
    }
}

/// The plain index always names one of the parts: a number beyond the last
/// part — or below zero — takes the last one.
pub proof fn law_plain_index_in_range(value: Value, count: nat)
    requires
        count >= 2,
    ensures
        plain_index_spec(value, count) matches Ok(k) ==> k < count,
        value matches Value::Int(n) && n < 0 ==> plain_index_spec(value, count) == Ok::<nat, ()>(
            (count - 1) as nat,
        ),
        value matches Value::Bool(b) ==> plain_index_spec(value, count) == Ok::<nat, ()>(
            if b {
                0
            } else {
                1
            },
        ),
{
}

/// Renders the part the complex conditions of `parts` pick for the number
/// `value`, as [`condition_pick`] says for parts that are each one literal
/// spanning it — `pieces` being their texts: `Ok(true)` once a part is
/// rendered, `Ok(false)`, with nothing written, when the first part has no
/// complex condition.
fn render_by_conditions(
    ctx: &Ctx,
    info: &Info,
    parts: &Vec<Format>,
    value: &Decimal,
    state: &mut State,
    fuel: usize,
    Ghost(pieces): Ghost<Seq<Seq<char>>>,
) -> (res: Result<bool, Error>)
    requires
        value.wf(),
    ensures
        res == Ok::<bool, Error>(false) ==> *final(state) == *old(state) && condition_pick(
            part_texts(info.src@, parts@),
            *value,
            0,
        ) == Ok::<Option<(nat, nat)>, ()>(None),
        pieces.len() == parts.len() && (forall|j: int|
            0 <= j < parts.len() ==> spanned_literal_text(info.src@, #[trigger] parts@[j]) == Some(
                pieces[j],
            ) && pieces[j].len() <= usize::MAX / 4) ==> match condition_pick(pieces, *value, 0) {
            Ok(Some((k, cut))) => res == Ok::<bool, Error>(true) && final(state).out@ == old(
                state,
            ).out@ + part_output(
                pieces[k as int].subrange(cut as int, pieces[k as int].len() as int),
                info.placeholder.alignment as int,
            ),
            Ok(None) => res == Ok::<bool, Error>(false),
            Err(()) => res is Err,
        },
        match condition_pick(part_texts(info.src@, parts@), *value, 0) {
            Ok(Some((k, cut))) => (res is Ok ==> final(state).rendered() == old(state).rendered().push(
                (
                    info.src@,
                    cut_start(parts@[k as int].start as int, cut),
                    parts@[k as int].end as int,
                    *info.value,
                    old(state).out@,
                    final(state).out@,
                ),
            )) && (all_simple_items(
                info.src@,
                chosen_items(parts@[k as int], cut),
                *info.value,
                *ctx.args,
                ctx.settings.case_sensitive,
                old(state).collection_index,
            ) && fuel >= 2 && can_render_bare(ctx) ==> res == Ok::<bool, Error>(true) && final(state).out@
                == old(state).out@ + simple_items_text(
                info.src@,
                chosen_items(parts@[k as int], cut),
                info.placeholder.alignment as int,
                *info.value,
                *ctx.args,
                ctx.settings.case_sensitive,
                old(state).collection_index,
            )),
            Ok(None) => res == Ok::<bool, Error>(false),
            Err(()) => fails_with(
                res,
                condition_failure(part_texts(info.src@, parts@), *value, 0),
                error_position_spec(info.placeholder) as int,
            ),
        },
    decreases fuel, 7nat,
{
    let ghost sp = pieces.len() == parts.len() && (forall|j: int|
        0 <= j < parts.len() ==> spanned_literal_text(info.src@, #[trigger] parts@[j]) == Some(
            pieces[j],
        ) && pieces[j].len() <= usize::MAX / 4);
    let count = parts.len();
    let mut index: usize = 0;
    while index < count
        invariant
            count == parts.len(),
            index <= count,
            value.wf(),
            sp == (pieces.len() == parts.len() && (forall|j: int|
                0 <= j < parts.len() ==> spanned_literal_text(info.src@, #[trigger] parts@[j])
                    == Some(pieces[j]) && pieces[j].len() <= usize::MAX / 4)),
            sp ==> condition_pick(pieces, *value, 0) == condition_pick(pieces, *value, index as nat),
            condition_pick(part_texts(info.src@, parts@), *value, 0) == condition_pick(
                part_texts(info.src@, parts@),
                *value,
                index as nat,
            ),
            condition_failure(part_texts(info.src@, parts@), *value, 0) == condition_failure(
                part_texts(info.src@, parts@),
                *value,
                index as nat,
            ),
            *state == *old(state),
        decreases count - index,
    {
        let part = &parts[index];
        let raw = raw_range(info.src, part.start, part.end);
        assert(raw@ == part_texts(info.src@, parts@)[index as int]);
        proof {
            if sp {
                assert(spanned_literal_text(info.src@, parts@[index as int]) == Some(
                    pieces[index as int],
                ));
                lemma_spanned_raw(info.src@, *part);
            }
        }
        match match_conditions(&raw) {
            Some((conds, length)) => {
                proof {
                    lemma_match_within(raw@, 0);
                }
                match evaluate_conditions(&conds, value) {
                    Ok(true) => {
                        let from = if part.start <= usize::MAX - length {
                            part.start + length
                        } else {
                            usize::MAX
                        };
                        let output = substring(part, from, part.end);
                        proof {
                            assert(chosen_items(*part, length as nat) == substring_items(
                                part.items@,
                                from as int,
                                part.end as int,
                            ));
                            lemma_alike_renders_alike(
                                info.src@,
                                output.items@,
                                chosen_items(*part, length as nat),
                                info.placeholder.alignment as int,
                                *info.value,
                                *ctx.args,
                                ctx.settings.case_sensitive,
                                state.collection_index,
                            );
                            if sp {
                                lemma_spanned_part(info.src@, *part, length as nat, output);
                                lemma_literal_part_renders(
                                    info.src@,
                                    output,
                                    info.placeholder.alignment as int,
                                );
                            }
                        }
                        format_as_child(ctx, info, &output, info.value, state, fuel)?;
                        return Ok(true);
                    },
                    Ok(false) => {},
                    Err(e) => {
                        let message = match e.error {
                            DecimalError::Format => chars_of(not_in_a_correct_format(&e.text).as_str()),
                            DecimalError::Overflow => chars_of(decimal_overflow()),
                        };
                        return Err(plain_error(&message, error_position(info.placeholder)));
                    },
                }
            },
            None => {
                if index == 0 {
                    return Ok(false);
                }
                proof {
                    if sp {
                        let piece = pieces[index as int];
                        assert(piece.subrange(0, piece.len() as int) =~= piece);
                        lemma_literal_part_renders(
                            info.src@,
                            *part,
                            info.placeholder.alignment as int,
                        );
                    }
                }
                format_as_child(ctx, info, part, info.value, state, fuel)?;
                return Ok(true);
            },
        }
        index += 1;
    }
    Err(plain_error(&chars_of(out_of_range_index()), error_position(info.placeholder)))
}

// ---------------------------------------------------------------------------
// The formatter
// ---------------------------------------------------------------------------

impl ConditionalFormatter {
    pub closed spec fn name_spec(&self) -> Seq<char> {
        self.name@
    }

    pub closed spec fn split_char_spec(&self) -> char {
        self.split_char
    }

    pub closed spec fn auto_detect_spec(&self) -> bool {
        self.can_auto_detect
    }

    /// A formatter named `cond`, splitting on `|` and auto-detected.
    pub fn new() -> (res: ConditionalFormatter)
        ensures
            res.name_spec() == "cond"@,
            res.split_char_spec() == '|',
            res.auto_detect_spec(),
    {
        ConditionalFormatter { name: owned("cond"), split_char: '|', can_auto_detect: true }
    }

    /// The formatter under another name.
    pub fn with_name(self, name: &str) -> (res: ConditionalFormatter)
        ensures
            res.name_spec() == name@,
            res.split_char_spec() == self.split_char_spec(),
            res.auto_detect_spec() == self.auto_detect_spec(),
    {
        ConditionalFormatter { name: owned(name), ..self }
    }

    pub fn name(&self) -> (res: &str)
        ensures
            res@ == self.name_spec(),
    {
        self.name.as_str()
    }

    /// The character the formats are split on.
    pub fn split_char(&self) -> (res: char)
        ensures
            res == self.split_char_spec(),
    {
        self.split_char
    }

    /// Changes the split character; only `|`, `,` and `~` are accepted.
    pub fn set_split_char(&mut self, split_char: char) -> (res: Result<(), InvalidSplitChar>)
        ensures
            is_valid_split_char(split_char) ==> res is Ok && final(self).split_char_spec()
                == split_char,
            !is_valid_split_char(split_char) ==> res == Err::<(), InvalidSplitChar>(
                InvalidSplitChar(split_char),
            ) && final(self).split_char_spec() == old(self).split_char_spec(),
            final(self).name_spec() == old(self).name_spec(),
            final(self).auto_detect_spec() == old(self).auto_detect_spec(),
    {
        match valid_split_char(split_char) {
            Ok(c) => {
                self.split_char = c;
                Ok(())
            },
            Err(e) => Err(e),
        }
    }

    /// Whether a placeholder that names no formatter may be handled here.
    pub fn can_auto_detect(&self) -> (res: bool)
        ensures
            res == self.auto_detect_spec(),
    {
        self.can_auto_detect
    }

    pub fn set_can_auto_detect(&mut self, can_auto_detect: bool)
        ensures
            final(self).auto_detect_spec() == can_auto_detect,
            final(self).name_spec() == old(self).name_spec(),
            final(self).split_char_spec() == old(self).split_char_spec(),
    {
        self.can_auto_detect = can_auto_detect;
    }

    /// Renders the part the value picks: for a number, the text after the
    /// first complex condition that holds, or the first part without one
    /// after a part with one; otherwise the part [`plain_index_spec`] picks.
    /// Declines — or fails naming the formatter — for a format of fewer than
    /// two parts.
    #[verifier::loop_isolation(false)]
    pub fn try_evaluate_format(&self, ctx: &Ctx, info: &Info, state: &mut State, fuel: usize) -> (res:
        Result<bool, Error>)
        ensures
            is_bare(*info.placeholder) && is_scalar(*info.value) ==> res == Ok::<bool, Error>(false)
                && *final(state) == *old(state),
            info.placeholder.formatter_name@.len() == 0 && info.placeholder.format is None ==> res
                == Ok::<bool, Error>(false),
            match literal_format_of(info.src@, *info.placeholder) {
                Some(t) => t.len() < usize::MAX / 4 && split_spec(t, self.split_char_spec()).len() >= 2
                    && !(info.value is Int) && !(info.value is UInt) ==> match plain_index_spec(
                    *info.value,
                    split_spec(t, self.split_char_spec()).len(),
                ) {
                    Ok(k) => res == Ok::<bool, Error>(true) && final(state).out@ == old(state).out@
                        + part_output(
                        split_spec(t, self.split_char_spec())[k as int],
                        info.placeholder.alignment as int,
                    ),
                    Err(()) => res is Err,
                },
                None => true,
            },
            spanned_format_of(info.src@, *info.placeholder) matches Some(t) ==> number_spec(
                *info.value,
            ) matches Some(d) ==> t.len() < usize::MAX / 4 && split_spec(
                t,
                self.split_char_spec(),
            ).len() >= 2 ==> match condition_pick(split_spec(t, self.split_char_spec()), d, 0) {
                Ok(Some((k, cut))) => res == Ok::<bool, Error>(true) && final(state).out@ == old(
                    state,
                ).out@ + part_output(
                    split_spec(t, self.split_char_spec())[k as int].subrange(
                        cut as int,
                        split_spec(t, self.split_char_spec())[k as int].len() as int,
                    ),
                    info.placeholder.alignment as int,
                ),
                Ok(None) => match plain_index_spec(
                    *info.value,
                    split_spec(t, self.split_char_spec()).len(),
                ) {
                    Ok(k) => res == Ok::<bool, Error>(true) && final(state).out@ == old(state).out@
                        + part_output(
                        split_spec(t, self.split_char_spec())[k as int],
                        info.placeholder.alignment as int,
                    ),
                    Err(()) => res is Err,
                },
                Err(()) => res is Err,
            },
            format_parts(info.src@, *info.placeholder, self.split_char_spec(), (usize::MAX - 1) as nat)
                matches Some(ps) ==> ps.len() >= 2 ==> match conditional_pick(
                *info.value,
                raw_texts(info.src@, ps),
            ) {
                Ok((k, cut)) => (res is Ok ==> final(state).rendered() == old(state).rendered().push(
                    (
                        info.src@,
                        cut_start(ps[k as int].1, cut),
                        ps[k as int].2,
                        *info.value,
                        old(state).out@,
                        final(state).out@,
                    ),
                )) && (all_simple_items(
                    info.src@,
                    chosen_view(ps[k as int], cut),
                    *info.value,
                    *ctx.args,
                    ctx.settings.case_sensitive,
                    old(state).collection_index,
                ) && fuel >= 2 && can_render_bare(ctx) ==> res == Ok::<bool, Error>(true) && final(state).out@
                    == old(state).out@ + simple_items_text(
                    info.src@,
                    chosen_view(ps[k as int], cut),
                    info.placeholder.alignment as int,
                    *info.value,
                    *ctx.args,
                    ctx.settings.case_sensitive,
                    old(state).collection_index,
                )),
                Err(m) => fails_with(res, m, error_position_spec(info.placeholder) as int),
            },
        decreases fuel, 8nat,
    {
        let ghost t = spanned_format_of(info.src@, *info.placeholder)->0;
        let ghost pieces = split_spec(t, self.split_char);
        let ghost sp = spanned_format_of(info.src@, *info.placeholder) is Some && t.len() < usize::MAX
            / 4;
        let parts = match &info.placeholder.format {
            Some(f) => split(info.src, f, self.split_char, usize::MAX - 1),
            None => Vec::new(),
        };
        proof {
            if literal_format_of(info.src@, *info.placeholder) is Some {
                lemma_split_piece_bound(
                    literal_format_of(info.src@, *info.placeholder)->0,
                    self.split_char,
                );
            }
        }
        if parts.len() < 2 {
            return decline_or_error(info, " requires at least 2 format parameters.");
        }
        let count = parts.len();
        proof {
            if sp {
                assert(literal_format_of(info.src@, *info.placeholder) == Some(t));
                assert forall|j: int| 0 <= j < count implies spanned_literal_text(
                    info.src@,
                    #[trigger] parts@[j],
                ) == Some(pieces[j]) && pieces[j].len() <= usize::MAX / 4 by {}
            }
        }
        let ghost ps = format_parts(
            info.src@,
            *info.placeholder,
            self.split_char,
            (usize::MAX - 1) as nat,
        )->0;
        let ghost general = info.placeholder.format is Some;
        proof {
            if general {
                assert(part_texts(info.src@, parts@) =~= raw_texts(info.src@, ps));
                assert forall|k: int, cut: nat| 0 <= k < count implies #[trigger] all_simple_items(
                    info.src@,
                    chosen_view(ps[k], cut),
                    *info.value,
                    *ctx.args,
                    ctx.settings.case_sensitive,
                    state.collection_index,
                ) == all_simple_items(
                    info.src@,
                    chosen_items(parts@[k], cut),
                    *info.value,
                    *ctx.args,
                    ctx.settings.case_sensitive,
                    state.collection_index,
                ) && simple_items_text(
                    info.src@,
                    chosen_items(parts@[k], cut),
                    info.placeholder.alignment as int,
                    *info.value,
                    *ctx.args,
                    ctx.settings.case_sensitive,
                    state.collection_index,
                ) == simple_items_text(
                    info.src@,
                    chosen_view(ps[k], cut),
                    info.placeholder.alignment as int,
                    *info.value,
                    *ctx.args,
                    ctx.settings.case_sensitive,
                    state.collection_index,
                ) by {
                    assert(items_alike(parts@[k].items@, ps[k].0));
                    if cut > 0 {
                        lemma_substring_alike(
                            parts@[k].items@,
                            ps[k].0,
                            parts@[k].start + cut,
                            parts@[k].end as int,
                        );
                    }
                    lemma_alike_renders_alike(
                        info.src@,
                        chosen_items(parts@[k], cut),
                        chosen_view(ps[k], cut),
                        info.placeholder.alignment as int,
                        *info.value,
                        *ctx.args,
                        ctx.settings.case_sensitive,
                        state.collection_index,
                    );
                }
            }
        }
        let number = number_of(info.value);
        if let Some(value) = &number {
            proof {
                lemma_condition_pick_in_range(part_texts(info.src@, parts@), *value, 0);
            }
            let decided = render_by_conditions(ctx, info, &parts, value, state, fuel, Ghost(pieces))?;
            if decided {
                return Ok(true);
            }
        }
        match plain_index(info.value, count) {
            Ok(k) => {
                proof {
                    if literal_format_of(info.src@, *info.placeholder) is Some {
                        let t = literal_format_of(info.src@, *info.placeholder)->0;
                        if t.len() < usize::MAX / 4 {
                            assert(literal_format_text(info.src@, parts@[k as int]) == Some(
                                split_spec(t, self.split_char)[k as int],
                            ));
                            lemma_literal_part_renders(
                                info.src@,
                                parts@[k as int],
                                info.placeholder.alignment as int,
                            );
                        }
                    }
                }
                proof {
                    if general {
                        assert(chosen_items(parts@[k as int], 0) == parts@[k as int].items@);
                        assert(chosen_view(ps[k as int], 0) == ps[k as int].0);
                    }
                }
                format_as_child(ctx, info, &parts[k], info.value, state, fuel)?;
                Ok(true)
            },
            Err(()) => Err(plain_error(&chars_of(int32_overflow()), error_position(info.placeholder))),
        }
    }
}

} // verus!
