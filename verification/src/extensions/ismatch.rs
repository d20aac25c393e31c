//! `{value:ismatch(regex):matched|not matched}` renders the first of the two
//! `|`-separated parts when the regular expression matches the value's text
//! and the second when it does not. The matched part may read the regular
//! expression's capturing groups through the placeholder `{m[1]}`.
//!
//! The regular expression engine is fancy-regex; the formatter decides what
//! to hand it — the pattern with the options as inline flags, the value's
//! text, the backtracking budget — and what to make of its answer.

use vstd::prelude::*;
use crate::text::{owned, chars_of, push_str, push_all, push_u64, to_string, decimal_digits, split_spec,
    lemma_split_piece_bound};
use crate::value::{Value, is_scalar, same_content};
use crate::error::Error;
use crate::settings::CaseSensitivity;
use crate::parsing::{Format, FormatItem, substring, split, literal_format_text, substring_items,
    items_alike, item_alike, selector_alike, Placeholder,
    spanned_literal_text};
use crate::formatter::{Rendering, is_bare, literal_format_of, spanned_format_of, part_output, lemma_literal_part_renders, Ctx, Info, State, formatter_options, format_as_child, decline_or_error,
    plain_error, error_position, format_parts, declines_or_fails, fails_with, error_position_spec, all_simple_items, simple_items_text, can_render_bare,
    lemma_alike_renders_alike, lemma_same_content_renders};
use super::{InvalidSplitChar, valid_split_char, is_valid_split_char, value_text, value_text_spec};

verus! {

// ---------------------------------------------------------------------------
// RegexOptions
// ---------------------------------------------------------------------------

/// The .NET `RegexOptions` flags, with .NET's bit values. `IgnoreCase`,
/// `Multiline`, `Singleline` and `IgnorePatternWhitespace` become the inline
/// flags `i`, `m`, `s` and `x`; `Compiled` and `CultureInvariant` change
/// nothing; `ExplicitCapture`, `RightToLeft`, `ECMAScript` and
/// `NonBacktracking`, and any bit .NET does not name, fail the format call.
#[derive(Debug, Clone, Copy, PartialEq, Eq, Hash, Structural)]
pub struct RegexOptions(u32);

/// Whether every bit of `flag` is set in `bits`.
pub open spec fn has_flag(bits: u32, flag: u32) -> bool {
    bits & flag == flag
}

/// The .NET name of each flag, in bit order.
pub open spec fn flag_names() -> Seq<(u32, Seq<char>)> {
    seq![
        (1u32, "IgnoreCase"@),
        (2u32, "Multiline"@),
        (4u32, "ExplicitCapture"@),
        (8u32, "Compiled"@),
        (16u32, "Singleline"@),
        (32u32, "IgnorePatternWhitespace"@),
        (64u32, "RightToLeft"@),
        (256u32, "ECMAScript"@),
        (512u32, "CultureInvariant"@),
        (1024u32, "NonBacktracking"@),
    ]
}

/// The .NET name of the first flag of `bits` the engine cannot honor, or
/// `(unknown flag)` for a bit .NET does not name; `None` when every flag can
/// be honored.
pub open spec fn unsupported_spec(bits: u32) -> Option<Seq<char>> {
    if has_flag(bits, 4) {
        Some("ExplicitCapture"@)
    } else if has_flag(bits, 64) {
        Some("RightToLeft"@)
    } else if has_flag(bits, 256) {
        Some("ECMAScript"@)
    } else if has_flag(bits, 1024) {
        Some("NonBacktracking"@)
    } else if bits & 0xffff_f880u32 != 0 {
        Some("(unknown flag)"@)
    } else {
        None
    }
}

/// The inline flags `i`, `m`, `s`, `x` the options set, in that order.
pub open spec fn flag_letters(bits: u32) -> Seq<char> {
    (if has_flag(bits, 1) {
        seq!['i']
    } else {
        Seq::<char>::empty()
    }) + (if has_flag(bits, 2) {
        seq!['m']
    } else {
        Seq::<char>::empty()
    }) + (if has_flag(bits, 16) {
        seq!['s']
    } else {
        Seq::<char>::empty()
    }) + (if has_flag(bits, 32) {
        seq!['x']
    } else {
        Seq::<char>::empty()
    })
}

/// The inline flag group the options put in front of a pattern — `(?is)`,
/// or nothing when no flag is set — or the name of the option that cannot be
/// honored.
pub open spec fn inline_flags_spec(bits: u32) -> Result<Seq<char>, Seq<char>> {
    match unsupported_spec(bits) {
        Some(name) => Err(name),
        None => {
            let letters = flag_letters(bits);
            if letters.len() == 0 {
                Ok(letters)
            } else {
                Ok("(?"@ + letters + ")"@)
            }
        },
    }
}

/// Options that set no flag beyond `IgnoreCase`, `Multiline`, `Compiled`,
/// `Singleline`, `IgnorePatternWhitespace` and `CultureInvariant` can be
/// honored, and each of the four the engine takes inline puts its own
/// letter in the flag group exactly when its bit is set, whatever the other
/// bits: `IgnoreCase | Multiline` gives `(?im)`.
pub proof fn law_inline_flags_letters(bits: u32)
    requires
        bits & 0xffff_fdc4u32 == 0,
    ensures
        inline_flags_spec(bits) is Ok,
        inline_flags_spec(bits) matches Ok(g) && (g.contains('i') <==> bits & 1 == 1) && (g.contains(
            'm',
        ) <==> bits & 2 == 2) && (g.contains('s') <==> bits & 16 == 16) && (g.contains('x')
            <==> bits & 32 == 32),
        bits & 3 == 3 && bits & 16 == 0 && bits & 32 == 0 ==> inline_flags_spec(bits) == Ok::<
            Seq<char>,
            Seq<char>,
        >(seq!['(', '?', 'i', 'm', ')']),
        bits & 51 == 51 ==> inline_flags_spec(bits) == Ok::<Seq<char>, Seq<char>>(
            seq!['(', '?', 'i', 'm', 's', 'x', ')'],
        ),
        bits & 51 == 0 ==> inline_flags_spec(bits) == Ok::<Seq<char>, Seq<char>>(Seq::empty()),
{
    broadcast use vstd::seq_lib::group_seq_properties;

    assert(bits & 0xffff_fdc4u32 == 0 ==> bits & 4 != 4 && bits & 64 != 64 && bits & 256 != 256
        && bits & 1024 != 1024 && bits & 0xffff_f880u32 == 0) by (bit_vector);
    assert(bits & 3 == 3 ==> bits & 1 == 1 && bits & 2 == 2) by (bit_vector);
    assert(bits & 16 == 0 ==> bits & 16 != 16) by (bit_vector);
    assert(bits & 32 == 0 ==> bits & 32 != 32) by (bit_vector);
    assert(bits & 51 == 51 ==> bits & 1 == 1 && bits & 2 == 2 && bits & 16 == 16 && bits & 32 == 32)
        by (bit_vector);
    assert(bits & 51 == 0 ==> bits & 1 != 1 && bits & 2 != 2 && bits & 16 != 16 && bits & 32 != 32)
        by (bit_vector);
    let letters = flag_letters(bits);
    let a = if has_flag(bits, 1) {
        seq!['i']
    } else {
        Seq::<char>::empty()
    };
    let b = if has_flag(bits, 2) {
        seq!['m']
    } else {
        Seq::<char>::empty()
    };
    let c = if has_flag(bits, 16) {
        seq!['s']
    } else {
        Seq::<char>::empty()
    };
    let d = if has_flag(bits, 32) {
        seq!['x']
    } else {
        Seq::<char>::empty()
    };
    assert(letters == a + b + c + d);
    assert(seq!['i'].contains('i') && seq!['m'].contains('m') && seq!['s'].contains('s')
        && seq!['x'].contains('x')) by {
        assert(seq!['i'][0] == 'i');
        assert(seq!['m'][0] == 'm');
        assert(seq!['s'][0] == 's');
        assert(seq!['x'][0] == 'x');
    }
    reveal_strlit("(?");
    reveal_strlit(")");
    if letters.len() != 0 {
        let g = "(?"@ + letters + ")"@;
        assert(!"(?"@.contains('i') && !"(?"@.contains('m') && !"(?"@.contains('s')
            && !"(?"@.contains('x'));
        assert(!")"@.contains('i') && !")"@.contains('m') && !")"@.contains('s')
            && !")"@.contains('x'));
        assert(g.contains('m') <==> letters.contains('m'));
        assert(g.contains('i') <==> letters.contains('i'));
        assert(g.contains('s') <==> letters.contains('s'));
        assert(g.contains('x') <==> letters.contains('x'));
        if bits & 3 == 3 && bits & 16 == 0 && bits & 32 == 0 {
            assert(letters =~= seq!['i', 'm']);
            assert(g =~= seq!['(', '?', 'i', 'm', ')']);
        }
        if bits & 51 == 51 {
            assert(letters =~= seq!['i', 'm', 's', 'x']);
            assert(g =~= seq!['(', '?', 'i', 'm', 's', 'x', ')']);
        }
    } else {
        assert(!letters.contains('i') && !letters.contains('m') && !letters.contains('s')
            && !letters.contains('x'));
    }
}

/// The names of the flags of `bits` among the first `k` of [`flag_names`].
pub open spec fn set_flag_names(bits: u32, k: nat) -> Seq<Seq<char>>
    decreases k,
{
    if k == 0 {
        Seq::empty()
    } else {
        let rest = set_flag_names(bits, (k - 1) as nat);
        let entry = flag_names()[k - 1];
        if has_flag(bits, entry.0) {
            rest.push(entry.1)
        } else {
            rest
        }
    }
}

/// The parts joined with ` | ` between them.
pub open spec fn join_bars(parts: Seq<Seq<char>>) -> Seq<char>
    decreases parts.len(),
{
    if parts.len() == 0 {
        Seq::empty()
    } else if parts.len() == 1 {
        parts[0]
    } else {
        join_bars(parts.drop_last()) + " | "@ + parts.last()
    }
}

/// How the options read: `None` for no flag, else the .NET names of the
/// flags that are set, in bit order and joined with ` | `, followed by the
/// number of the bits .NET does not name.
pub open spec fn debug_text_spec(bits: u32) -> Seq<char> {
    let names = set_flag_names(bits, 10);
    let rest = bits & 0xffff_f880u32;
    if bits == 0 {
        "None"@
    } else if rest == 0 {
        join_bars(names)
    } else if names.len() == 0 {
        decimal_digits(rest as nat)
    } else {
        join_bars(names) + " | "@ + decimal_digits(rest as nat)
    }
}

impl RegexOptions {
    /// The raw flag bits.
    pub closed spec fn bits_spec(&self) -> u32 {
        self.0
    }

    /// No options.
    pub fn NONE() -> (res: RegexOptions)
        ensures
            res.bits_spec() == 0,
    {
        RegexOptions(0)
    }

    /// Case-insensitive matching.
    pub fn IGNORE_CASE() -> (res: RegexOptions)
        ensures
            res.bits_spec() == 1,
    {
        RegexOptions(1)
    }

    /// `^` and `$` match at line boundaries.
    pub fn MULTILINE() -> (res: RegexOptions)
        ensures
            res.bits_spec() == 2,
    {
        RegexOptions(2)
    }

    /// Only named groups capture; not supported.
    pub fn EXPLICIT_CAPTURE() -> (res: RegexOptions)
        ensures
            res.bits_spec() == 4,
    {
        RegexOptions(4)
    }

    /// A .NET code-generation hint; changes nothing.
    pub fn COMPILED() -> (res: RegexOptions)
        ensures
            res.bits_spec() == 8,
    {
        RegexOptions(8)
    }

    /// `.` matches a newline too.
    pub fn SINGLELINE() -> (res: RegexOptions)
        ensures
            res.bits_spec() == 16,
    {
        RegexOptions(16)
    }

    /// White space in the pattern is ignored and `#` starts a comment.
    pub fn IGNORE_PATTERN_WHITESPACE() -> (res: RegexOptions)
        ensures
            res.bits_spec() == 32,
    {
        RegexOptions(32)
    }

    /// Search from right to left; not supported.
    pub fn RIGHT_TO_LEFT() -> (res: RegexOptions)
        ensures
            res.bits_spec() == 64,
    {
        RegexOptions(64)
    }

    /// ECMAScript-conforming matching; not supported.
    pub fn ECMA_SCRIPT() -> (res: RegexOptions)
        ensures
            res.bits_spec() == 256,
    {
        RegexOptions(256)
    }

    /// Culture-invariant case folding; always the case here.
    pub fn CULTURE_INVARIANT() -> (res: RegexOptions)
        ensures
            res.bits_spec() == 512,
    {
        RegexOptions(512)
    }

    /// .NET's non-backtracking engine; not supported.
    pub fn NON_BACKTRACKING() -> (res: RegexOptions)
        ensures
            res.bits_spec() == 1024,
    {
        RegexOptions(1024)
    }

    /// The raw flag bits.
    pub fn bits(self) -> (res: u32)
        ensures
            res == self.bits_spec(),
    {
        self.0
    }

    /// The options of these raw bits; a bit .NET does not name is kept and
    /// refused when a pattern is compiled.
    pub fn from_bits(bits: u32) -> (res: RegexOptions)
        ensures
            res.bits_spec() == bits,
    {
        RegexOptions(bits)
    }

    /// Whether every flag of `other` is set here.
    pub fn contains(self, other: RegexOptions) -> (res: bool)
        ensures
            res == has_flag(self.bits_spec(), other.bits_spec()),
    {
        self.0 & other.0 == other.0
    }

    /// The options of both.
    pub fn union(self, other: RegexOptions) -> (res: RegexOptions)
        ensures
            res.bits_spec() == self.bits_spec() | other.bits_spec(),
    {
        RegexOptions(self.0 | other.0)
    }

    /// [`inline_flags_spec`] of the options.
    pub fn inline_flags(self) -> (res: Result<Vec<char>, Vec<char>>)
        ensures
            res matches Ok(t) ==> inline_flags_spec(self.bits_spec()) == Ok::<
                Seq<char>,
                Seq<char>,
            >(t@),
            res matches Err(n) ==> inline_flags_spec(self.bits_spec()) == Err::<
                Seq<char>,
                Seq<char>,
            >(n@),
    {
        let b = self.0;
        if b & 4 == 4 {
            return Err(chars_of("ExplicitCapture"));
        }
        if b & 64 == 64 {
            return Err(chars_of("RightToLeft"));
        }
        if b & 256 == 256 {
            return Err(chars_of("ECMAScript"));
        }
        if b & 1024 == 1024 {
            return Err(chars_of("NonBacktracking"));
        }
        if b & 0xffff_f880u32 != 0 {
            return Err(chars_of("(unknown flag)"));
        }
        let mut letters: Vec<char> = Vec::new();
        if b & 1 == 1 {
            letters.push('i');
        }
        if b & 2 == 2 {
            letters.push('m');
        }
        if b & 16 == 16 {
            letters.push('s');
        }
        if b & 32 == 32 {
            letters.push('x');
        }
        assert(letters@ =~= flag_letters(b));
        if letters.len() == 0 {
            return Ok(letters);
        }
        let mut out: Vec<char> = Vec::new();
        push_str(&mut out, "(?");
        push_all(&mut out, &letters);
        push_str(&mut out, ")");
        Ok(out)
    }

    /// [`debug_text_spec`] of the options: how .NET writes them.
    pub fn debug_text(&self) -> (res: String)
        ensures
            res@ == debug_text_spec(self.bits_spec()),
    {
        let b = self.0;
        if b == 0 {
            return owned("None");
        }
        let mut out: Vec<char> = Vec::new();
        let mut count: usize = 0;
        let flags: [u32; 10] = [1, 2, 4, 8, 16, 32, 64, 256, 512, 1024];
        let mut k: usize = 0;
        while k < 10
            invariant
                k <= 10,
                flags@ == seq![1u32, 2, 4, 8, 16, 32, 64, 256, 512, 1024],
                count == set_flag_names(b, k as nat).len(),
                count <= k,
                out@ == join_bars(set_flag_names(b, k as nat)),
            decreases 10 - k,
        {
            let flag = flags[k];
            assert(flag == flag_names()[k as int].0);
            let ghost names = set_flag_names(b, k as nat);
            if b & flag == flag {
                let name = flag_name(k);
                assert(set_flag_names(b, (k + 1) as nat) == names.push(name@));
                assert(names.push(name@).drop_last() == names);
                if count > 0 {
                    push_str(&mut out, " | ");
                } else {
                    assert(names.push(name@) =~= seq![name@]);
                }
                push_str(&mut out, name);
                count += 1;
            }
            k += 1;
        }
        let rest = b & 0xffff_f880u32;
        if rest != 0 {
            if count > 0 {
                push_str(&mut out, " | ");
            }
            push_u64(&mut out, rest as u64);
        }
        to_string(&out)
    }
}

impl std::ops::BitOr for RegexOptions {
    type Output = RegexOptions;

    fn bitor(self, rhs: RegexOptions) -> (res: RegexOptions)
        ensures
            res.bits_spec() == self.bits_spec() | rhs.bits_spec(),
    {
        RegexOptions(self.0 | rhs.0)
    }
}

impl vstd::std_specs::ops::BitOrSpecImpl for RegexOptions {
    open spec fn obeys_bitor_spec() -> bool {
        true
    }

    open spec fn bitor_req(self, rhs: RegexOptions) -> bool {
        true
    }

    closed spec fn bitor_spec(self, rhs: RegexOptions) -> RegexOptions {
        RegexOptions(self.0 | rhs.0)
    }
}

impl std::ops::BitOrAssign for RegexOptions {
    fn bitor_assign(&mut self, rhs: RegexOptions)
        ensures
            final(self).bits_spec() == old(self).bits_spec() | rhs.bits_spec(),
    {
        self.0 = self.0 | rhs.0;
    }
}

/// The .NET name of the flag at `k` of [`flag_names`].
fn flag_name(k: usize) -> (res: &'static str)
    requires
        k < 10,
    ensures
        res@ == flag_names()[k as int].1,
{
    if k == 0 {
        "IgnoreCase"
    } else if k == 1 {
        "Multiline"
    } else if k == 2 {
        "ExplicitCapture"
    } else if k == 3 {
        "Compiled"
    } else if k == 4 {
        "Singleline"
    } else if k == 5 {
        "IgnorePatternWhitespace"
    } else if k == 6 {
        "RightToLeft"
    } else if k == 7 {
        "ECMAScript"
    } else if k == 8 {
        "CultureInvariant"
    } else {
        "NonBacktracking"
    }
}

// ---------------------------------------------------------------------------
// The regular expression engine
// ---------------------------------------------------------------------------

/// What the engine answers for a pattern and a text.
#[derive(Debug)]
pub enum RegexOutcome {
    /// The pattern does not compile; the engine's message.
    Invalid(String),
    /// The match ran out of its backtracking budget.
    LimitExceeded,
    /// The match failed otherwise; the engine's message.
    Failed(String),
    /// No match.
    NoMatch,
    /// A match: the whole match, then each group, empty for a group that did
    /// not take part.
    Matched(Vec<String>),
}

/// [`RegexOutcome`] with its texts as character sequences.
pub enum RegexOutcomeView {
    Invalid(Seq<char>),
    LimitExceeded,
    Failed(Seq<char>),
    NoMatch,
    Matched(Seq<Seq<char>>),
}

impl RegexOutcome {
    pub open spec fn view(&self) -> RegexOutcomeView {
        match self {
            RegexOutcome::Invalid(m) => RegexOutcomeView::Invalid(m@),
            RegexOutcome::LimitExceeded => RegexOutcomeView::LimitExceeded,
            RegexOutcome::Failed(m) => RegexOutcomeView::Failed(m@),
            RegexOutcome::NoMatch => RegexOutcomeView::NoMatch,
            RegexOutcome::Matched(g) => RegexOutcomeView::Matched(
                g@.map_values(|s: String| s@),
            ),
        }
    }
}

/// What fancy-regex answers when `pattern`, built with `backtrack_limit`,
/// is matched against `text`.
pub uninterp spec fn regex_outcome(pattern: Seq<char>, backtrack_limit: usize, text: Seq<char>) -> RegexOutcomeView;

/// fancy-regex's `RegexBuilder::new(pattern).backtrack_limit(limit).build()`
/// and then `Regex::captures(text)`: the answer is the named
/// [`regex_outcome`] of the pattern, the limit and the text, which depends on
/// nothing else.
#[verifier::external_body]
fn run_regex(pattern: &str, backtrack_limit: usize, text: &str) -> (res: RegexOutcome)
    ensures
        res@ == regex_outcome(pattern@, backtrack_limit, text@),
{
    let regex = match fancy_regex::RegexBuilder::new(pattern).backtrack_limit(backtrack_limit).build() {
        Ok(regex) => regex,
        Err(error) => return RegexOutcome::Invalid(error.to_string()),
    };
    match regex.captures(text) {
        Ok(Some(c)) => RegexOutcome::Matched(
            (0..c.len()).map(|i| c.get(i).map_or(String::new(), |g| g.as_str().to_owned())).collect(),
        ),
        Ok(None) => RegexOutcome::NoMatch,
        Err(fancy_regex::Error::RuntimeError(fancy_regex::RuntimeError::BacktrackLimitExceeded)) => RegexOutcome::LimitExceeded,
        Err(error) => RegexOutcome::Failed(error.to_string()),
    }
}

/// The message a failed match reports, quoting the expression as written
/// (without the inline flags): `None` for a match or no match.
pub open spec fn regex_issue_spec(outcome: RegexOutcomeView, expression: Seq<char>, limit: usize) -> Option<
    Seq<char>,
> {
    match outcome {
        RegexOutcomeView::Invalid(m) => Some(
            "Invalid regular expression \""@ + expression + "\": "@ + m,
        ),
        RegexOutcomeView::LimitExceeded => Some(
            "Regular expression \""@ + expression + "\" exceeded the backtrack limit of "@
                + decimal_digits(limit as nat) + " steps"@,
        ),
        RegexOutcomeView::Failed(m) => Some(
            "Regular expression \""@ + expression + "\" failed to match: "@ + m,
        ),
        _ => None,
    }
}

/// [`regex_issue_spec`] of the engine's answer.
pub fn regex_issue(outcome: &RegexOutcome, expression: &Vec<char>, limit: usize) -> (res: Option<
    Vec<char>,
>)
    ensures
        res is None <==> regex_issue_spec(outcome@, expression@, limit) is None,
        res matches Some(t) ==> regex_issue_spec(outcome@, expression@, limit) == Some(t@),
{
    let mut out: Vec<char> = Vec::new();
    match outcome {
        RegexOutcome::Invalid(m) => {
            push_str(&mut out, "Invalid regular expression \"");
            push_all(&mut out, expression);
            push_str(&mut out, "\": ");
            push_str(&mut out, m.as_str());
            Some(out)
        },
        RegexOutcome::LimitExceeded => {
            push_str(&mut out, "Regular expression \"");
            push_all(&mut out, expression);
            push_str(&mut out, "\" exceeded the backtrack limit of ");
            push_u64(&mut out, limit as u64);
            push_str(&mut out, " steps");
            Some(out)
        },
        RegexOutcome::Failed(m) => {
            push_str(&mut out, "Regular expression \"");
            push_all(&mut out, expression);
            push_str(&mut out, "\" failed to match: ");
            push_str(&mut out, m.as_str());
            Some(out)
        },
        _ => None,
    }
}

/// The groups of a match as a list of string values.
pub fn group_values(groups: &Vec<String>) -> (res: Value)
    ensures
        res matches Value::List(items) && items.len() == groups.len() && forall|i: int|
            0 <= i < groups.len() ==> (#[trigger] items@[i] matches Value::String(s) && s@
                == groups@[i]@),
{
    let mut items: Vec<Value> = Vec::new();
    let mut i: usize = 0;
    while i < groups.len()
        invariant
            i <= groups.len(),
            items.len() == i,
            forall|k: int|
                0 <= k < i ==> (#[trigger] items@[k] matches Value::String(s) && s@
                    == groups@[k]@),
        decreases groups.len() - i,
    {
        items.push(Value::String(owned(groups[i].as_str())));
        i += 1;
    }
    Value::List(items)
}

// ---------------------------------------------------------------------------
// IsMatchFormatter
// ---------------------------------------------------------------------------

/// Whether `outer` is one literal and `inner` is empty or one literal
/// within it.
pub open spec fn literal_within(inner: Format, outer: Format) -> bool {
    outer.items.len() == 1 && match outer.items@[0] {
        FormatItem::Literal(whole) => inner.items.len() == 1 ==> match inner.items@[0] {
            FormatItem::Literal(l) => whole.start <= l.start && l.end <= whole.end,
            FormatItem::Placeholder(_) => false,
        },
        FormatItem::Placeholder(_) => false,
    }
}

/// Where a format item starts and ends.
pub open spec fn item_range(item: FormatItem) -> (int, int) {
    match item {
        FormatItem::Literal(l) => (l.start as int, l.end as int),
        FormatItem::Placeholder(p) => (p.start as int, p.end as int),
    }
}

/// Whether an item is the placeholder that reads the groups: one whose
/// first selector is spelled exactly `name`.
pub open spec fn reads_groups(item: FormatItem, name: Seq<char>) -> bool {
    item matches FormatItem::Placeholder(p) && p.selectors.len() > 0 && p.selectors@[0].text@
        == name
}

/// What a matched item renders against: the groups when it reads them
/// ([`reads_groups`]), the value otherwise.
pub open spec fn item_value(item: FormatItem, name: Seq<char>, value: Value, groups: Value) -> Value {
    if reads_groups(item, name) {
        groups
    } else {
        value
    }
}

/// Whether `after` is `before` with one rendering for each of `items`, in
/// order: of the item's own range of `src`, against the groups when the
/// item reads them and against `value` otherwise.
pub open spec fn renders_items(
    before: Seq<Rendering>,
    after: Seq<Rendering>,
    src: Seq<char>,
    items: Seq<FormatItem>,
    name: Seq<char>,
    value: Value,
    groups: Seq<Seq<char>>,
) -> bool {
    &&& after.len() == before.len() + items.len()
    &&& after.take(before.len() as int) == before
    &&& forall|i: int|
        0 <= i < items.len() ==> (#[trigger] after[before.len() + i]).0 == src && after[before.len()
            + i].1 == item_range(items[i]).0 && after[before.len() + i].2 == item_range(items[i]).1
            && if reads_groups(items[i], name) {
            groups_dictionary(after[before.len() + i].3, name, groups)
        } else {
            after[before.len() + i].3 == value
        }
}

/// Whether `v` is what the placeholder that reads the groups renders
/// against: a dictionary of one entry, under `name`, holding the texts of
/// the groups as a list of strings, in order.
pub open spec fn groups_dictionary(v: Value, name: Seq<char>, groups: Seq<Seq<char>>) -> bool {
    match v {
        Value::Dictionary(es) => es.len() == 1 && es@[0].0@ == name && string_list(
            es@[0].1,
            groups,
        ),
        _ => false,
    }
}

/// Whether `v` is a list of strings with the texts `texts`, in order.
pub open spec fn string_list(v: Value, texts: Seq<Seq<char>>) -> bool {
    match v {
        Value::List(items) => items.len() == texts.len() && forall|i: int|
            0 <= i < items.len() ==> match #[trigger] items@[i] {
                Value::String(t) => t@ == texts[i],
                _ => false,
            },
        _ => false,
    }
}

/// Whether the matched items render as plain literals and substituted
/// placeholders, item by item — each as the part of the format's items
/// `whole` within its range, against [`item_value`].
pub open spec fn match_simple(
    src: Seq<char>,
    whole: Seq<FormatItem>,
    matched: Seq<FormatItem>,
    name: Seq<char>,
    value: Value,
    groups: Value,
    args: Value,
    case: CaseSensitivity,
    index: i64,
) -> bool {
    forall|i: int|
        0 <= i < matched.len() ==> all_simple_items(
            src,
            substring_items(whole, item_range(#[trigger] matched[i]).0, item_range(matched[i]).1),
            item_value(matched[i], name, value, groups),
            args,
            case,
            index,
        )
}

/// What the first `n` matched items render as, each as the part of `whole`
/// within its range, against [`item_value`].
pub open spec fn match_text(
    src: Seq<char>,
    whole: Seq<FormatItem>,
    matched: Seq<FormatItem>,
    name: Seq<char>,
    alignment: int,
    value: Value,
    groups: Value,
    args: Value,
    case: CaseSensitivity,
    index: i64,
    n: nat,
) -> Seq<char>
    decreases n,
{
    if n == 0 || n > matched.len() {
        Seq::empty()
    } else {
        match_text(src, whole, matched, name, alignment, value, groups, args, case, index, (n - 1) as nat)
            + simple_items_text(
            src,
            substring_items(whole, item_range(matched[n - 1]).0, item_range(matched[n - 1]).1),
            alignment,
            item_value(matched[n - 1], name, value, groups),
            args,
            case,
            index,
        )
    }
}

/// Two dictionaries of the same groups hold the same.
proof fn lemma_groups_same(a: Value, b: Value, name: Seq<char>, groups: Seq<Seq<char>>)
    requires
        groups_dictionary(a, name, groups),
        groups_dictionary(b, name, groups),
    ensures
        same_content(a, b),
{
    let ea = a->Dictionary_0;
    let eb = b->Dictionary_0;
    let la = ea@[0].1->List_0;
    let lb = eb@[0].1->List_0;
    assert forall|i: int| 0 <= i < la.len() implies same_content(#[trigger] la@[i], lb@[i]) by {
        assert(match la@[i] {
            Value::String(t) => t@ == groups[i],
            _ => false,
        });
        assert(match lb@[i] {
            Value::String(t) => t@ == groups[i],
            _ => false,
        });
    }
    assert(same_content(ea@[0].1, eb@[0].1));
    assert forall|i: int| 0 <= i < ea.len() implies (#[trigger] eb@[i]).0@ == ea@[i].0@ && same_content(
        ea@[i].1,
        eb@[i].1,
    ) by {
        assert(i == 0);
    }
}

/// Groups of the same content render the matched items alike.
proof fn lemma_match_groups_same(
    src: Seq<char>,
    whole: Seq<FormatItem>,
    matched: Seq<FormatItem>,
    name: Seq<char>,
    alignment: int,
    value: Value,
    g: Value,
    h: Value,
    args: Value,
    case: CaseSensitivity,
    index: i64,
    n: nat,
)
    requires
        same_content(g, h),
    ensures
        match_simple(src, whole, matched, name, value, h, args, case, index) ==> match_simple(
            src,
            whole,
            matched,
            name,
            value,
            g,
            args,
            case,
            index,
        ),
        match_text(src, whole, matched, name, alignment, value, g, args, case, index, n)
            == match_text(src, whole, matched, name, alignment, value, h, args, case, index, n),
    decreases n,
{
    assert forall|i: int| 0 <= i < matched.len() implies all_simple_items(
        src,
        substring_items(whole, item_range(#[trigger] matched[i]).0, item_range(matched[i]).1),
        item_value(matched[i], name, value, g),
        args,
        case,
        index,
    ) == all_simple_items(
        src,
        substring_items(whole, item_range(matched[i]).0, item_range(matched[i]).1),
        item_value(matched[i], name, value, h),
        args,
        case,
        index,
    ) by {
        if reads_groups(matched[i], name) {
            lemma_same_content_renders(
                src,
                substring_items(whole, item_range(matched[i]).0, item_range(matched[i]).1),
                alignment,
                g,
                h,
                args,
                case,
                index,
            );
        }
    }
    if n > 0 && n <= matched.len() {
        lemma_match_groups_same(src, whole, matched, name, alignment, value, g, h, args, case, index, (n - 1) as nat);
        if reads_groups(matched[n - 1], name) {
            lemma_same_content_renders(
                src,
                substring_items(whole, item_range(matched[n - 1]).0, item_range(matched[n - 1]).1),
                alignment,
                g,
                h,
                args,
                case,
                index,
            );
        }
    }
}

/// The items of the placeholder's format, none when it has no format.
pub open spec fn own_items(p: Placeholder) -> Seq<FormatItem> {
    match p.format {
        Some(f) => f.items@,
        None => Seq::empty(),
    }
}

/// Alike matched items render alike.
proof fn lemma_match_alike(
    src: Seq<char>,
    whole: Seq<FormatItem>,
    a: Seq<FormatItem>,
    b: Seq<FormatItem>,
    name: Seq<char>,
    alignment: int,
    value: Value,
    groups: Value,
    args: Value,
    case: CaseSensitivity,
    index: i64,
    n: nat,
)
    requires
        items_alike(a, b),
    ensures
        match_simple(src, whole, b, name, value, groups, args, case, index) ==> match_simple(
            src,
            whole,
            a,
            name,
            value,
            groups,
            args,
            case,
            index,
        ),
        match_text(src, whole, a, name, alignment, value, groups, args, case, index, n) == match_text(
            src,
            whole,
            b,
            name,
            alignment,
            value,
            groups,
            args,
            case,
            index,
            n,
        ),
    decreases n,
{
    assert forall|i: int| 0 <= i < a.len() implies item_range(#[trigger] a[i]) == item_range(b[i])
        && reads_groups(a[i], name) == reads_groups(b[i], name) by {
        assert(item_alike(a[i], b[i]));
        match a[i] {
            FormatItem::Placeholder(p) => {
                match b[i] {
                    FormatItem::Placeholder(q) => {
                        if p.selectors.len() > 0 {
                            assert(selector_alike(p.selectors@[0], q.selectors@[0]));
                        }
                    },
                    _ => {},
                }
            },
            _ => {},
        }
    }
    if n > 0 && n <= a.len() {
        lemma_match_alike(src, whole, a, b, name, alignment, value, groups, args, case, index, (n - 1) as nat);
    }
}

/// Whether `after` is `before` with `piece`, as a literal part renders it,
/// written.
pub open spec fn final_is_part(before: State, after: State, piece: Seq<char>, alignment: int) -> bool {
    after.out@ == before.out@ + part_output(piece, alignment)
}

/// Renders one of two formats depending on whether a regular expression
/// matches the value.
#[derive(Debug, Clone)]
pub struct IsMatchFormatter {
    name: String,
    split_char: char,
    can_auto_detect: bool,
    regex_options: RegexOptions,
    placeholder_name_for_matches: String,
    backtrack_limit: usize,
}

impl IsMatchFormatter {
    pub closed spec fn name_spec(&self) -> Seq<char> {
        self.name@
    }

    pub closed spec fn split_char_spec(&self) -> char {
        self.split_char
    }

    pub closed spec fn auto_detect_spec(&self) -> bool {
        self.can_auto_detect
    }

    pub closed spec fn options_spec(&self) -> RegexOptions {
        self.regex_options
    }

    pub closed spec fn matches_name_spec(&self) -> Seq<char> {
        self.placeholder_name_for_matches@
    }

    pub closed spec fn limit_spec(&self) -> usize {
        self.backtrack_limit
    }

    /// A formatter named `ismatch`, splitting on `|`, not auto-detected, with
    /// no regex options, `m` as the name of the capturing-group placeholder,
    /// and fancy-regex's default backtracking budget.
    pub fn new() -> (res: IsMatchFormatter)
        ensures
            res.name_spec() == "ismatch"@,
            res.split_char_spec() == '|',
            !res.auto_detect_spec(),
            res.options_spec().bits_spec() == 0,
            res.matches_name_spec() == "m"@,
            res.limit_spec() == 1_000_000,
    {
        IsMatchFormatter {
            name: owned("ismatch"),
            split_char: '|',
            can_auto_detect: false,
            regex_options: RegexOptions(0),
            placeholder_name_for_matches: owned("m"),
            backtrack_limit: 1_000_000,
        }
    }

    /// The formatter under another name.
    pub fn with_name(self, name: &str) -> (res: IsMatchFormatter)
        ensures
            res.name_spec() == name@,
            res.split_char_spec() == self.split_char_spec(),
            res.auto_detect_spec() == self.auto_detect_spec(),
            res.options_spec() == self.options_spec(),
            res.matches_name_spec() == self.matches_name_spec(),
            res.limit_spec() == self.limit_spec(),
    {
        IsMatchFormatter { name: owned(name), ..self }
    }

    pub fn name(&self) -> (res: &str)
        ensures
            res@ == self.name_spec(),
    {
        self.name.as_str()
    }

    /// The character the two formats are split on.
    pub fn split_char(&self) -> (res: char)
        ensures
            res == self.split_char_spec(),
    {
        self.split_char
    }

    /// Changes the split character; only `|`, `,` and `~` are accepted.
    pub fn set_split_char(&mut self, split_char: char) -> (res: Result<(), InvalidSplitChar>)
        ensures
            is_valid_split_char(split_char) ==> res is Ok && final(self).split_char_spec()
                == split_char,
            !is_valid_split_char(split_char) ==> res == Err::<(), InvalidSplitChar>(
                InvalidSplitChar(split_char),
            ) && final(self).split_char_spec() == old(self).split_char_spec(),
            final(self).name_spec() == old(self).name_spec(),
            final(self).auto_detect_spec() == old(self).auto_detect_spec(),
            final(self).options_spec() == old(self).options_spec(),
            final(self).matches_name_spec() == old(self).matches_name_spec(),
            final(self).limit_spec() == old(self).limit_spec(),
    {
        match valid_split_char(split_char) {
            Ok(c) => {
                self.split_char = c;
                Ok(())
            },
            Err(e) => Err(e),
        }
    }

    /// Whether a placeholder that names no formatter may be handled here.
    pub fn can_auto_detect(&self) -> (res: bool)
        ensures
            res == self.auto_detect_spec(),
    {
        self.can_auto_detect
    }

    pub fn set_can_auto_detect(&mut self, can_auto_detect: bool)
        ensures
            final(self).auto_detect_spec() == can_auto_detect,
            final(self).name_spec() == old(self).name_spec(),
            final(self).split_char_spec() == old(self).split_char_spec(),
            final(self).options_spec() == old(self).options_spec(),
            final(self).matches_name_spec() == old(self).matches_name_spec(),
            final(self).limit_spec() == old(self).limit_spec(),
    {
        self.can_auto_detect = can_auto_detect;
    }

    /// The options every pattern is compiled with.
    pub fn regex_options(&self) -> (res: RegexOptions)
        ensures
            res == self.options_spec(),
    {
        self.regex_options
    }

    pub fn set_regex_options(&mut self, regex_options: RegexOptions)
        ensures
            final(self).options_spec() == regex_options,
            final(self).name_spec() == old(self).name_spec(),
            final(self).split_char_spec() == old(self).split_char_spec(),
            final(self).auto_detect_spec() == old(self).auto_detect_spec(),
            final(self).matches_name_spec() == old(self).matches_name_spec(),
            final(self).limit_spec() == old(self).limit_spec(),
    {
        self.regex_options = regex_options;
    }

    /// The name of the placeholder that reads the capturing groups of a
    /// match: a placeholder in the matched part whose first selector is
    /// spelled exactly so is rendered against the groups.
    pub fn placeholder_name_for_matches(&self) -> (res: &str)
        ensures
            res@ == self.matches_name_spec(),
    {
        self.placeholder_name_for_matches.as_str()
    }

    pub fn set_placeholder_name_for_matches(&mut self, name: &str)
        ensures
            final(self).matches_name_spec() == name@,
            final(self).name_spec() == old(self).name_spec(),
            final(self).split_char_spec() == old(self).split_char_spec(),
            final(self).auto_detect_spec() == old(self).auto_detect_spec(),
            final(self).options_spec() == old(self).options_spec(),
            final(self).limit_spec() == old(self).limit_spec(),
    {
        self.placeholder_name_for_matches = owned(name);
    }

    /// How many backtracking steps a match may take before the format call
    /// fails.
    pub fn backtrack_limit(&self) -> (res: usize)
        ensures
            res == self.limit_spec(),
    {
        self.backtrack_limit
    }

    pub fn set_backtrack_limit(&mut self, backtrack_limit: usize)
        ensures
            final(self).limit_spec() == backtrack_limit,
            final(self).name_spec() == old(self).name_spec(),
            final(self).split_char_spec() == old(self).split_char_spec(),
            final(self).auto_detect_spec() == old(self).auto_detect_spec(),
            final(self).options_spec() == old(self).options_spec(),
            final(self).matches_name_spec() == old(self).matches_name_spec(),
    {
        self.backtrack_limit = backtrack_limit;
    }

    /// The pattern handed to the engine: the inline flags of the options in
    /// front of the expression.
    pub fn pattern_for(&self, expression: &Vec<char>) -> (res: Result<Vec<char>, Vec<char>>)
        ensures
            res matches Ok(p) ==> inline_flags_spec(self.options_spec().bits_spec()) matches Ok(
                f,
            ) && p@ == f + expression@,
            res matches Err(n) ==> inline_flags_spec(self.options_spec().bits_spec()) == Err::<
                Seq<char>,
                Seq<char>,
            >(n@),
    {
        match self.regex_options.inline_flags() {
            Ok(flags) => {
                let mut p = flags;
                push_all(&mut p, expression);
                Ok(p)
            },
            Err(name) => Err(name),
        }
    }

    /// Whether a format item is the placeholder that reads the groups: one
    /// whose first selector is spelled exactly like the name.
    pub fn is_matches_placeholder(&self, item: &FormatItem) -> (res: bool)
        ensures
            res == (item matches FormatItem::Placeholder(p) && p.selectors.len() > 0
                && p.selectors@[0].text@ == self.matches_name_spec()),
    {
        match item {
            FormatItem::Placeholder(p) => {
                if p.selectors.len() > 0 {
                    let name = chars_of(self.placeholder_name_for_matches.as_str());
                    crate::text::chars_equal(&p.selectors[0].text, &name)
                } else {
                    false
                }
            },
            FormatItem::Literal(_) => false,
        }
    }

    /// Renders each item of the matched part on its own: the placeholder
    /// that reads the groups against a dictionary holding them under the
    /// name ([`groups_dictionary`]), every other item against the value. A matched part that is one literal within the one literal of
    /// the format, or empty, is written as [`part_output`] of its text.
    #[verifier::rlimit(80)]
    fn write_match(
        &self,
        ctx: &Ctx,
        info: &Info,
        parent: &Format,
        matched: &Format,
        groups: Value,
        state: &mut State,
        fuel: usize,
        Ghost(texts): Ghost<Seq<Seq<char>>>,
    ) -> (res: Result<(), Error>)
        requires
            string_list(groups, texts),
        ensures
            literal_format_text(info.src@, *matched) matches Some(m) ==> m.len() <= usize::MAX / 4
                && literal_within(*matched, *parent) ==> res is Ok && final(state).out@
                == old(state).out@ + part_output(m, info.placeholder.alignment as int),
            forall|g: Value|
                #[trigger] groups_dictionary(g, self.matches_name_spec(), texts) && match_simple(
                    info.src@,
                    parent.items@,
                    matched.items@,
                    self.matches_name_spec(),
                    *info.value,
                    g,
                    *ctx.args,
                    ctx.settings.case_sensitive,
                    old(state).collection_index,
                ) && fuel >= 2 && can_render_bare(ctx) ==> res is Ok && final(state).out@ == old(
                    state,
                ).out@ + match_text(
                    info.src@,
                    parent.items@,
                    matched.items@,
                    self.matches_name_spec(),
                    info.placeholder.alignment as int,
                    *info.value,
                    g,
                    *ctx.args,
                    ctx.settings.case_sensitive,
                    old(state).collection_index,
                    matched.items.len() as nat,
                ),
            res is Ok ==> renders_items(
                old(state).rendered(),
                final(state).rendered(),
                info.src@,
                matched.items@,
                self.matches_name_spec(),
                *info.value,
                texts,
            ),
        decreases fuel, 7nat,
    {
        let ghost single = literal_format_text(info.src@, *matched) is Some && literal_format_text(
            info.src@,
            *matched,
        )->0.len() <= usize::MAX / 4 && literal_within(*matched, *parent);
        let mut entries: Vec<(String, Value)> = Vec::new();
        entries.push((owned(self.placeholder_name_for_matches.as_str()), groups));
        let matches = Value::Dictionary(entries);
        let ghost mv = matches;
        assert(groups_dictionary(mv, self.matches_name_spec(), texts));
        let ghost simple = match_simple(
            info.src@,
            parent.items@,
            matched.items@,
            self.matches_name_spec(),
            *info.value,
            mv,
            *ctx.args,
            ctx.settings.case_sensitive,
            old(state).collection_index,
        ) && fuel >= 2 && can_render_bare(ctx);
        assert forall|g: Value| #[trigger] groups_dictionary(g, self.matches_name_spec(), texts)
            && match_simple(
            info.src@,
            parent.items@,
            matched.items@,
            self.matches_name_spec(),
            *info.value,
            g,
            *ctx.args,
            ctx.settings.case_sensitive,
            old(state).collection_index,
        ) implies match_simple(
            info.src@,
            parent.items@,
            matched.items@,
            self.matches_name_spec(),
            *info.value,
            mv,
            *ctx.args,
            ctx.settings.case_sensitive,
            old(state).collection_index,
        ) by {
            lemma_groups_same(mv, g, self.matches_name_spec(), texts);
            lemma_match_groups_same(
                info.src@,
                parent.items@,
                matched.items@,
                self.matches_name_spec(),
                info.placeholder.alignment as int,
                *info.value,
                mv,
                g,
                *ctx.args,
                ctx.settings.case_sensitive,
                old(state).collection_index,
                0,
            );
        }
        let mut i: usize = 0;
        assert(old(state).rendered().take(old(state).rendered().len() as int) =~= old(state).rendered());
        assert(matched.items@.take(0) =~= Seq::<FormatItem>::empty());
        while i < matched.items.len()
            invariant
                i <= matched.items.len(),
                forall|g: Value| #[trigger] groups_dictionary(g, self.matches_name_spec(), texts)
            && match_simple(
            info.src@,
            parent.items@,
            matched.items@,
            self.matches_name_spec(),
            *info.value,
            g,
            *ctx.args,
            ctx.settings.case_sensitive,
            old(state).collection_index,
        ) ==> match_simple(
            info.src@,
            parent.items@,
            matched.items@,
            self.matches_name_spec(),
            *info.value,
            mv,
            *ctx.args,
            ctx.settings.case_sensitive,
            old(state).collection_index,
        ),
                single == (literal_format_text(info.src@, *matched) is Some && literal_format_text(
                    info.src@,
                    *matched,
                )->0.len() <= usize::MAX / 4 && literal_within(*matched, *parent)),
                single ==> matched.items.len() <= 1,
                single && i == 0 ==> *state == *old(state),
                single && i == 1 ==> final_is_part(*old(state), *state, literal_format_text(
                    info.src@,
                    *matched,
                )->0, info.placeholder.alignment as int),
                mv == matches,
                groups_dictionary(mv, self.matches_name_spec(), texts),
                renders_items(
                    old(state).rendered(),
                    state.rendered(),
                    info.src@,
                    matched.items@.take(i as int),
                    self.matches_name_spec(),
                    *info.value,
                    texts,
                ),
                simple == (match_simple(
                    info.src@,
                    parent.items@,
                    matched.items@,
                    self.matches_name_spec(),
                    *info.value,
                    mv,
                    *ctx.args,
                    ctx.settings.case_sensitive,
                    old(state).collection_index,
                ) && fuel >= 2 && can_render_bare(ctx)),
                simple ==> state.collection_index == old(state).collection_index && state.out@ == old(
                    state,
                ).out@ + match_text(
                    info.src@,
                    parent.items@,
                    matched.items@,
                    self.matches_name_spec(),
                    info.placeholder.alignment as int,
                    *info.value,
                    mv,
                    *ctx.args,
                    ctx.settings.case_sensitive,
                    old(state).collection_index,
                    i as nat,
                ),
            decreases matched.items.len() - i,
        {
            let item = &matched.items[i];
            let (start, end) = match item {
                FormatItem::Literal(l) => (l.start, l.end),
                FormatItem::Placeholder(p) => (p.start, p.end),
            };
            let child = substring(parent, start, end);
            proof {
                if simple {
                    assert(item_range(matched.items@[i as int]) == (start as int, end as int));
                    lemma_alike_renders_alike(
                        info.src@,
                        child.items@,
                        substring_items(parent.items@, start as int, end as int),
                        info.placeholder.alignment as int,
                        item_value(matched.items@[i as int], self.matches_name_spec(), *info.value, mv),
                        *ctx.args,
                        ctx.settings.case_sensitive,
                        state.collection_index,
                    );
                }
                if single {
                    let m = literal_format_text(info.src@, *matched)->0;
                    assert(i == 0 && matched.items.len() == 1);
                    assert(matched.items@[0] == *item);
                    assert(*item matches FormatItem::Literal(l) && l.start == start && l.end == end);
                    assert(start < end);
                    assert(parent.items@[0] matches FormatItem::Literal(whole) && whole.start <= start
                        && end <= whole.end);
                    assert(child.items@ == seq![FormatItem::Literal(crate::parsing::Literal { start, end })]);
                    assert(literal_format_text(info.src@, child) == Some(m));
                    lemma_literal_part_renders(info.src@, child, info.placeholder.alignment as int);
                }
            }
            let ghost before = state.out@;
            let reads = self.is_matches_placeholder(item);
            proof {
                if simple {
                    let v = item_value(matched.items@[i as int], self.matches_name_spec(), *info.value, mv);
                    assert(v == if reads {
                        mv
                    } else {
                        *info.value
                    });
                    assert(all_simple_items(
                        info.src@,
                        substring_items(
                            parent.items@,
                            item_range(matched.items@[i as int]).0,
                            item_range(matched.items@[i as int]).1,
                        ),
                        v,
                        *ctx.args,
                        ctx.settings.case_sensitive,
                        old(state).collection_index,
                    ));
                }
            }
            let ghost trace = state.rendered();
            if reads {
                format_as_child(ctx, info, &child, &matches, state, fuel)?;
            } else {
                format_as_child(ctx, info, &child, info.value, state, fuel)?;
            }
            proof {
                let r = state.rendered();
                let base = old(state).rendered().len();
                let items = matched.items@.take(i + 1);
                assert(item_range(matched.items@[i as int]) == (start as int, end as int));
                assert(r.take(base as int) =~= trace.take(base as int));
                assert forall|j: int| 0 <= j < items.len() implies (#[trigger] r[base + j]).0 == info.src@
                    && r[base + j].1 == item_range(items[j]).0 && r[base + j].2 == item_range(items[j]).1
                    && if reads_groups(items[j], self.matches_name_spec()) {
                    groups_dictionary(r[base + j].3, self.matches_name_spec(), texts)
                } else {
                    r[base + j].3 == *info.value
                } by {
                    if j < i {
                        assert(r[base + j] == trace[base + j]);
                        assert(items[j] == matched.items@.take(i as int)[j]);
                    } else {
                        assert(items[j] == matched.items@[i as int]);
                    }
                }
            }
            proof {
                if simple {
                    assert(state.out@ == old(state).out@ + match_text(
                        info.src@,
                        parent.items@,
                        matched.items@,
                        self.matches_name_spec(),
                        info.placeholder.alignment as int,
                        *info.value,
                        mv,
                        *ctx.args,
                        ctx.settings.case_sensitive,
                        old(state).collection_index,
                        (i + 1) as nat,
                    ));
                }
            }
            i += 1;
        }
        proof {
            if single && matched.items.len() == 0 {
                assert(part_output(Seq::<char>::empty(), info.placeholder.alignment as int) =~= Seq::<
                    char,
                >::empty());
                assert(old(state).out@ + Seq::<char>::empty() =~= old(state).out@);
            }
            assert forall|g: Value| #[trigger] groups_dictionary(g, self.matches_name_spec(), texts) implies (
            match_simple(
                info.src@,
                parent.items@,
                matched.items@,
                self.matches_name_spec(),
                *info.value,
                g,
                *ctx.args,
                ctx.settings.case_sensitive,
                old(state).collection_index,
            ) ==> match_simple(
                info.src@,
                parent.items@,
                matched.items@,
                self.matches_name_spec(),
                *info.value,
                mv,
                *ctx.args,
                ctx.settings.case_sensitive,
                old(state).collection_index,
            )) && match_text(
                info.src@,
                parent.items@,
                matched.items@,
                self.matches_name_spec(),
                info.placeholder.alignment as int,
                *info.value,
                g,
                *ctx.args,
                ctx.settings.case_sensitive,
                old(state).collection_index,
                matched.items.len() as nat,
            ) == match_text(
                info.src@,
                parent.items@,
                matched.items@,
                self.matches_name_spec(),
                info.placeholder.alignment as int,
                *info.value,
                mv,
                *ctx.args,
                ctx.settings.case_sensitive,
                old(state).collection_index,
                matched.items.len() as nat,
            ) by {
                lemma_groups_same(mv, g, self.matches_name_spec(), texts);
                lemma_match_groups_same(
                    info.src@,
                    parent.items@,
                    matched.items@,
                    self.matches_name_spec(),
                    info.placeholder.alignment as int,
                    *info.value,
                    mv,
                    g,
                    *ctx.args,
                    ctx.settings.case_sensitive,
                    old(state).collection_index,
                    matched.items.len() as nat,
                );
            }
        }
        Ok(())
    }

    /// Renders the matched part when the regular expression matches the
    /// value's text and the other part when it does not. Declines a null;
    /// fails for a list or a dictionary, for a format that is not two parts
    /// when the placeholder names the formatter, for options the engine
    /// cannot honor, and for a pattern the engine refuses or a match it
    /// cannot finish.
    pub fn try_evaluate_format(&self, ctx: &Ctx, info: &Info, state: &mut State, fuel: usize) -> (res:
        Result<bool, Error>)
        ensures
            is_bare(*info.placeholder) && is_scalar(*info.value) ==> res == Ok::<bool, Error>(false)
                && *final(state) == *old(state),
            info.placeholder.formatter_name@.len() == 0 && info.placeholder.format is None && !(
            info.value is List) && !(info.value is Dictionary) ==> (res == Ok::<bool, Error>(false)
                || res matches Err(Error::Escape { .. })),
            info.value is Null ==> res == Ok::<bool, Error>(false),
            match crate::formatter::options_spec(info.src@, *info.placeholder, ctx.convert) {
                Ok(expression) => match literal_format_of(info.src@, *info.placeholder) {
                    Some(t) => t.len() < usize::MAX / 4 && split_spec(t, self.split_char_spec()).len()
                        == 2 && value_text_spec(*info.value) is Some ==> match inline_flags_spec(
                        self.options_spec().bits_spec(),
                    ) {
                        Ok(flags) => regex_outcome(
                            flags + expression,
                            self.limit_spec(),
                            value_text_spec(*info.value)->0,
                        ) == RegexOutcomeView::NoMatch ==> res == Ok::<bool, Error>(true) && final(state).out@ == old(state).out@ + part_output(
                            split_spec(t, self.split_char_spec())[1],
                            info.placeholder.alignment as int,
                        ),
                        Err(_) => res is Err,
                    },
                    None => true,
                },
                Err(_) => true,
            },
            value_text_spec(*info.value) is Some && crate::formatter::options_spec(
                info.src@,
                *info.placeholder,
                ctx.convert,
            ) is Err ==> res is Err,
            match crate::formatter::options_spec(info.src@, *info.placeholder, ctx.convert) {
                Ok(expression) => match spanned_format_of(info.src@, *info.placeholder) {
                    Some(t) => t.len() < usize::MAX / 4 && split_spec(t, self.split_char_spec()).len()
                        == 2 && value_text_spec(*info.value) is Some ==> match inline_flags_spec(
                        self.options_spec().bits_spec(),
                    ) {
                        Ok(flags) => match regex_outcome(
                            flags + expression,
                            self.limit_spec(),
                            value_text_spec(*info.value)->0,
                        ) {
                            RegexOutcomeView::Matched(_) => res == Ok::<bool, Error>(true)
                                && final(state).out@ == old(state).out@ + part_output(
                                split_spec(t, self.split_char_spec())[0],
                                info.placeholder.alignment as int,
                            ),
                            RegexOutcomeView::NoMatch => true,
                            _ => res is Err,
                        },
                        Err(_) => res is Err,
                    },
                    None => true,
                },
                Err(_) => true,
            },
            match crate::formatter::options_spec(info.src@, *info.placeholder, ctx.convert) {
                Ok(expression) => match format_parts(
                    info.src@,
                    *info.placeholder,
                    self.split_char_spec(),
                    (usize::MAX - 1) as nat,
                ) {
                    Some(ps) => ps.len() == 2 && value_text_spec(*info.value) is Some ==> match inline_flags_spec(
                        self.options_spec().bits_spec(),
                    ) {
                        Ok(flags) => (regex_issue_spec(
                            regex_outcome(
                                flags + expression,
                                self.limit_spec(),
                                value_text_spec(*info.value)->0,
                            ),
                            expression,
                            self.limit_spec(),
                        ) is Some ==> res is Err) && (regex_outcome(
                            flags + expression,
                            self.limit_spec(),
                            value_text_spec(*info.value)->0,
                        ) == RegexOutcomeView::NoMatch ==> (res is Ok ==> final(state).rendered() == old(
                            state,
                        ).rendered().push(
                            (
                                info.src@,
                                ps[1].1,
                                ps[1].2,
                                *info.value,
                                old(state).out@,
                                final(state).out@,
                            ),
                        ))) && (regex_outcome(
                            flags + expression,
                            self.limit_spec(),
                            value_text_spec(*info.value)->0,
                        ) == RegexOutcomeView::NoMatch && all_simple_items(
                            info.src@,
                            ps[1].0,
                            *info.value,
                            *ctx.args,
                            ctx.settings.case_sensitive,
                            old(state).collection_index,
                        ) && fuel >= 2 && can_render_bare(ctx) ==> res == Ok::<bool, Error>(true)
                            && final(state).out@ == old(state).out@ + simple_items_text(
                            info.src@,
                            ps[1].0,
                            info.placeholder.alignment as int,
                            *info.value,
                            *ctx.args,
                            ctx.settings.case_sensitive,
                            old(state).collection_index,
                        )),
                        Err(_) => res is Err,
                    },
                    None => true,
                },
                Err(_) => true,
            },
            match crate::formatter::options_spec(info.src@, *info.placeholder, ctx.convert) {
                Ok(expression) => match format_parts(
                    info.src@,
                    *info.placeholder,
                    self.split_char_spec(),
                    (usize::MAX - 1) as nat,
                ) {
                    Some(ps) => ps.len() == 2 && value_text_spec(*info.value) is Some ==> match inline_flags_spec(
                        self.options_spec().bits_spec(),
                    ) {
                        Ok(flags) => match regex_outcome(
                            flags + expression,
                            self.limit_spec(),
                            value_text_spec(*info.value)->0,
                        ) {
                            RegexOutcomeView::Matched(gs) => (res is Ok ==> renders_items(
                                old(state).rendered(),
                                final(state).rendered(),
                                info.src@,
                                ps[0].0,
                                self.matches_name_spec(),
                                *info.value,
                                gs,
                            )) && forall|g: Value|
                                #[trigger] groups_dictionary(g, self.matches_name_spec(), gs)
                                    && match_simple(
                                    info.src@,
                                    own_items(*info.placeholder),
                                    ps[0].0,
                                    self.matches_name_spec(),
                                    *info.value,
                                    g,
                                    *ctx.args,
                                    ctx.settings.case_sensitive,
                                    old(state).collection_index,
                                ) && fuel >= 2 && can_render_bare(ctx) ==> res == Ok::<bool, Error>(
                                    true,
                                ) && final(state).out@ == old(state).out@ + match_text(
                                    info.src@,
                                    own_items(*info.placeholder),
                                    ps[0].0,
                                    self.matches_name_spec(),
                                    info.placeholder.alignment as int,
                                    *info.value,
                                    g,
                                    *ctx.args,
                                    ctx.settings.case_sensitive,
                                    old(state).collection_index,
                                    ps[0].0.len(),
                                ),
                            _ => true,
                        },
                        Err(_) => true,
                    },
                    None => true,
                },
                Err(_) => true,
            },
            info.value is List || info.value is Dictionary ==> fails_with(
                res,
                "Matching a list or a map with \"ismatch\" is not supported; select a value from it"@,
                error_position_spec(info.placeholder) as int,
            ),
            value_text_spec(*info.value) is Some && crate::formatter::options_spec(
                info.src@,
                *info.placeholder,
                ctx.convert,
            ) is Ok ==> match format_parts(
                info.src@,
                *info.placeholder,
                self.split_char_spec(),
                (usize::MAX - 1) as nat,
            ) {
                None => declines_or_fails(
                    *info.placeholder,
                    " requires at least 2 format options."@,
                    res,
                ),
                Some(ps) => ps.len() != 2 ==> declines_or_fails(
                    *info.placeholder,
                    " requires at least 2 format options."@,
                    res,
                ),
            },
        decreases fuel, 8nat,
    {
        proof {
            if literal_format_of(info.src@, *info.placeholder) is Some {
                lemma_split_piece_bound(
                    literal_format_of(info.src@, *info.placeholder)->0,
                    self.split_char,
                );
            }
        }
        let text = match value_text(info.value) {
            Some(t) => t,
            None => {
                match info.value {
                    Value::List(_) | Value::Dictionary(_) => {
                        return Err(
                            plain_error(
                                &chars_of(
                                    "Matching a list or a map with \"ismatch\" is not supported; select a value from it",
                                ),
                                error_position(info.placeholder),
                            ),
                        );
                    },
                    _ => {
                        return Ok(false);
                    },
                }
            },
        };
        let expression = formatter_options(ctx, info)?;
        let (parent, formats) = match &info.placeholder.format {
            Some(f) => (f, split(info.src, f, self.split_char, usize::MAX - 1)),
            None => {
                return decline_or_error(info, " requires at least 2 format options.");
            },
        };
        if formats.len() != 2 {
            return decline_or_error(info, " requires at least 2 format options.");
        }
        let pattern = match self.pattern_for(&expression) {
            Ok(p) => p,
            Err(option) => {
                let mut issue: Vec<char> = Vec::new();
                push_str(&mut issue, "RegexOptions.");
                push_all(&mut issue, &option);
                push_str(&mut issue, " has no equivalent in the regex engine of this port");
                return Err(plain_error(&issue, error_position(info.placeholder)));
            },
        };
        let outcome = run_regex(
            to_string(&pattern).as_str(),
            self.backtrack_limit,
            to_string(&text).as_str(),
        );
        if let Some(issue) = regex_issue(&outcome, &expression, self.backtrack_limit) {
            return Err(plain_error(&issue, error_position(info.placeholder)));
        }
        match outcome {
            RegexOutcome::Matched(groups) => {
                let values = group_values(&groups);
                proof {
                    let ps = format_parts(
                        info.src@,
                        *info.placeholder,
                        self.split_char,
                        (usize::MAX - 1) as nat,
                    )->0;
                    let gs = groups@.map_values(|t: String| t@);
                    assert(string_list(values, gs));
                    assert forall|g: Value| #[trigger] groups_dictionary(g, self.matches_name_spec(), gs) implies (
                    match_simple(
                        info.src@,
                        parent.items@,
                        ps[0].0,
                        self.matches_name_spec(),
                        *info.value,
                        g,
                        *ctx.args,
                        ctx.settings.case_sensitive,
                        state.collection_index,
                    ) ==> match_simple(
                        info.src@,
                        parent.items@,
                        formats@[0].items@,
                        self.matches_name_spec(),
                        *info.value,
                        g,
                        *ctx.args,
                        ctx.settings.case_sensitive,
                        state.collection_index,
                    )) && match_text(
                        info.src@,
                        parent.items@,
                        formats@[0].items@,
                        self.matches_name_spec(),
                        info.placeholder.alignment as int,
                        *info.value,
                        g,
                        *ctx.args,
                        ctx.settings.case_sensitive,
                        state.collection_index,
                        ps[0].0.len(),
                    ) == match_text(
                        info.src@,
                        parent.items@,
                        ps[0].0,
                        self.matches_name_spec(),
                        info.placeholder.alignment as int,
                        *info.value,
                        g,
                        *ctx.args,
                        ctx.settings.case_sensitive,
                        state.collection_index,
                        ps[0].0.len(),
                    ) by {
                        lemma_match_alike(
                            info.src@,
                            parent.items@,
                            formats@[0].items@,
                            ps[0].0,
                            self.matches_name_spec(),
                            info.placeholder.alignment as int,
                            *info.value,
                            g,
                            *ctx.args,
                            ctx.settings.case_sensitive,
                            state.collection_index,
                            ps[0].0.len(),
                        );
                    }
                    if spanned_format_of(info.src@, *info.placeholder) is Some {
                        let t = spanned_format_of(info.src@, *info.placeholder)->0;
                        if t.len() < usize::MAX / 4 {
                            assert(spanned_literal_text(info.src@, formats@[0]) == Some(
                                split_spec(t, self.split_char)[0],
                            ));
                            if parent.items.len() == 0 {
                                assert(t =~= Seq::<char>::empty());
                            }
                        }
                    }
                }
                self.write_match(
                    ctx,
                    info,
                    parent,
                    &formats[0],
                    values,
                    state,
                    fuel,
                    Ghost(groups@.map_values(|t: String| t@)),
                )?;
                Ok(true)
            },
            _ => {
                proof {
                    if literal_format_of(info.src@, *info.placeholder) is Some {
                        let t = literal_format_of(info.src@, *info.placeholder)->0;
                        if t.len() < usize::MAX / 4 {
                            assert(literal_format_text(info.src@, formats@[1]) == Some(
                                split_spec(t, self.split_char)[1],
                            ));
                            lemma_literal_part_renders(
                                info.src@,
                                formats@[1],
                                info.placeholder.alignment as int,
                            );
                        }
                    }
                }
                proof {
                    let ps = format_parts(
                        info.src@,
                        *info.placeholder,
                        self.split_char,
                        (usize::MAX - 1) as nat,
                    )->0;
                    lemma_alike_renders_alike(
                        info.src@,
                        formats@[1].items@,
                        ps[1].0,
                        info.placeholder.alignment as int,
                        *info.value,
                        *ctx.args,
                        ctx.settings.case_sensitive,
                        state.collection_index,
                    );
                }
                format_as_child(ctx, info, &formats[1], info.value, state, fuel)?;
                Ok(true)
            },
        }
    }
}

} // verus!
