//! The flags that drive time formatting: four independent settings in one
//! value — abbreviation, the "less than" text, truncation, and the range of
//! units — each a group of flags.

use vstd::prelude::*;
use vstd::std_specs::bits::{u32_leading_zeros, axiom_u32_leading_zeros};
use crate::text::{chars_of, owned, push_str, to_string, eq_ignore_case, chars_equal_ignore_case};

verus! {

/// The options a time format carries, with .NET's bit values.
#[derive(Debug, Clone, Copy, PartialEq, Eq, Hash, Structural)]
pub struct TimeSpanFormatOptions(u32);

/// The flags of the abbreviation group.
pub open spec fn abbreviate_mask() -> u32 {
    0x3
}

/// The flags of the "less than" group.
pub open spec fn less_than_mask() -> u32 {
    0xC
}

/// The flags of the truncation group.
pub open spec fn truncate_mask() -> u32 {
    0xF0
}

/// The flags of the range group.
pub open spec fn range_mask() -> u32 {
    0x3F00
}

/// `a` with every group it leaves empty filled in from `b`.
pub open spec fn merge_spec(a: u32, b: u32) -> u32 {
    a | (if a & 0x3u32 == 0 {
        b & 0x3u32
    } else {
        0
    }) | (if a & 0xCu32 == 0 {
        b & 0xCu32
    } else {
        0
    }) | (if a & 0x3F00u32 == 0 {
        b & 0x3F00u32
    } else {
        0
    }) | (if a & 0xF0u32 == 0 {
        b & 0xF0u32
    } else {
        0
    })
}

/// The flags set among the bits below `k`, lowest first.
pub open spec fn flags_below(bits: u32, k: nat) -> Seq<u32>
    decreases k,
{
    if k == 0 {
        Seq::empty()
    } else {
        let rest = flags_below(bits, (k - 1) as nat);
        let flag = 1u32 << ((k - 1) as u32);
        if bits & flag != 0 {
            rest.push(flag)
        } else {
            rest
        }
    }
}

/// The flag a whole word sets — the keywords are matched ignoring ASCII
/// case — or no flag for a word that is no keyword.
pub open spec fn keyword_spec(word: Seq<char>) -> u32 {
    if eq_ignore_case(word, "w"@) || eq_ignore_case(word, "week"@) || eq_ignore_case(word, "weeks"@) {
        0x2000
    } else if eq_ignore_case(word, "d"@) || eq_ignore_case(word, "day"@) || eq_ignore_case(word, "days"@) {
        0x1000
    } else if eq_ignore_case(word, "h"@) || eq_ignore_case(word, "hour"@) || eq_ignore_case(word, "hours"@) {
        0x800
    } else if eq_ignore_case(word, "m"@) || eq_ignore_case(word, "minute"@) || eq_ignore_case(
        word,
        "minutes"@,
    ) {
        0x400
    } else if eq_ignore_case(word, "s"@) || eq_ignore_case(word, "second"@) || eq_ignore_case(
        word,
        "seconds"@,
    ) {
        0x200
    } else if eq_ignore_case(word, "ms"@) || eq_ignore_case(word, "millisecond"@) || eq_ignore_case(
        word,
        "milliseconds"@,
    ) {
        0x100
    } else if eq_ignore_case(word, "short"@) {
        0x10
    } else if eq_ignore_case(word, "auto"@) {
        0x20
    } else if eq_ignore_case(word, "fill"@) {
        0x40
    } else if eq_ignore_case(word, "full"@) {
        0x80
    } else if eq_ignore_case(word, "abbr"@) {
        0x1
    } else if eq_ignore_case(word, "noabbr"@) {
        0x2
    } else if eq_ignore_case(word, "less"@) {
        0x4
    } else if eq_ignore_case(word, "noless"@) {
        0x8
    } else {
        0
    }
}

/// What std's `char::is_alphanumeric` answers for `c`.
pub uninterp spec fn is_alphanumeric_spec(c: char) -> bool;

/// A character .NET's `\b` treats as part of a word.
pub open spec fn is_word_char_spec(c: char) -> bool {
    is_alphanumeric_spec(c) || c == '_'
}

/// std's `char::is_alphanumeric`: whether `c` has the Unicode `Alphabetic`
/// or `Numeric` property.
#[verifier::external_body]
fn is_alphanumeric(c: char) -> (res: bool)
    ensures
        res == is_alphanumeric_spec(c),
{
    c.is_alphanumeric()
}

/// The flags of the whole words of `s` so far, and the word being read.
pub open spec fn parse_fold(s: Seq<char>) -> (u32, Seq<char>)
    decreases s.len(),
{
    if s.len() == 0 {
        (0, Seq::empty())
    } else {
        let (acc, word) = parse_fold(s.drop_last());
        if is_word_char_spec(s.last()) {
            (acc, word.push(s.last()))
        } else {
            (acc | keyword_spec(word), Seq::empty())
        }
    }
}

/// The options a time format names: the flags of its whole words — runs of
/// word characters — that are keywords; everything else is ignored.
pub open spec fn parse_spec(s: Seq<char>) -> u32 {
    let (acc, word) = parse_fold(s);
    acc | keyword_spec(word)
}

/// [`keyword_spec`] of `word`.
pub fn keyword(word: &Vec<char>) -> (res: u32)
    ensures
        res == keyword_spec(word@),
{
    if chars_equal_ignore_case(word, &chars_of("w")) || chars_equal_ignore_case(word, &chars_of("week"))
        || chars_equal_ignore_case(word, &chars_of("weeks")) {
        0x2000
    } else if chars_equal_ignore_case(word, &chars_of("d")) || chars_equal_ignore_case(
        word,
        &chars_of("day"),
    ) || chars_equal_ignore_case(word, &chars_of("days")) {
        0x1000
    } else if chars_equal_ignore_case(word, &chars_of("h")) || chars_equal_ignore_case(
        word,
        &chars_of("hour"),
    ) || chars_equal_ignore_case(word, &chars_of("hours")) {
        0x800
    } else if chars_equal_ignore_case(word, &chars_of("m")) || chars_equal_ignore_case(
        word,
        &chars_of("minute"),
    ) || chars_equal_ignore_case(word, &chars_of("minutes")) {
        0x400
    } else if chars_equal_ignore_case(word, &chars_of("s")) || chars_equal_ignore_case(
        word,
        &chars_of("second"),
    ) || chars_equal_ignore_case(word, &chars_of("seconds")) {
        0x200
    } else if chars_equal_ignore_case(word, &chars_of("ms")) || chars_equal_ignore_case(
        word,
        &chars_of("millisecond"),
    ) || chars_equal_ignore_case(word, &chars_of("milliseconds")) {
        0x100
    } else if chars_equal_ignore_case(word, &chars_of("short")) {
        0x10
    } else if chars_equal_ignore_case(word, &chars_of("auto")) {
        0x20
    } else if chars_equal_ignore_case(word, &chars_of("fill")) {
        0x40
    } else if chars_equal_ignore_case(word, &chars_of("full")) {
        0x80
    } else if chars_equal_ignore_case(word, &chars_of("abbr")) {
        0x1
    } else if chars_equal_ignore_case(word, &chars_of("noabbr")) {
        0x2
    } else if chars_equal_ignore_case(word, &chars_of("less")) {
        0x4
    } else if chars_equal_ignore_case(word, &chars_of("noless")) {
        0x8
    } else {
        0
    }
}

/// Reads the options out of a time format, as [`parse_spec`] says.
pub fn parse(format_string: &str) -> (res: TimeSpanFormatOptions)
    ensures
        res.bits_spec() == parse_spec(format_string@),
        forall|a: int, b: int|
            #[trigger] whole_word(format_string@, a, b) ==> res.bits_spec() & keyword_spec(
                format_string@.subrange(a, b),
            ) == keyword_spec(format_string@.subrange(a, b)),
        forall|bit: u32|
            res.bits_spec() & bit != 0 ==> exists|a: int, b: int|
                #[trigger] whole_word(format_string@, a, b) && keyword_spec(
                    format_string@.subrange(a, b),
                ) & bit != 0,
{
    proof {
        law_parse_reads_whole_words(format_string@);
    }
    let s = chars_of(format_string);
    let mut acc: u32 = 0;
    let mut word: Vec<char> = Vec::new();
    let mut i: usize = 0;
    while i < s.len()
        invariant
            i <= s.len(),
            s@ == format_string@,
            (acc, word@) == parse_fold(s@.take(i as int)),
        decreases s.len() - i,
    {
        assert(s@.take(i + 1).drop_last() == s@.take(i as int));
        assert(s@.take(i + 1).last() == s@[i as int]);
        let c = s[i];
        if is_alphanumeric(c) || c == '_' {
            word.push(c);
        } else {
            acc = acc | keyword(&word);
            word = Vec::new();
        }
        i += 1;
    }
    assert(s@.take(s.len() as int) == s@);
    let res = TimeSpanFormatOptions(acc | keyword(&word));
    proof {
        assert forall|bit: u32| res.bits_spec() & bit != 0 implies exists|a: int, b: int|
            #[trigger] whole_word(format_string@, a, b) && keyword_spec(format_string@.subrange(a, b))
                & bit != 0 by {
            assert(parse_spec(format_string@) & bit != 0);
        }
    }
    res
}

/// The .NET name of the flag at bit `k`, or `?` for a bit with no name.
pub open spec fn flag_name_spec(k: nat) -> Seq<char> {
    if k == 0 {
        "Abbreviate"@
    } else if k == 1 {
        "AbbreviateOff"@
    } else if k == 2 {
        "LessThan"@
    } else if k == 3 {
        "LessThanOff"@
    } else if k == 4 {
        "TruncateShortest"@
    } else if k == 5 {
        "TruncateAuto"@
    } else if k == 6 {
        "TruncateFill"@
    } else if k == 7 {
        "TruncateFull"@
    } else if k == 8 {
        "RangeMilliSeconds"@
    } else if k == 9 {
        "RangeSeconds"@
    } else if k == 10 {
        "RangeMinutes"@
    } else if k == 11 {
        "RangeHours"@
    } else if k == 12 {
        "RangeDays"@
    } else if k == 13 {
        "RangeWeeks"@
    } else {
        "?"@
    }
}

fn flag_name(k: u32) -> (res: &'static str)
    ensures
        res@ == flag_name_spec(k as nat),
{
    if k == 0 {
        "Abbreviate"
    } else if k == 1 {
        "AbbreviateOff"
    } else if k == 2 {
        "LessThan"
    } else if k == 3 {
        "LessThanOff"
    } else if k == 4 {
        "TruncateShortest"
    } else if k == 5 {
        "TruncateAuto"
    } else if k == 6 {
        "TruncateFill"
    } else if k == 7 {
        "TruncateFull"
    } else if k == 8 {
        "RangeMilliSeconds"
    } else if k == 9 {
        "RangeSeconds"
    } else if k == 10 {
        "RangeMinutes"
    } else if k == 11 {
        "RangeHours"
    } else if k == 12 {
        "RangeDays"
    } else if k == 13 {
        "RangeWeeks"
    } else {
        "?"
    }
}

/// The names of the flags set among the bits below `k`, joined with `, `.
pub open spec fn names_below(bits: u32, k: nat) -> Seq<char>
    decreases k,
{
    if k == 0 {
        Seq::empty()
    } else {
        let rest = names_below(bits, (k - 1) as nat);
        if bits & (1u32 << ((k - 1) as u32)) != 0 {
            if rest.len() == 0 {
                flag_name_spec((k - 1) as nat)
            } else {
                rest + ", "@ + flag_name_spec((k - 1) as nat)
            }
        } else {
            rest
        }
    }
}

impl TimeSpanFormatOptions {
    /// The raw flag bits.
    pub closed spec fn bits_spec(&self) -> u32 {
        self.0
    }

    /// Every setting inherited from the defaults.
    pub fn NONE() -> (res: TimeSpanFormatOptions)
        ensures
            res.bits_spec() == 0,
    {
        TimeSpanFormatOptions(0x0)
    }

    /// Units abbreviated: `1d 2h`.
    pub fn ABBREVIATE() -> (res: TimeSpanFormatOptions)
        ensures
            res.bits_spec() == 0x1,
    {
        TimeSpanFormatOptions(0x1)
    }

    /// Units spelled out: `1 day 2 hours`.
    pub fn ABBREVIATE_OFF() -> (res: TimeSpanFormatOptions)
        ensures
            res.bits_spec() == 0x2,
    {
        TimeSpanFormatOptions(0x2)
    }

    /// "less than 1 (unit)" for a value below the smallest unit.
    pub fn LESS_THAN() -> (res: TimeSpanFormatOptions)
        ensures
            res.bits_spec() == 0x4,
    {
        TimeSpanFormatOptions(0x4)
    }

    /// "0 (units)" for a value below the smallest unit.
    pub fn LESS_THAN_OFF() -> (res: TimeSpanFormatOptions)
        ensures
            res.bits_spec() == 0x8,
    {
        TimeSpanFormatOptions(0x8)
    }

    /// Only the largest non-zero value in the range.
    pub fn TRUNCATE_SHORTEST() -> (res: TimeSpanFormatOptions)
        ensures
            res.bits_spec() == 0x10,
    {
        TimeSpanFormatOptions(0x10)
    }

    /// Every non-zero value in the range.
    pub fn TRUNCATE_AUTO() -> (res: TimeSpanFormatOptions)
        ensures
            res.bits_spec() == 0x20,
    {
        TimeSpanFormatOptions(0x20)
    }

    /// The largest non-zero value and every lesser one.
    pub fn TRUNCATE_FILL() -> (res: TimeSpanFormatOptions)
        ensures
            res.bits_spec() == 0x40,
    {
        TimeSpanFormatOptions(0x40)
    }

    /// Every value in the range.
    pub fn TRUNCATE_FULL() -> (res: TimeSpanFormatOptions)
        ensures
            res.bits_spec() == 0x80,
    {
        TimeSpanFormatOptions(0x80)
    }

    /// Milliseconds may be written.
    pub fn RANGE_MILLI_SECONDS() -> (res: TimeSpanFormatOptions)
        ensures
            res.bits_spec() == 0x100,
    {
        TimeSpanFormatOptions(0x100)
    }

    /// Seconds may be written.
    pub fn RANGE_SECONDS() -> (res: TimeSpanFormatOptions)
        ensures
            res.bits_spec() == 0x200,
    {
        TimeSpanFormatOptions(0x200)
    }

    /// Minutes may be written.
    pub fn RANGE_MINUTES() -> (res: TimeSpanFormatOptions)
        ensures
            res.bits_spec() == 0x400,
    {
        TimeSpanFormatOptions(0x400)
    }

    /// Hours may be written.
    pub fn RANGE_HOURS() -> (res: TimeSpanFormatOptions)
        ensures
            res.bits_spec() == 0x800,
    {
        TimeSpanFormatOptions(0x800)
    }

    /// Days may be written.
    pub fn RANGE_DAYS() -> (res: TimeSpanFormatOptions)
        ensures
            res.bits_spec() == 0x1000,
    {
        TimeSpanFormatOptions(0x1000)
    }

    /// Weeks may be written.
    pub fn RANGE_WEEKS() -> (res: TimeSpanFormatOptions)
        ensures
            res.bits_spec() == 0x2000,
    {
        TimeSpanFormatOptions(0x2000)
    }

    /// The abbreviation group.
    pub fn ABBREVIATE_MASK() -> (res: TimeSpanFormatOptions)
        ensures
            res.bits_spec() == abbreviate_mask(),
    {
        TimeSpanFormatOptions(0x3)
    }

    /// The "less than" group.
    pub fn LESS_THAN_MASK() -> (res: TimeSpanFormatOptions)
        ensures
            res.bits_spec() == less_than_mask(),
    {
        TimeSpanFormatOptions(0xC)
    }

    /// The truncation group.
    pub fn TRUNCATE_MASK() -> (res: TimeSpanFormatOptions)
        ensures
            res.bits_spec() == truncate_mask(),
    {
        TimeSpanFormatOptions(0xF0)
    }

    /// The range group.
    pub fn RANGE_MASK() -> (res: TimeSpanFormatOptions)
        ensures
            res.bits_spec() == range_mask(),
    {
        TimeSpanFormatOptions(0x3F00)
    }

    /// The raw flag bits.
    pub fn bits(self) -> (res: u32)
        ensures
            res == self.bits_spec(),
    {
        self.0
    }

    /// The options of these raw bits; bits that name no flag are kept.
    pub fn from_bits(bits: u32) -> (res: TimeSpanFormatOptions)
        ensures
            res.bits_spec() == bits,
    {
        TimeSpanFormatOptions(bits)
    }

    /// Whether every flag of `other` is set here.
    pub fn contains(self, other: TimeSpanFormatOptions) -> (res: bool)
        ensures
            res == (self.bits_spec() & other.bits_spec() == other.bits_spec()),
    {
        self.0 & other.0 == other.0
    }

    /// Whether no flag at all is set.
    pub fn is_empty(self) -> (res: bool)
        ensures
            res == (self.bits_spec() == 0),
    {
        self.0 == 0
    }

    /// The flags of `mask` that are set here.
    pub fn mask(self, mask: TimeSpanFormatOptions) -> (res: TimeSpanFormatOptions)
        ensures
            res.bits_spec() == self.bits_spec() & mask.bits_spec(),
    {
        TimeSpanFormatOptions(self.0 & mask.0)
    }

    /// Fills in every group this value leaves empty from `right`; a group
    /// that has a flag set is kept whole.
    pub fn merge(self, right: TimeSpanFormatOptions) -> (res: TimeSpanFormatOptions)
        ensures
            res.bits_spec() == merge_spec(self.bits_spec(), right.bits_spec()),
    {
        let a = self.0;
        let b = right.0;
        let x1: u32 = if a & 0x3 == 0 {
            b & 0x3
        } else {
            0
        };
        let x2: u32 = if a & 0xC == 0 {
            b & 0xC
        } else {
            0
        };
        let x3: u32 = if a & 0x3F00 == 0 {
            b & 0x3F00
        } else {
            0
        };
        let x4: u32 = if a & 0xF0 == 0 {
            b & 0xF0
        } else {
            0
        };
        TimeSpanFormatOptions(a | x1 | x2 | x3 | x4)
    }

    /// The flags that are set, lowest bit first.
    pub fn all_flags(self) -> (res: Vec<TimeSpanFormatOptions>)
        ensures
            res.len() == flags_below(self.bits_spec(), 32).len(),
            forall|i: int|
                0 <= i < res.len() ==> (#[trigger] res@[i]).bits_spec() == flags_below(
                    self.bits_spec(),
                    32,
                )[i],
            forall|i: int, j: int|
                0 <= i < j < res.len() ==> res@[i].bits_spec() < res@[j].bits_spec(),
            forall|i: int|
                0 <= i < res.len() ==> single_bit((#[trigger] res@[i]).bits_spec()) && self.bits_spec()
                    & res@[i].bits_spec() == res@[i].bits_spec(),
            or_all(flags_below(self.bits_spec(), 32)) == self.bits_spec(),
            res.len() == 0 <==> self.bits_spec() == 0,
    {
        proof {
            law_flags_list_every_set_bit(self.0);
        }
        let bits = self.0;
        let mut res: Vec<TimeSpanFormatOptions> = Vec::new();
        let mut k: u32 = 0;
        while k < 32
            invariant
                k <= 32,
                bits == self.bits_spec(),
                res.len() == flags_below(bits, k as nat).len(),
                forall|i: int|
                    0 <= i < res.len() ==> (#[trigger] res@[i]).bits_spec() == flags_below(
                        bits,
                        k as nat,
                    )[i],
            decreases 32 - k,
        {
            let flag: u32 = 1u32 << k;
            assert(flag == 1u32 << (((k + 1) - 1) as u32));
            if bits & flag != 0 {
                res.push(TimeSpanFormatOptions(flag));
            }
            k += 1;
        }
        res
    }

    /// The lowest flag that is set.
    pub fn first_flag(self) -> (res: Option<TimeSpanFormatOptions>)
        ensures
            flags_below(self.bits_spec(), 32).len() == 0 ==> res is None,
            flags_below(self.bits_spec(), 32).len() > 0 ==> (res matches Some(f) && f.bits_spec()
                == flags_below(self.bits_spec(), 32)[0]),
    {
        let flags = self.all_flags();
        if flags.len() == 0 {
            None
        } else {
            Some(flags[0])
        }
    }

    /// The highest flag that is set.
    pub fn last_flag(self) -> (res: Option<TimeSpanFormatOptions>)
        ensures
            flags_below(self.bits_spec(), 32).len() == 0 ==> res is None,
            flags_below(self.bits_spec(), 32).len() > 0 ==> (res matches Some(f) && f.bits_spec()
                == flags_below(self.bits_spec(), 32).last()),
            self.bits_spec() == 0 ==> res is None,
            self.bits_spec() != 0 ==> (res matches Some(f) && f.bits_spec() == 1u32 << ((31
                - u32_leading_zeros(self.bits_spec())) as u32)),
    {
        proof {
            law_flags_list_every_set_bit(self.0);
            if self.0 != 0 {
                law_last_flag_is_top_bit(self.0);
            }
        }
        let flags = self.all_flags();
        if flags.len() == 0 {
            None
        } else {
            Some(flags[flags.len() - 1])
        }
    }

    /// The flag names, `, `-separated, as .NET's `[Flags]` `ToString()`
    /// writes them; `None` for no flag.
    pub fn to_text(&self) -> (res: String)
        ensures
            self.bits_spec() == 0 ==> res@ == "None"@,
            self.bits_spec() != 0 ==> res@ == names_below(self.bits_spec(), 32),
    {
        let bits = self.0;
        if bits == 0 {
            return owned("None");
        }
        let mut out: Vec<char> = Vec::new();
        let mut k: u32 = 0;
        while k < 32
            invariant
                k <= 32,
                out@ == names_below(bits, k as nat),
            decreases 32 - k,
        {
            let flag: u32 = 1u32 << k;
            assert(flag == 1u32 << (((k + 1) - 1) as u32));
            if bits & flag != 0 {
                if out.len() > 0 {
                    push_str(&mut out, ", ");
                }
                push_str(&mut out, flag_name(k));
            }
            k += 1;
        }
        to_string(&out)
    }
}

impl std::ops::BitOr for TimeSpanFormatOptions {
    type Output = TimeSpanFormatOptions;

    fn bitor(self, rhs: TimeSpanFormatOptions) -> (res: TimeSpanFormatOptions)
        ensures
            res.bits_spec() == self.bits_spec() | rhs.bits_spec(),
    {
        TimeSpanFormatOptions(self.0 | rhs.0)
    }
}

impl vstd::std_specs::ops::BitOrSpecImpl for TimeSpanFormatOptions {
    open spec fn obeys_bitor_spec() -> bool {
        true
    }

    open spec fn bitor_req(self, rhs: TimeSpanFormatOptions) -> bool {
        true
    }

    closed spec fn bitor_spec(self, rhs: TimeSpanFormatOptions) -> TimeSpanFormatOptions {
        TimeSpanFormatOptions(self.0 | rhs.0)
    }
}

impl std::ops::BitOrAssign for TimeSpanFormatOptions {
    fn bitor_assign(&mut self, rhs: TimeSpanFormatOptions)
        ensures
            final(self).bits_spec() == old(self).bits_spec() | rhs.bits_spec(),
    {
        self.0 = self.0 | rhs.0;
    }
}

impl std::ops::BitAnd for TimeSpanFormatOptions {
    type Output = TimeSpanFormatOptions;

    fn bitand(self, rhs: TimeSpanFormatOptions) -> (res: TimeSpanFormatOptions)
        ensures
            res.bits_spec() == self.bits_spec() & rhs.bits_spec(),
    {
        TimeSpanFormatOptions(self.0 & rhs.0)
    }
}

impl vstd::std_specs::ops::BitAndSpecImpl for TimeSpanFormatOptions {
    open spec fn obeys_bitand_spec() -> bool {
        true
    }

    open spec fn bitand_req(self, rhs: TimeSpanFormatOptions) -> bool {
        true
    }

    closed spec fn bitand_spec(self, rhs: TimeSpanFormatOptions) -> TimeSpanFormatOptions {
        TimeSpanFormatOptions(self.0 & rhs.0)
    }
}

/// The flags OR-ed together.
pub open spec fn or_all(flags: Seq<u32>) -> u32
    decreases flags.len(),
{
    if flags.len() == 0 {
        0
    } else {
        or_all(flags.drop_last()) | flags.last()
    }
}

/// The bits below `k`.
pub open spec fn low_mask(k: u32) -> u32 {
    if k >= 32 {
        0xffff_ffffu32
    } else {
        ((1u32 << k) - 1) as u32
    }
}

/// Whether `x` has exactly one bit set.
pub open spec fn single_bit(x: u32) -> bool {
    x != 0 && x & ((x - 1) as u32) == 0
}

proof fn lemma_bit_step(bits: u32, k: u32)
    requires
        k < 32,
    ensures
        single_bit(1u32 << k),
        bits & (1u32 << k) != 0 ==> bits & (1u32 << k) == 1u32 << k,
        bits & (1u32 << k) != 0 ==> (bits & low_mask(k)) | (1u32 << k) == bits & low_mask(
            (k + 1) as u32,
        ),
        bits & (1u32 << k) == 0 ==> bits & low_mask(k) == bits & low_mask((k + 1) as u32),
        (1u32 << k) as u64 == 1u64 << k,
        ((bits & low_mask((k + 1) as u32)) as u64) < 2 * ((1u32 << k) as u64),
        ((bits & low_mask(k)) as u64) <= (bits & low_mask((k + 1) as u32)) as u64,
{
    let f = 1u32 << k;
    assert(f != 0 && f & ((f - 1) as u32) == 0) by (bit_vector)
        requires
            k < 32,
            f == 1u32 << k,
    ;
    assert(bits & f != 0 ==> bits & f == f) by (bit_vector)
        requires
            k < 32,
            f == 1u32 << k,
    ;
    let lo = low_mask(k);
    let hi = low_mask((k + 1) as u32);
    if k + 1 < 32 {
        assert(lo == ((1u32 << k) - 1) as u32);
        assert(hi == ((1u32 << ((k + 1) as u32)) - 1) as u32);
        assert(bits & f != 0 ==> (bits & lo) | f == bits & hi) by (bit_vector)
            requires
                k + 1 < 32,
                f == 1u32 << k,
                lo == ((1u32 << k) - 1) as u32,
                hi == ((1u32 << ((k + 1) as u32)) - 1) as u32,
        ;
        assert(bits & f == 0 ==> bits & lo == bits & hi) by (bit_vector)
            requires
                k + 1 < 32,
                f == 1u32 << k,
                lo == ((1u32 << k) - 1) as u32,
                hi == ((1u32 << ((k + 1) as u32)) - 1) as u32,
        ;
        assert(((bits & hi) as u64) < 2 * (f as u64) && ((bits & lo) as u64) <= (bits & hi) as u64
            && f as u64 == 1u64 << k) by (bit_vector)
            requires
                k + 1 < 32,
                f == 1u32 << k,
                lo == ((1u32 << k) - 1) as u32,
                hi == ((1u32 << ((k + 1) as u32)) - 1) as u32,
        ;
    } else {
        assert(k == 31);
        assert(lo == ((1u32 << k) - 1) as u32);
        assert(hi == 0xffff_ffffu32);
        assert(bits & f != 0 ==> (bits & lo) | f == bits & hi) by (bit_vector)
            requires
                k == 31,
                f == 1u32 << k,
                lo == ((1u32 << k) - 1) as u32,
                hi == 0xffff_ffffu32,
        ;
        assert(bits & f == 0 ==> bits & lo == bits & hi) by (bit_vector)
            requires
                k == 31,
                f == 1u32 << k,
                lo == ((1u32 << k) - 1) as u32,
                hi == 0xffff_ffffu32,
        ;
        assert(((bits & hi) as u64) < 2 * (f as u64) && ((bits & lo) as u64) <= (bits & hi) as u64
            && f as u64 == 1u64 << k) by (bit_vector)
            requires
                k == 31,
                f == 1u32 << k,
                lo == ((1u32 << k) - 1) as u32,
                hi == 0xffff_ffffu32,
        ;
    }
}

proof fn lemma_flags_prefix(bits: u32, k: u32)
    requires
        k <= 32,
    ensures
        forall|i: int, j: int|
            0 <= i < j < flags_below(bits, k as nat).len() ==> flags_below(bits, k as nat)[i]
                < flags_below(bits, k as nat)[j],
        forall|i: int|
            0 <= i < flags_below(bits, k as nat).len() ==> single_bit(
                #[trigger] flags_below(bits, k as nat)[i],
            ) && bits & flags_below(bits, k as nat)[i] == flags_below(bits, k as nat)[i]
                && (flags_below(bits, k as nat)[i] as u64) < (1u64 << k),
        or_all(flags_below(bits, k as nat)) == bits & low_mask(k),
        flags_below(bits, k as nat).len() > 0 ==> ((bits & low_mask(k)) as u64) < 2 * (flags_below(
            bits,
            k as nat,
        ).last() as u64),
    decreases k,
{
    if k == 0 {
        assert(low_mask(0) == 0u32) by (bit_vector);
        assert(bits & 0u32 == 0u32) by (bit_vector);
    } else {
        let j = (k - 1) as u32;
        lemma_flags_prefix(bits, j);
        lemma_bit_step(bits, j);
        assert((1u64 << j) < (1u64 << k)) by (bit_vector)
            requires
                j < 32,
                k == j + 1,
        ;
        let before = flags_below(bits, j as nat);
        assert(((k - 1) as nat) == j as nat);
        if bits & (1u32 << j) != 0 {
            assert(flags_below(bits, k as nat) == before.push(1u32 << j));
            assert(flags_below(bits, k as nat).drop_last() == before);
        } else {
            assert(flags_below(bits, k as nat) == before);
        }
    }
}

/// The flags of a value, as [`TimeSpanFormatOptions::all_flags`] lists
/// them, come lowest first, each a single bit that is set, and together
/// they are every bit that is set; the last of them — what
/// [`TimeSpanFormatOptions::last_flag`] gives — is the highest bit set, as
/// nothing set reaches twice its value.
pub proof fn law_flags_list_every_set_bit(bits: u32)
    ensures
        forall|i: int, j: int|
            0 <= i < j < flags_below(bits, 32).len() ==> flags_below(bits, 32)[i] < flags_below(
                bits,
                32,
            )[j],
        forall|i: int|
            0 <= i < flags_below(bits, 32).len() ==> single_bit(#[trigger] flags_below(bits, 32)[i])
                && bits & flags_below(bits, 32)[i] == flags_below(bits, 32)[i],
        or_all(flags_below(bits, 32)) == bits,
        flags_below(bits, 32).len() == 0 <==> bits == 0,
        flags_below(bits, 32).len() > 0 ==> (bits as u64) < 2 * (flags_below(bits, 32).last() as u64),
{
    lemma_flags_prefix(bits, 32);
    assert(bits & 0xffff_ffffu32 == bits) by (bit_vector);
    if flags_below(bits, 32).len() > 0 {
        let f = flags_below(bits, 32)[0];
        assert(bits & f == f && f != 0);
        assert(bits & f == f && f != 0 ==> bits != 0) by (bit_vector);
    }
}

/// The highest flag listed is the top set bit: the one `leading_zeros`
/// counts down to.
pub proof fn law_last_flag_is_top_bit(bits: u32)
    requires
        bits != 0,
    ensures
        flags_below(bits, 32).len() > 0,
        flags_below(bits, 32).last() == 1u32 << ((31 - u32_leading_zeros(bits)) as u32),
{
    law_flags_list_every_set_bit(bits);
    axiom_u32_leading_zeros(bits);
    let last = flags_below(bits, 32).last();
    let lz = u32_leading_zeros(bits);
    assert(single_bit(last) && bits & last == last);
    assert((bits as u64) < 2 * (last as u64));
    assert(lz < 32);
    assert((bits >> ((31 - lz) as u32)) & 1u32 != 0u32);
    assert(bits >> ((32 - lz) as u32) == 0);
    assert(last == 1u32 << ((31 - lz) as u32)) by (bit_vector)
        requires
            last != 0 && last & ((last - 1) as u32) == 0,
            bits & last == last,
            (bits as u64) < 2 * (last as u64),
            lz < 32,
            (bits >> ((31 - lz) as u32)) & 1u32 != 0u32,
            bits >> ((32 - lz) as u32) == 0,
    ;
}

/// Whether `s[a..b]` is a whole word of `s`: a non-empty run of word
/// characters with no word character right before or after it.
pub open spec fn whole_word(s: Seq<char>, a: int, b: int) -> bool {
    &&& 0 <= a < b <= s.len()
    &&& forall|k: int| a <= k < b ==> is_word_char_spec(#[trigger] s[k])
    &&& (a == 0 || !is_word_char_spec(s[a - 1]))
    &&& (b == s.len() || !is_word_char_spec(s[b]))
}

proof fn lemma_or_bits(acc: u32, x: u32, y: u32, bit: u32)
    ensures
        acc & y == y ==> (acc | x) & y == y,
        x & x == x,
        (acc | x) & bit != 0 ==> acc & bit != 0 || x & bit != 0,
        (acc | 0u32) == acc,
{
    assert(acc & y == y ==> (acc | x) & y == y) by (bit_vector);
    assert(x & x == x) by (bit_vector);
    assert((acc | x) & bit != 0 ==> acc & bit != 0 || x & bit != 0) by (bit_vector);
    assert((acc | 0u32) == acc) by (bit_vector);
}

proof fn lemma_no_keyword_in_nothing()
    ensures
        keyword_spec(Seq::<char>::empty()) == 0,
{
    reveal_strlit("w");
    reveal_strlit("week");
    reveal_strlit("weeks");
    reveal_strlit("d");
    reveal_strlit("day");
    reveal_strlit("days");
    reveal_strlit("h");
    reveal_strlit("hour");
    reveal_strlit("hours");
    reveal_strlit("m");
    reveal_strlit("minute");
    reveal_strlit("minutes");
    reveal_strlit("s");
    reveal_strlit("second");
    reveal_strlit("seconds");
    reveal_strlit("ms");
    reveal_strlit("millisecond");
    reveal_strlit("milliseconds");
    reveal_strlit("short");
    reveal_strlit("auto");
    reveal_strlit("fill");
    reveal_strlit("full");
    reveal_strlit("abbr");
    reveal_strlit("noabbr");
    reveal_strlit("less");
    reveal_strlit("noless");
}

/// What [`parse_fold`] has after the first `n` characters of `s`: the word
/// being read is the run of word characters that ends the prefix; the flags
/// hold the keyword of every whole word of `s` that ends before the last
/// character read, and no bit that none of them brings.
proof fn lemma_parse_fold(s: Seq<char>, n: int)
    requires
        0 <= n <= s.len(),
    ensures
        ({
            let (acc, word) = parse_fold(s.take(n));
            let start = n - word.len();
            &&& 0 <= start <= n
            &&& word == s.subrange(start, n)
            &&& forall|k: int| start <= k < n ==> is_word_char_spec(#[trigger] s[k])
            &&& (start == 0 || !is_word_char_spec(s[start - 1]))
            &&& forall|a: int, b: int|
                b < n && #[trigger] whole_word(s, a, b) ==> acc & keyword_spec(s.subrange(a, b))
                    == keyword_spec(s.subrange(a, b))
            &&& forall|bit: u32|
                acc & bit != 0 ==> exists|a: int, b: int|
                    b < n && #[trigger] whole_word(s, a, b) && keyword_spec(s.subrange(a, b)) & bit
                        != 0
        }),
    decreases n,
{
    if n == 0 {
        assert(s.take(0) =~= Seq::<char>::empty());
        assert(s.subrange(0, 0) =~= Seq::<char>::empty());
        assert forall|bit: u32| 0u32 & bit == 0 by {
            assert(0u32 & bit == 0) by (bit_vector);
        }
    } else {
        lemma_parse_fold(s, n - 1);
        assert(s.take(n).drop_last() =~= s.take(n - 1));
        assert(s.take(n).last() == s[n - 1]);
        let (acc0, word0) = parse_fold(s.take(n - 1));
        let start0 = n - 1 - word0.len();
        let c = s[n - 1];
        if is_word_char_spec(c) {
            assert(word0.push(c) =~= s.subrange(start0, n));
            assert forall|a: int, b: int| b < n && #[trigger] whole_word(s, a, b) implies acc0
                & keyword_spec(s.subrange(a, b)) == keyword_spec(s.subrange(a, b)) by {
                if b == n - 1 {
                    assert(!is_word_char_spec(s[b]));
                }
            }
            assert forall|bit: u32| acc0 & bit != 0 implies exists|a: int, b: int|
                b < n && #[trigger] whole_word(s, a, b) && keyword_spec(s.subrange(a, b)) & bit
                    != 0 by {
                let (a, b) = choose|a: int, b: int|
                    b < n - 1 && #[trigger] whole_word(s, a, b) && keyword_spec(s.subrange(a, b))
                        & bit != 0;
                assert(whole_word(s, a, b));
            }
        } else {
            let kw = keyword_spec(word0);
            assert(s.subrange(n, n) =~= Seq::<char>::empty());
            assert forall|a: int, b: int| b < n && #[trigger] whole_word(s, a, b) implies (acc0
                | kw) & keyword_spec(s.subrange(a, b)) == keyword_spec(s.subrange(a, b)) by {
                lemma_or_bits(acc0, kw, keyword_spec(s.subrange(a, b)), 0);
                if b == n - 1 {
                    // The word just ended is the run read so far.
                    if a < start0 {
                        assert(is_word_char_spec(s[start0 - 1]));
                    }
                    if a > start0 {
                        assert(is_word_char_spec(s[a - 1]));
                    }
                    assert(a == start0);
                    lemma_or_bits(kw, acc0, kw, 0);
                    assert((acc0 | kw) == (kw | acc0)) by (bit_vector);
                } else {
                    assert(b < n - 1);
                }
            }
            assert forall|bit: u32| (acc0 | kw) & bit != 0 implies exists|a: int, b: int|
                b < n && #[trigger] whole_word(s, a, b) && keyword_spec(s.subrange(a, b)) & bit
                    != 0 by {
                lemma_or_bits(acc0, kw, 0, bit);
                if acc0 & bit != 0 {
                    let (a, b) = choose|a: int, b: int|
                        b < n - 1 && #[trigger] whole_word(s, a, b) && keyword_spec(
                            s.subrange(a, b),
                        ) & bit != 0;
                    assert(whole_word(s, a, b));
                } else {
                    lemma_no_keyword_in_nothing();
                    if word0.len() == 0 {
                        assert(word0 =~= Seq::<char>::empty());
                        assert(kw == 0);
                        assert(0u32 & bit == 0) by (bit_vector);
                    }
                    assert(whole_word(s, start0, n - 1));
                }
            }
        }
    }
}

/// The options a time format names are the flags of its whole words: every
/// whole word that is a keyword sets its flag, and every flag set comes from
/// such a word — `hours,minutes` names hours and minutes, `1hours` nothing.
pub proof fn law_parse_reads_whole_words(s: Seq<char>)
    ensures
        forall|a: int, b: int|
            #[trigger] whole_word(s, a, b) ==> parse_spec(s) & keyword_spec(s.subrange(a, b))
                == keyword_spec(s.subrange(a, b)),
        forall|bit: u32|
            parse_spec(s) & bit != 0 ==> exists|a: int, b: int|
                #[trigger] whole_word(s, a, b) && keyword_spec(s.subrange(a, b)) & bit != 0,
{
    lemma_parse_fold(s, s.len() as int);
    assert(s.take(s.len() as int) =~= s);
    let (acc, word) = parse_fold(s);
    let start = s.len() - word.len();
    let kw = keyword_spec(word);
    lemma_no_keyword_in_nothing();
    assert forall|a: int, b: int| #[trigger] whole_word(s, a, b) implies parse_spec(s) & keyword_spec(
        s.subrange(a, b),
    ) == keyword_spec(s.subrange(a, b)) by {
        lemma_or_bits(acc, kw, keyword_spec(s.subrange(a, b)), 0);
        if b == s.len() {
            if a < start {
                assert(is_word_char_spec(s[start - 1]));
            }
            if a > start {
                assert(is_word_char_spec(s[a - 1]));
            }
            assert(a == start);
            lemma_or_bits(kw, acc, kw, 0);
            assert((acc | kw) == (kw | acc)) by (bit_vector);
        }
    }
    assert forall|bit: u32| parse_spec(s) & bit != 0 implies exists|a: int, b: int|
        #[trigger] whole_word(s, a, b) && keyword_spec(s.subrange(a, b)) & bit != 0 by {
        lemma_or_bits(acc, kw, 0, bit);
        if acc & bit != 0 {
            let (a, b) = choose|a: int, b: int|
                b < s.len() && #[trigger] whole_word(s, a, b) && keyword_spec(s.subrange(a, b))
                    & bit != 0;
            assert(whole_word(s, a, b));
        } else {
            if word.len() == 0 {
                assert(word =~= Seq::<char>::empty());
                assert(0u32 & bit == 0) by (bit_vector);
            }
            assert(whole_word(s, start, s.len() as int));
        }
    }
}

/// Merging keeps every flag that was set: the options a format names are
/// never overridden by the defaults.
pub proof fn law_merge_keeps_named_flags(a: u32, b: u32)
    ensures
        merge_spec(a, b) & a == a,
{
    let x1 = if a & 0x3u32 == 0 {
        b & 0x3u32
    } else {
        0
    };
    let x2 = if a & 0xCu32 == 0 {
        b & 0xCu32
    } else {
        0
    };
    let x3 = if a & 0x3F00u32 == 0 {
        b & 0x3F00u32
    } else {
        0
    };
    let x4 = if a & 0xF0u32 == 0 {
        b & 0xF0u32
    } else {
        0
    };
    assert((a | x1 | x2 | x3 | x4) & a == a) by (bit_vector);
}

/// Merging with the same defaults twice changes nothing more.
pub proof fn law_merge_idempotent(a: u32, b: u32)
    ensures
        merge_spec(merge_spec(a, b), b) == merge_spec(a, b),
{
    let m = merge_spec(a, b);
    assert(merge_spec(a, b) == a | (if a & 0x3u32 == 0 {
        b & 0x3u32
    } else {
        0
    }) | (if a & 0xCu32 == 0 {
        b & 0xCu32
    } else {
        0
    }) | (if a & 0x3F00u32 == 0 {
        b & 0x3F00u32
    } else {
        0
    }) | (if a & 0xF0u32 == 0 {
        b & 0xF0u32
    } else {
        0
    }));
    assert((a | (if a & 0x3u32 == 0 {
        b & 0x3u32
    } else {
        0
    }) | (if a & 0xCu32 == 0 {
        b & 0xCu32
    } else {
        0
    }) | (if a & 0x3F00u32 == 0 {
        b & 0x3F00u32
    } else {
        0
    }) | (if a & 0xF0u32 == 0 {
        b & 0xF0u32
    } else {
        0
    })) == m ==> m | (if m & 0x3u32 == 0 {
        b & 0x3u32
    } else {
        0
    }) | (if m & 0xCu32 == 0 {
        b & 0xCu32
    } else {
        0
    }) | (if m & 0x3F00u32 == 0 {
        b & 0x3F00u32
    } else {
        0
    }) | (if m & 0xF0u32 == 0 {
        b & 0xF0u32
    } else {
        0
    }) == m) by (bit_vector);
}

} // verus!
