//! `{0:substr(start,length)}` writes part of a string. Both numbers may be
//! negative, which counts from the end, and `length` may be left out, which
//! takes everything from `start` on. Positions and lengths count UTF-16 code
//! units, as .NET strings do.
//!
//! The formatter only handles a string or a null value, never auto-detects
//! unless told to, and splits its options on a comma.

use vstd::prelude::*;
use crate::text::{owned, chars_of, split_chars, split_spec, trim, trim_spec, aligned,
    lemma_split_join, utf16_len_spec, utf16_units, lemma_utf16_len_bounds, utf16_length, push_str,
    to_string};
use crate::number::{all_digits, digits_value, lemma_digits_value_prefix};
use crate::dotnet_messages::{not_in_a_correct_format, int32_overflow, out_of_range};
use crate::value::{Value, is_scalar};
use crate::error::Error;
use crate::parsing::{has_nested, Placeholder};
use crate::formatter::{is_bare, Ctx, Info, State, formatter_options, format_as_child, write_text,
    decline_or_error, plain_error, formatting_error, error_position, error_position_spec,
    options_spec, all_simple_items, simple_items_text, can_render_bare, string_with_text,
    lemma_same_text_renders_alike};
use super::{InvalidSplitChar, valid_split_char, is_valid_split_char};

verus! {

/// What happens when the start index and the length reach past the end of
/// the string. A start or a length that stays negative is out of range under
/// every behavior.
#[derive(Debug, Clone, Copy, PartialEq, Eq, Hash, Structural)]
pub enum SubStringOutOfRangeBehavior {
    /// The empty string.
    ReturnEmptyString,
    /// The rest of the string from the start index.
    ReturnStartIndexToEndOfString,
    /// The out-of-range error.
    ThrowException,
}

impl SubStringOutOfRangeBehavior {
    /// The default: the empty string.
    pub fn default() -> (res: SubStringOutOfRangeBehavior)
        ensures
            res == SubStringOutOfRangeBehavior::ReturnEmptyString,
    {
        SubStringOutOfRangeBehavior::ReturnEmptyString
    }
}

/// Why an option is not a number .NET's `int.Parse` reads.
#[derive(Debug, Clone, Copy, PartialEq, Eq, Structural)]
pub enum IntError {
    /// Not white space, an optional sign, digits and white space.
    Format,
    /// A number outside the range of a 32-bit integer.
    Overflow,
}

/// .NET `int.Parse`: white space, an optional `-` or `+`, at least one ASCII
/// digit, white space; a value outside `i32` overflows.
pub open spec fn int_parse_spec(s: Seq<char>) -> Result<int, IntError> {
    let t = trim_spec(s);
    let negative = t.len() > 0 && t[0] == '-';
    let d = if t.len() > 0 && (t[0] == '-' || t[0] == '+') {
        t.drop_first()
    } else {
        t
    };
    if d.len() == 0 || !all_digits(d) {
        Err(IntError::Format)
    } else {
        let v = if negative {
            -(digits_value(d) as int)
        } else {
            digits_value(d) as int
        };
        if v < i32::MIN || v > i32::MAX {
            Err(IntError::Overflow)
        } else {
            Ok(v)
        }
    }
}

/// [`int_parse_spec`] of `s`.
#[verifier::loop_isolation(false)]
pub fn parse_int(s: &Vec<char>) -> (res: Result<i32, IntError>)
    ensures
        res matches Ok(v) ==> int_parse_spec(s@) == Ok::<int, IntError>(v as int),
        res matches Err(e) ==> int_parse_spec(s@) == Err::<int, IntError>(e),
{
    let t = trim(s);
    let negative = t.len() > 0 && t[0] == '-';
    let from: usize = if t.len() > 0 && (t[0] == '-' || t[0] == '+') {
        1
    } else {
        0
    };
    let ghost d = if from == 1 {
        t@.drop_first()
    } else {
        t@
    };
    assert(d == t@.skip(from as int));
    if from >= t.len() {
        return Err(IntError::Format);
    }
    let mut i: usize = from;
    while i < t.len()
        invariant
            from <= i <= t.len(),
            d == t@.skip(from as int),
            forall|k: int| 0 <= k < i - from ==> '0' <= #[trigger] d[k] && d[k] <= '9',
        decreases t.len() - i,
    {
        if !('0' <= t[i] && t[i] <= '9') {
            assert(d[i - from] == t@[i as int]);
            assert(!all_digits(d));
            return Err(IntError::Format);
        }
        i += 1;
    }
    assert(all_digits(d));
    let mut value: u64 = 0;
    let mut j: usize = from;
    while j < t.len()
        invariant
            from <= j <= t.len(),
            d == t@.skip(from as int),
            all_digits(d),
            value == digits_value(d.take(j - from)),
            value <= 2147483648,
        decreases t.len() - j,
    {
        proof {
            assert(d[j - from] == t@[j as int]);
            assert(d.take(j - from + 1).drop_last() == d.take(j - from));
            assert(d.take(j - from + 1).last() == t@[j as int]);
        }
        value = value * 10 + ((t[j] as u32) - 48) as u64;
        if value > 2147483648 {
            proof {
                lemma_digits_value_prefix(d, (j - from + 1) as nat);
            }
            return Err(IntError::Overflow);
        }
        j += 1;
    }
    assert(d.take(d.len() as int) == d);
    if negative {
        Ok((0 - (value as i64)) as i32)
    } else if value > 2147483647 {
        Err(IntError::Overflow)
    } else {
        Ok(value as i32)
    }
}

/// `x` wrapped into the range of an `i32`, for an `x` at most one wrap away
/// from it: the result of .NET's unchecked `int` addition.
pub open spec fn wrap32(x: int) -> int {
    if x > i32::MAX {
        x - 0x1_0000_0000
    } else if x < i32::MIN {
        x + 0x1_0000_0000
    } else {
        x
    }
}

/// [`wrap32`] of a sum of two `i32`.
pub fn wrapping_add32(a: i32, b: i32) -> (res: i32)
    ensures
        res == wrap32(a + b),
{
    let x = (a as i64) + (b as i64);
    if x > 2147483647 {
        (x - 0x1_0000_0000) as i32
    } else if x < -2147483648 {
        (x + 0x1_0000_0000) as i32
    } else {
        x as i32
    }
}

/// [`wrap32`] of a difference of two `i32`.
pub fn wrapping_sub32(a: i32, b: i32) -> (res: i32)
    ensures
        res == wrap32(a - b),
{
    let x = (a as i64) - (b as i64);
    if x > 2147483647 {
        (x - 0x1_0000_0000) as i32
    } else if x < -2147483648 {
        (x + 0x1_0000_0000) as i32
    } else {
        x as i32
    }
}

/// The length of a text in UTF-16 code units, saturated to `i32::MAX`.
pub open spec fn text_len_i32(s: Seq<char>) -> int {
    if utf16_len_spec(s) > i32::MAX {
        i32::MAX as int
    } else {
        utf16_len_spec(s) as int
    }
}

/// .NET `GetStartAndLength`: a negative start counts from the end and is
/// then clipped to the end; a negative length counts back from the end.
pub open spec fn start_and_length_spec(len: int, start: int, length: int) -> (int, int) {
    let s1 = if start < 0 {
        wrap32(len + start)
    } else {
        start
    };
    let s2 = if s1 > len {
        len
    } else {
        s1
    };
    let l1 = if length < 0 {
        wrap32(wrap32(len - s2) + length)
    } else {
        length
    };
    (s2, l1)
}

/// The range `(start, count)` of code units to cut, or `None` when it is out
/// of range, given the text's length, the start and the length as
/// [`start_and_length_spec`] gives them, whether only the start was given,
/// and the behavior.
pub open spec fn cut_range_spec(
    len: int,
    start: int,
    length: int,
    start_only: bool,
    behavior: SubStringOutOfRangeBehavior,
) -> Option<(int, int)> {
    let past_end = wrap32(start + length) > len;
    let l = if past_end && behavior == SubStringOutOfRangeBehavior::ReturnEmptyString {
        0
    } else if past_end && behavior == SubStringOutOfRangeBehavior::ReturnStartIndexToEndOfString {
        wrap32(len - start)
    } else {
        length
    };
    if start < 0 || start > len {
        None
    } else if start_only {
        Some((start, len - start))
    } else if l < 0 || l > len - start {
        None
    } else {
        Some((start, l))
    }
}

/// Why the string cannot be cut.
#[derive(Debug, Clone, Copy, PartialEq, Eq, Structural)]
pub enum CutError {
    /// The option at this index is not a number.
    NotANumber(usize),
    /// An option is a number outside the range of an `i32`.
    Overflow,
    /// The range is out of the string.
    OutOfRange,
}

/// The characters of the code units `start .. end` of `s`: a character that
/// lies wholly inside is kept, one that the range cuts through — half of a
/// surrogate pair — becomes U+FFFD, the rest are left out.
pub open spec fn utf16_slice_spec(s: Seq<char>, start: int, end: int) -> Seq<char>
    decreases s.len(),
{
    if s.len() == 0 {
        Seq::<char>::empty()
    } else {
        let init = utf16_slice_spec(s.drop_last(), start, end);
        let first = utf16_len_spec(s.drop_last()) as int;
        let last = first + utf16_units(s.last());
        if last <= start || first >= end {
            init
        } else if first >= start && last <= end {
            init.push(s.last())
        } else {
            init.push('\u{FFFD}')
        }
    }
}

/// The string cut out of `text` by the options: the text, or the error.
pub open spec fn cut_spec(
    text: Seq<char>,
    params: Seq<Seq<char>>,
    behavior: SubStringOutOfRangeBehavior,
) -> Result<Seq<char>, CutError> {
    let len = text_len_i32(text);
    match int_parse_spec(params[0]) {
        Err(IntError::Format) => Err(CutError::NotANumber(0)),
        Err(IntError::Overflow) => Err(CutError::Overflow),
        Ok(start) => {
            let length = if params.len() > 1 {
                int_parse_spec(params[1])
            } else {
                Ok(0)
            };
            match length {
                Err(IntError::Format) => Err(CutError::NotANumber(1)),
                Err(IntError::Overflow) => Err(CutError::Overflow),
                Ok(length) => {
                    let (s, l) = start_and_length_spec(len, start, length);
                    match cut_range_spec(len, s, l, params.len() == 1, behavior) {
                        None => Err(CutError::OutOfRange),
                        Some((a, n)) => Ok(utf16_slice_spec(text, a, a + n)),
                    }
                },
            }
        },
    }
}

/// What the options make of a string value, when they resolve and are not
/// empty: [`cut_spec`] of the string and the options split on `sep`. `None`
/// for any other value or options.
pub open spec fn cut_outcome(
    options: Result<Seq<char>, (Seq<char>, int)>,
    value: Value,
    sep: char,
    behavior: SubStringOutOfRangeBehavior,
) -> Option<Result<Seq<char>, CutError>> {
    match options {
        Ok(opts) => match value {
            Value::String(s) => if opts.len() > 0 && s@.len() <= usize::MAX / 2 {
                Some(cut_spec(s@, split_spec(opts, sep), behavior))
            } else {
                None
            },
            _ => None,
        },
        Err(_) => None,
    }
}

/// [`utf16_slice_spec`] of `s`.
pub fn slice_units(s: &Vec<char>, start: i64, end: i64) -> (res: Vec<char>)
    requires
        s.len() <= usize::MAX / 2,
    ensures
        res@ == utf16_slice_spec(s@, start as int, end as int),
{
    let mut out: Vec<char> = Vec::new();
    let mut at: u64 = 0;
    let mut i: usize = 0;
    while i < s.len()
        invariant
            i <= s.len() <= usize::MAX / 2,
            at == utf16_len_spec(s@.take(i as int)),
            out@ == utf16_slice_spec(s@.take(i as int), start as int, end as int),
        decreases s.len() - i,
    {
        proof {
            lemma_utf16_len_bounds(s@.take(i as int));
            assert(s@.take(i + 1).drop_last() == s@.take(i as int));
            assert(s@.take(i + 1).last() == s@[i as int]);
        }
        let c = s[i];
        let units: u64 = if (c as u32) >= 0x10000 {
            2
        } else {
            1
        };
        let first = at;
        let last = at + units;
        at = last;
        if (last as i128) <= (start as i128) || (first as i128) >= (end as i128) {
        } else if (first as i128) >= (start as i128) && (last as i128) <= (end as i128) {
            out.push(c);
        } else {
            out.push('\u{FFFD}');
        }
        i += 1;
    }
    assert(s@.take(s.len() as int) == s@);
    out
}

/// `length` UTF-16 code units of `text` from unit `start`, as
/// [`utf16_slice_spec`] cuts them.
pub fn utf16_slice(text: &str, start: i32, length: i32) -> (res: String)
    requires
        text@.len() <= usize::MAX / 2,
    ensures
        res@ == utf16_slice_spec(text@, start as int, start + length),
{
    let chars = chars_of(text);
    let cut = slice_units(&chars, start as i64, (start as i64) + (length as i64));
    to_string(&cut)
}

/// [`text_len_i32`] of `s`.
pub fn text_len(s: &Vec<char>) -> (res: i32)
    ensures
        res == text_len_i32(s@),
{
    proof {
        lemma_utf16_len_bounds(s@);
    }
    if s.len() > 0x7fff_ffff {
        return 2147483647;
    }
    let n = utf16_length(s);
    if n > 0x7fff_ffff {
        2147483647
    } else {
        n as i32
    }
}

/// [`cut_spec`] of the text, the options and the behavior.
/// [`start_and_length_spec`] of the text's length, the start and the length:
/// a negative start counts from the end, a start past the end is clamped to
/// it, and a negative length counts back from the end.
pub fn start_and_length(len: i32, start: i32, length: i32) -> (res: (i32, i32))
    ensures
        (res.0 as int, res.1 as int) == start_and_length_spec(len as int, start as int, length as int),
{
    let mut s = start;
    if s < 0 {
        s = wrapping_add32(len, s);
    }
    if s > len {
        s = len;
    }
    let mut l = length;
    if l < 0 {
        let back = wrapping_sub32(len, s);
        l = wrapping_add32(back, l);
    }
    (s, l)
}

pub fn cut(text: &Vec<char>, params: &Vec<Vec<char>>, behavior: SubStringOutOfRangeBehavior) -> (res:
    Result<Vec<char>, CutError>)
    requires
        params.len() >= 1,
        text.len() <= usize::MAX / 2,
    ensures
        res matches Ok(t) ==> cut_spec(text@, params@.map_values(|p: Vec<char>| p@), behavior)
            == Ok::<Seq<char>, CutError>(t@),
        res matches Err(e) ==> cut_spec(text@, params@.map_values(|p: Vec<char>| p@), behavior)
            == Err::<Seq<char>, CutError>(e),
{
    let ghost ps = params@.map_values(|p: Vec<char>| p@);
    assert(ps[0] == params@[0]@);
    let len = text_len(text);
    let start = match parse_int(&params[0]) {
        Ok(v) => v,
        Err(IntError::Format) => {
            return Err(CutError::NotANumber(0));
        },
        Err(IntError::Overflow) => {
            return Err(CutError::Overflow);
        },
    };
    let length = if params.len() > 1 {
        assert(ps[1] == params@[1]@);
        match parse_int(&params[1]) {
            Ok(v) => v,
            Err(IntError::Format) => {
                return Err(CutError::NotANumber(1));
            },
            Err(IntError::Overflow) => {
                return Err(CutError::Overflow);
            },
        }
    } else {
        0
    };
    let (s, l) = start_and_length(len, start, length);
    let past_end = wrapping_add32(s, l) > len;
    let l2 = if past_end && behavior == SubStringOutOfRangeBehavior::ReturnEmptyString {
        0
    } else if past_end && behavior == SubStringOutOfRangeBehavior::ReturnStartIndexToEndOfString {
        wrapping_sub32(len, s)
    } else {
        l
    };
    if s < 0 || s > len {
        return Err(CutError::OutOfRange);
    }
    if params.len() == 1 {
        return Ok(slice_units(text, s as i64, len as i64));
    }
    if l2 < 0 || (l2 as i64) > (len as i64) - (s as i64) {
        return Err(CutError::OutOfRange);
    }
    Ok(slice_units(text, s as i64, (s as i64) + (l2 as i64)))
}

/// A range that covers the whole text cuts the text out whole.
pub proof fn law_whole_range_keeps_the_text(s: Seq<char>, end: int)
    requires
        end >= utf16_len_spec(s),
    ensures
        utf16_slice_spec(s, 0, end) == s,
    decreases s.len(),
{
    if s.len() > 0 {
        crate::text::lemma_utf16_len_bounds(s.drop_last());
        law_whole_range_keeps_the_text(s.drop_last(), end);
        assert(s.drop_last().push(s.last()) == s);
    }
}

/// A negative start counts back from the end of the text.
pub proof fn law_negative_start_counts_from_the_end(len: int, k: int, length: int)
    requires
        0 <= len <= i32::MAX,
        0 < k <= len,
        length >= 0,
    ensures
        start_and_length_spec(len, -k, length) == (len - k, length),
{
}

/// Writes part of a string.
#[derive(Debug, Clone)]
pub struct SubStringFormatter {
    name: String,
    split_char: char,
    can_auto_detect: bool,
    null_display_string: String,
    out_of_range_behavior: SubStringOutOfRangeBehavior,
}

impl SubStringFormatter {
    pub closed spec fn name_spec(&self) -> Seq<char> {
        self.name@
    }

    pub closed spec fn split_char_spec(&self) -> char {
        self.split_char
    }

    pub closed spec fn auto_detect_spec(&self) -> bool {
        self.can_auto_detect
    }

    pub closed spec fn null_display_spec(&self) -> Seq<char> {
        self.null_display_string@
    }

    pub closed spec fn behavior_spec(&self) -> SubStringOutOfRangeBehavior {
        self.out_of_range_behavior
    }

    /// What the formatter writes for placeholder `p` of `src` with `value`,
    /// when its options cut a piece out of the string value and the
    /// placeholder has no format: the piece, aligned. `None` otherwise.
    pub open spec fn cut_output(&self, src: Seq<char>, p: Placeholder, value: Value, convert: bool) -> Option<
        Seq<char>,
    > {
        match cut_outcome(options_spec(src, p, convert), value, self.split_char_spec(), self.behavior_spec()) {
            Some(Ok(piece)) => if piece.len() <= usize::MAX / 4 && (p.format matches Some(f) ==> f.end
                <= f.start) {
                Some(aligned(piece, p.alignment as int))
            } else {
                None
            },
            _ => None,
        }
    }

    /// A formatter named `substr`, splitting its options on `,`, writing
    /// nothing for a null and the empty string for a range past the end.
    pub fn new() -> (res: SubStringFormatter)
        ensures
            res.name_spec() == "substr"@,
            res.split_char_spec() == ',',
            !res.auto_detect_spec(),
            res.null_display_spec().len() == 0,
            res.behavior_spec() == SubStringOutOfRangeBehavior::ReturnEmptyString,
    {
        SubStringFormatter {
            name: owned("substr"),
            split_char: ',',
            can_auto_detect: false,
            null_display_string: String::new(),
            out_of_range_behavior: SubStringOutOfRangeBehavior::ReturnEmptyString,
        }
    }

    /// The formatter under another name.
    pub fn with_name(self, name: &str) -> (res: SubStringFormatter)
        ensures
            res.name_spec() == name@,
            res.split_char_spec() == self.split_char_spec(),
            res.auto_detect_spec() == self.auto_detect_spec(),
            res.null_display_spec() == self.null_display_spec(),
            res.behavior_spec() == self.behavior_spec(),
    {
        SubStringFormatter { name: owned(name), ..self }
    }

    pub fn name(&self) -> (res: &str)
        ensures
            res@ == self.name_spec(),
    {
        self.name.as_str()
    }

    /// The character the options are split on.
    pub fn split_char(&self) -> (res: char)
        ensures
            res == self.split_char_spec(),
    {
        self.split_char
    }

    /// Changes the split character; only `|`, `,` and `~` are accepted.
    pub fn set_split_char(&mut self, split_char: char) -> (res: Result<(), InvalidSplitChar>)
        ensures
            is_valid_split_char(split_char) ==> res is Ok && final(self).split_char_spec()
                == split_char,
            !is_valid_split_char(split_char) ==> res == Err::<(), InvalidSplitChar>(
                InvalidSplitChar(split_char),
            ) && final(self).split_char_spec() == old(self).split_char_spec(),
            final(self).name_spec() == old(self).name_spec(),
            final(self).auto_detect_spec() == old(self).auto_detect_spec(),
            final(self).null_display_spec() == old(self).null_display_spec(),
            final(self).behavior_spec() == old(self).behavior_spec(),
    {
        match valid_split_char(split_char) {
            Ok(c) => {
                self.split_char = c;
                Ok(())
            },
            Err(e) => Err(e),
        }
    }

    /// Whether a placeholder that names no formatter may be handled here.
    pub fn can_auto_detect(&self) -> (res: bool)
        ensures
            res == self.auto_detect_spec(),
    {
        self.can_auto_detect
    }

    pub fn set_can_auto_detect(&mut self, can_auto_detect: bool)
        ensures
            final(self).auto_detect_spec() == can_auto_detect,
            final(self).name_spec() == old(self).name_spec(),
            final(self).split_char_spec() == old(self).split_char_spec(),
            final(self).null_display_spec() == old(self).null_display_spec(),
            final(self).behavior_spec() == old(self).behavior_spec(),
    {
        self.can_auto_detect = can_auto_detect;
    }

    /// The text written for a null value when the placeholder has no format.
    pub fn null_display_string(&self) -> (res: &str)
        ensures
            res@ == self.null_display_spec(),
    {
        self.null_display_string.as_str()
    }

    pub fn set_null_display_string(&mut self, null_display_string: &str)
        ensures
            final(self).null_display_spec() == null_display_string@,
            final(self).name_spec() == old(self).name_spec(),
            final(self).split_char_spec() == old(self).split_char_spec(),
            final(self).auto_detect_spec() == old(self).auto_detect_spec(),
            final(self).behavior_spec() == old(self).behavior_spec(),
    {
        self.null_display_string = owned(null_display_string);
    }

    /// What happens when the range reaches past the end of the string.
    pub fn out_of_range_behavior(&self) -> (res: SubStringOutOfRangeBehavior)
        ensures
            res == self.behavior_spec(),
    {
        self.out_of_range_behavior
    }

    pub fn set_out_of_range_behavior(&mut self, behavior: SubStringOutOfRangeBehavior)
        ensures
            final(self).behavior_spec() == behavior,
            final(self).name_spec() == old(self).name_spec(),
            final(self).split_char_spec() == old(self).split_char_spec(),
            final(self).auto_detect_spec() == old(self).auto_detect_spec(),
            final(self).null_display_spec() == old(self).null_display_spec(),
    {
        self.out_of_range_behavior = behavior;
    }

    /// Cuts the string as [`cut_spec`] says and writes it — through the
    /// placeholder's format when it has one, which then has to hold a
    /// placeholder and renders against the cut string — or writes the null
    /// display string for a null, which a format renders against instead.
    #[verifier::rlimit(60)]
    pub fn try_evaluate_format(&self, ctx: &Ctx, info: &Info, state: &mut State, fuel: usize) -> (res:
        Result<bool, Error>)
        ensures
            is_bare(*info.placeholder) && is_scalar(*info.value) ==> res == Ok::<bool, Error>(false)
                && *final(state) == *old(state),
            info.placeholder.formatter_name@.len() == 0 && !(info.value is String) && !(
            info.value is Null) ==> (res == Ok::<bool, Error>(false) || res matches Err(
                Error::Escape { .. },
            )),
            match cut_outcome(
                options_spec(info.src@, *info.placeholder, ctx.convert),
                *info.value,
                self.split_char_spec(),
                self.behavior_spec(),
            ) {
                Some(Ok(piece)) => piece.len() <= usize::MAX / 4 && (
                info.placeholder.format matches Some(f) ==> f.end <= f.start) ==> res == Ok::<
                    bool,
                    Error,
                >(true) && final(state).out@ == old(state).out@ + aligned(
                    piece,
                    info.placeholder.alignment as int,
                ),
                Some(Err(CutError::OutOfRange)) => res matches Err(Error::Format { message, position })
                    && message@ == "Specified argument was out of the range of valid values."@
                    && position == error_position_spec(info.placeholder),
                Some(Err(CutError::Overflow)) => res matches Err(Error::Format { message, position })
                    && message@ == "Value was either too large or too small for an Int32."@
                    && position == error_position_spec(info.placeholder),
                _ => true,
            },
            self.cut_output(info.src@, *info.placeholder, *info.value, ctx.convert) matches Some(t)
                ==> res == Ok::<bool, Error>(true) && final(state).out@ == old(state).out@ + t,
            cut_outcome(
                options_spec(info.src@, *info.placeholder, ctx.convert),
                *info.value,
                self.split_char_spec(),
                self.behavior_spec(),
            ) matches Some(Ok(piece)) ==> (info.placeholder.format matches Some(f) ==> f.start < f.end
                ==> (!(exists|i: int| 0 <= i < f.items.len() && f.items@[i] is Placeholder) ==> res
                is Err) && ((exists|i: int| 0 <= i < f.items.len() && f.items@[i] is Placeholder)
                ==> forall|v: Value|
                string_with_text(v, piece) && #[trigger] all_simple_items(
                    info.src@,
                    f.items@,
                    v,
                    *ctx.args,
                    ctx.settings.case_sensitive,
                    old(state).collection_index,
                ) && fuel >= 2 && can_render_bare(ctx) ==> res == Ok::<bool, Error>(true) && final(state).out@
                    == old(state).out@ + simple_items_text(
                    info.src@,
                    f.items@,
                    info.placeholder.alignment as int,
                    v,
                    *ctx.args,
                    ctx.settings.case_sensitive,
                    old(state).collection_index,
                ))),
            cut_outcome(
                options_spec(info.src@, *info.placeholder, ctx.convert),
                *info.value,
                self.split_char_spec(),
                self.behavior_spec(),
            ) matches Some(Ok(piece)) ==> (info.placeholder.format matches Some(f) ==> f.start < f.end
                ==> (exists|i: int| 0 <= i < f.items.len() && f.items@[i] is Placeholder) ==> (res is Ok
                ==> string_with_text(final(state).rendered().last().3, piece) && final(state).rendered()
                == old(state).rendered().push(
                    (
                        info.src@,
                        f.start as int,
                        f.end as int,
                        final(state).rendered().last().3,
                        old(state).out@,
                        final(state).out@,
                    ),
                ))),
            options_spec(info.src@, *info.placeholder, ctx.convert) matches Ok(opts) ==> opts.len()
                > 0 && info.value is Null ==> (info.placeholder.format matches Some(f) ==> f.start
                < f.end ==> (!(exists|i: int| 0 <= i < f.items.len() && f.items@[i] is Placeholder)
                ==> res is Err) && ((exists|i: int| 0 <= i < f.items.len() && f.items@[i] is Placeholder)
                && all_simple_items(
                info.src@,
                f.items@,
                Value::Null,
                *ctx.args,
                ctx.settings.case_sensitive,
                old(state).collection_index,
            ) && fuel >= 2 && can_render_bare(ctx) ==> res == Ok::<bool, Error>(true) && final(state).out@
                == old(state).out@ + simple_items_text(
                info.src@,
                f.items@,
                info.placeholder.alignment as int,
                Value::Null,
                *ctx.args,
                ctx.settings.case_sensitive,
                old(state).collection_index,
            ))),
            options_spec(info.src@, *info.placeholder, ctx.convert) matches Ok(opts) && opts.len()
                > 0 && (info.placeholder.format matches Some(f) ==> f.end <= f.start)
                && info.value is Null && self.null_display_spec().len() <= usize::MAX / 4 ==> res
                == Ok::<bool, Error>(true) && final(state).out@ == old(state).out@ + aligned(
                self.null_display_spec(),
                info.placeholder.alignment as int,
            ),
        decreases fuel, 8nat,
    {
        let options = formatter_options(ctx, info)?;
        let params = split_chars(&options, self.split_char);
        proof {
            lemma_split_join(options@, self.split_char);
            assert(params@.map_values(|p: Vec<char>| p@) =~= split_spec(options@, self.split_char));
            if params.len() == 1 && params[0]@.len() == 0 {
                assert(options@ == split_spec(options@, self.split_char)[0]);
            }
        }
        let is_string = match info.value {
            Value::String(_) => true,
            _ => false,
        };
        let is_null = info.value.is_null();
        if !(is_string || is_null) || (params.len() == 1 && params[0].len() == 0) {
            return decline_or_error(
                info,
                " requires at least 1 formatter option and a string? argument.",
            );
        }
        let mut piece: Vec<char> = Vec::new();
        if let Value::String(s) = info.value {
            let text = chars_of(s.as_str());
            if params.len() == 0 || text.len() > usize::MAX / 2 {
                return Ok(false);
            }
            match cut(&text, &params, self.out_of_range_behavior) {
                Ok(t) => {
                    piece = t;
                },
                Err(CutError::NotANumber(k)) => {
                    let quoted = if k < params.len() {
                        not_in_a_correct_format(&params[k])
                    } else {
                        String::new()
                    };
                    return Err(plain_error(&chars_of(quoted.as_str()), error_position(info.placeholder)));
                },
                Err(CutError::Overflow) => {
                    return Err(plain_error(&chars_of(int32_overflow()), error_position(info.placeholder)));
                },
                Err(CutError::OutOfRange) => {
                    return Err(plain_error(&chars_of(out_of_range()), error_position(info.placeholder)));
                },
            }
        }
        if let Some(format) = &info.placeholder.format {
            if format.end > format.start {
                if !has_nested(format) {
                    let mut issue: Vec<char> = Vec::new();
                    push_str(&mut issue, "The format requires a nested placeholder");
                    return Err(formatting_error(ctx, &issue, format.start));
                }
                let value = if is_string {
                    Value::String(to_string(&piece))
                } else {
                    Value::Null
                };
                proof {
                    if is_string {
                        assert forall|v: Value| string_with_text(v, piece@) implies #[trigger] all_simple_items(
                            info.src@,
                            format.items@,
                            v,
                            *ctx.args,
                            ctx.settings.case_sensitive,
                            state.collection_index,
                        ) == all_simple_items(
                            info.src@,
                            format.items@,
                            value,
                            *ctx.args,
                            ctx.settings.case_sensitive,
                            state.collection_index,
                        ) && simple_items_text(
                            info.src@,
                            format.items@,
                            info.placeholder.alignment as int,
                            v,
                            *ctx.args,
                            ctx.settings.case_sensitive,
                            state.collection_index,
                        ) == simple_items_text(
                            info.src@,
                            format.items@,
                            info.placeholder.alignment as int,
                            value,
                            *ctx.args,
                            ctx.settings.case_sensitive,
                            state.collection_index,
                        ) by {
                            lemma_same_text_renders_alike(
                                info.src@,
                                format.items@,
                                info.placeholder.alignment as int,
                                value,
                                v,
                                *ctx.args,
                                ctx.settings.case_sensitive,
                                state.collection_index,
                            );
                        }
                    }
                }
                let ghost before = *state;
                format_as_child(ctx, info, format, &value, state, fuel)?;
                proof {
                    if is_string {
                        assert(string_with_text(value, piece@));
                        assert(cut_outcome(
                            options_spec(info.src@, *info.placeholder, ctx.convert),
                            *info.value,
                            self.split_char_spec(),
                            self.behavior_spec(),
                        ) == Some(Ok::<Seq<char>, CutError>(piece@)));
                        assert(before == *old(state));
                        assert(info.placeholder.format == Some(*format));
                        assert(state.rendered() == before.rendered().push(
                            (info.src@, format.start as int, format.end as int, value, before.out@, state.out@),
                        ));

                    }
                }
                return Ok(true);
            }
        }
        if is_string {
            write_text(info, state, &piece);
        } else {
            write_text(info, state, &chars_of(self.null_display_string.as_str()));
        }
        Ok(true)
    }
}

} // verus!
