//! The .NET *standard* `TimeSpan` format specifiers: `c` (with its aliases
//! `t` and `T`), `g` and `G`, on a span of nanoseconds taken in whole ticks.
//!
//! The only part that follows the culture is the decimal separator of `g`
//! and `G`, which the caller hands in.

use vstd::prelude::*;
use crate::text::{chars_of, decimal_digits, digit, digit_char, push_all, push_u64, to_string};
use super::utility::{
    ticks,
    ticks_spec,
    TICKS_PER_DAY,
    TICKS_PER_HOUR,
    TICKS_PER_MINUTE,
    TICKS_PER_SECOND,
};

verus! {

/// A format specifier a time span cannot be written with.
#[derive(Debug, Clone, PartialEq, Eq)]
pub enum FormatSpecError {
    /// One character that names no standard format (.NET throws a
    /// `FormatException`).
    Invalid(String),
    /// A custom pattern of more than one character, which is not supported.
    Unsupported(String),
}

/// The size of a tick count, whatever its sign.
pub open spec fn magnitude(t: int) -> nat {
    if t < 0 {
        (-t) as nat
    } else {
        t as nat
    }
}

/// The whole days of a tick count's magnitude.
pub open spec fn days_of(t: int) -> nat {
    magnitude(t) / (TICKS_PER_DAY as nat)
}

/// The hours left over from the whole days.
pub open spec fn hours_of(t: int) -> nat {
    magnitude(t) / (TICKS_PER_HOUR as nat) % 24
}

/// The minutes left over from the whole hours.
pub open spec fn minutes_of(t: int) -> nat {
    magnitude(t) / (TICKS_PER_MINUTE as nat) % 60
}

/// The seconds left over from the whole minutes.
pub open spec fn seconds_of(t: int) -> nat {
    magnitude(t) / (TICKS_PER_SECOND as nat) % 60
}

/// The ticks left over from the whole seconds.
pub open spec fn fraction_of(t: int) -> nat {
    magnitude(t) % (TICKS_PER_SECOND as nat)
}

/// The parts a span is written with add back up to its size: the whole
/// days, then hours below a day, minutes below an hour, seconds below a
/// minute and ticks below a second. So the hours written are the whole
/// hours of the span modulo 24 — a span of 13 hours writes 13.
pub proof fn law_parts_add_up(t: int)
    ensures
        days_of(t) * 864_000_000_000 + hours_of(t) * 36_000_000_000 + minutes_of(t) * 600_000_000
            + seconds_of(t) * 10_000_000 + fraction_of(t) == magnitude(t),
        hours_of(t) < 24,
        minutes_of(t) < 60,
        seconds_of(t) < 60,
        fraction_of(t) < 10_000_000,
{
    let m = magnitude(t) as int;
    let q1 = m / 10_000_000;
    let q2 = q1 / 60;
    let q3 = q2 / 60;
    let q4 = q3 / 24;
    vstd::arithmetic::div_mod::lemma_fundamental_div_mod(m, 10_000_000);
    vstd::arithmetic::div_mod::lemma_fundamental_div_mod(q1, 60);
    vstd::arithmetic::div_mod::lemma_fundamental_div_mod(q2, 60);
    vstd::arithmetic::div_mod::lemma_fundamental_div_mod(q3, 24);
    vstd::arithmetic::div_mod::lemma_div_denominator(m, 10_000_000, 60);
    vstd::arithmetic::div_mod::lemma_div_denominator(m, 600_000_000, 60);
    vstd::arithmetic::div_mod::lemma_div_denominator(m, 36_000_000_000, 24);
    assert(q2 == m / 600_000_000);
    assert(q3 == m / 36_000_000_000);
    assert(q4 == m / 864_000_000_000);
    assert(m == 10_000_000 * q1 + m % 10_000_000);
    assert(q1 == 60 * q2 + q1 % 60);
    assert(q2 == 60 * q3 + q2 % 60);
    assert(q3 == 24 * q4 + q3 % 24);
}

/// A `-` for a negative tick count, nothing otherwise.
pub open spec fn sign_text(t: int) -> Seq<char> {
    if t < 0 {
        seq!['-']
    } else {
        Seq::empty()
    }
}

/// The digits of `n`, with a leading zero below ten.
pub open spec fn two_digits(n: nat) -> Seq<char> {
    if n < 10 {
        seq!['0'] + decimal_digits(n)
    } else {
        decimal_digits(n)
    }
}

/// The last `count` decimal digits of `n`, most significant first, padded
/// with zeros.
pub open spec fn fixed_digits(n: nat, count: nat) -> Seq<char>
    decreases count,
{
    if count == 0 {
        Seq::empty()
    } else {
        fixed_digits(n / 10, (count - 1) as nat) + seq![digit_char(n % 10)]
    }
}

/// `s` without the zeros it ends with.
pub open spec fn without_trailing_zeros(s: Seq<char>) -> Seq<char>
    decreases s.len(),
{
    if s.len() > 0 && s.last() == '0' {
        without_trailing_zeros(s.drop_last())
    } else {
        s
    }
}

/// The `h:mm:ss`-style tail shared by every format: the minutes and the
/// seconds, each with two digits and led by a `:`.
pub open spec fn minutes_and_seconds(t: int) -> Seq<char> {
    seq![':'] + two_digits(minutes_of(t)) + seq![':'] + two_digits(seconds_of(t))
}

/// The constant format `c`, .NET's `TimeSpan.ToString()`:
/// `[-][d.]hh:mm:ss[.fffffff]`, the days and the fraction left out when they
/// are zero.
pub open spec fn constant_text(t: int) -> Seq<char> {
    sign_text(t) + (if days_of(t) != 0 {
        decimal_digits(days_of(t)) + seq!['.']
    } else {
        Seq::empty()
    }) + two_digits(hours_of(t)) + minutes_and_seconds(t) + (if fraction_of(t) != 0 {
        seq!['.'] + fixed_digits(fraction_of(t), 7)
    } else {
        Seq::empty()
    })
}

/// The short general format `g`: `[-][d:]h:mm:ss[<sep>FFFFFFF]`, the days
/// left out when they are zero and the fraction's trailing zeros dropped.
pub open spec fn short_text(t: int, separator: Seq<char>) -> Seq<char> {
    sign_text(t) + (if days_of(t) != 0 {
        decimal_digits(days_of(t)) + seq![':']
    } else {
        Seq::empty()
    }) + decimal_digits(hours_of(t)) + minutes_and_seconds(t) + (if fraction_of(t) != 0 {
        separator + without_trailing_zeros(fixed_digits(fraction_of(t), 7))
    } else {
        Seq::empty()
    })
}

/// The long general format `G`: `[-]d:hh:mm:ss<sep>fffffff`.
pub open spec fn long_text(t: int, separator: Seq<char>) -> Seq<char> {
    sign_text(t) + decimal_digits(days_of(t)) + seq![':'] + two_digits(hours_of(t))
        + minutes_and_seconds(t) + separator + fixed_digits(fraction_of(t), 7)
}

/// Whether `spec` names the constant format: empty, `c`, `t` or `T`.
pub open spec fn is_constant_spec(spec: Seq<char>) -> bool {
    spec.len() == 0 || spec == seq!['c'] || spec == seq!['t'] || spec == seq!['T']
}

/// The text of a tick count under a standard specifier, or `None` for a
/// specifier that names no standard format.
pub open spec fn timespan_text(t: int, spec: Seq<char>, separator: Seq<char>) -> Option<
    Seq<char>,
> {
    if is_constant_spec(spec) {
        Some(constant_text(t))
    } else if spec == seq!['g'] {
        Some(short_text(t, separator))
    } else if spec == seq!['G'] {
        Some(long_text(t, separator))
    } else {
        None
    }
}

/// Which of the two general formats to write.
#[derive(Clone, Copy)]
enum General {
    /// `g`: `[-][d:]h:mm:ss[.FFFFFFF]`.
    Short,
    /// `G`: `[-]d:hh:mm:ss.fffffff`.
    Long,
}

/// The parts a tick count is written with, each the absolute value of its
/// part.
struct Parts {
    negative: bool,
    days: u64,
    hours: u64,
    minutes: u64,
    seconds: u64,
    fraction: u64,
}

impl Parts {
    /// The parts of `ticks`.
    fn of(ticks: i64) -> (res: Parts)
        ensures
            res.negative == (ticks < 0),
            res.days == days_of(ticks as int),
            res.hours == hours_of(ticks as int),
            res.minutes == minutes_of(ticks as int),
            res.seconds == seconds_of(ticks as int),
            res.fraction == fraction_of(ticks as int),
            res.hours < 24,
            res.minutes < 60,
            res.seconds < 60,
            res.fraction < 10_000_000,
    {
        let m: u64 = if ticks >= 0 {
            ticks as u64
        } else if ticks == i64::MIN {
            9223372036854775808u64
        } else {
            (-ticks) as u64
        };
        assert(m == magnitude(ticks as int));
        Parts {
            negative: ticks < 0,
            days: m / 864_000_000_000u64,
            hours: m / 36_000_000_000u64 % 24,
            minutes: m / 600_000_000u64 % 60,
            seconds: m / 10_000_000u64 % 60,
            fraction: m % 10_000_000u64,
        }
    }
}

/// Appends the digits of `value` to `out`.
fn push_int(out: &mut Vec<char>, value: u64)
    ensures
        final(out)@ == old(out)@ + decimal_digits(value as nat),
{
    push_u64(out, value);
}

/// Appends [`two_digits`] of `value` to `out`.
fn push_padded(out: &mut Vec<char>, value: u64)
    ensures
        final(out)@ == old(out)@ + two_digits(value as nat),
{
    if value < 10 {
        out.push('0');
        let ghost mid = out@;
        push_u64(out, value);
        assert(out@ == old(out)@ + (seq!['0'] + decimal_digits(value as nat)));
    } else {
        push_u64(out, value);
    }
}

/// The last `count` digits of `value`, [`fixed_digits`].
fn fixed(value: u64, count: usize) -> (res: Vec<char>)
    ensures
        res@ == fixed_digits(value as nat, count as nat),
    decreases count,
{
    if count == 0 {
        Vec::new()
    } else {
        let mut out = fixed(value / 10, count - 1);
        out.push(digit(value % 10));
        out
    }
}

/// `digits` without the zeros it ends with.
fn trim_trailing_zeros(digits: &Vec<char>) -> (res: Vec<char>)
    ensures
        res@ == without_trailing_zeros(digits@),
{
    let mut end: usize = digits.len();
    assert(digits@.subrange(0, end as int) =~= digits@);
    while end > 0 && digits[end - 1] == '0'
        invariant
            end <= digits@.len(),
            without_trailing_zeros(digits@.subrange(0, end as int)) == without_trailing_zeros(
                digits@,
            ),
        decreases end,
    {
        let ghost before = digits@.subrange(0, end as int);
        assert(before.drop_last() =~= digits@.subrange(0, end - 1));
        end -= 1;
    }
    let mut out: Vec<char> = Vec::new();
    let mut i: usize = 0;
    while i < end
        invariant
            i <= end <= digits@.len(),
            out@ == digits@.subrange(0, i as int),
        decreases end - i,
    {
        out.push(digits[i]);
        i += 1;
        assert(out@ =~= digits@.subrange(0, i as int));
    }
    assert(out@ =~= digits@.subrange(0, end as int));
    out
}

/// Appends the seven digits of a fraction to `out`, without their trailing
/// zeros when `trim` is set (.NET's `FFFFFFF`) and with them otherwise
/// (`fffffff`).
fn push_fraction(out: &mut Vec<char>, fraction: u64, trim: bool)
    ensures
        final(out)@ == old(out)@ + (if trim {
            without_trailing_zeros(fixed_digits(fraction as nat, 7))
        } else {
            fixed_digits(fraction as nat, 7)
        }),
{
    let digits = fixed(fraction, 7);
    if trim {
        let trimmed = trim_trailing_zeros(&digits);
        push_all(out, &trimmed);
    } else {
        push_all(out, &digits);
    }
}

/// Appends [`minutes_and_seconds`] of the parts to `out`.
fn push_minutes_and_seconds(out: &mut Vec<char>, parts: &Parts, Ghost(t): Ghost<int>)
    requires
        parts.minutes == minutes_of(t),
        parts.seconds == seconds_of(t),
    ensures
        final(out)@ == old(out)@ + minutes_and_seconds(t),
{
    out.push(':');
    push_padded(out, parts.minutes);
    out.push(':');
    push_padded(out, parts.seconds);
    assert(out@ =~= old(out)@ + minutes_and_seconds(t));
}

/// The constant format of `ticks`, [`constant_text`].
fn format_constant(ticks: i64) -> (res: Vec<char>)
    ensures
        res@ == constant_text(ticks as int),
{
    let parts = Parts::of(ticks);
    let ghost t = ticks as int;
    let mut out: Vec<char> = Vec::new();
    if parts.negative {
        out.push('-');
    }
    assert(out@ =~= sign_text(t));
    if parts.days != 0 {
        push_int(&mut out, parts.days);
        out.push('.');
    }
    let ghost days_text = if days_of(t) != 0 {
        decimal_digits(days_of(t)) + seq!['.']
    } else {
        Seq::empty()
    };
    assert(out@ =~= sign_text(t) + days_text);
    push_padded(&mut out, parts.hours);
    push_minutes_and_seconds(&mut out, &parts, Ghost(t));
    let ghost head = out@;
    if parts.fraction != 0 {
        out.push('.');
        push_fraction(&mut out, parts.fraction, false);
        assert(out@ =~= head + (seq!['.'] + fixed_digits(fraction_of(t), 7)));
    } else {
        assert(out@ =~= head + Seq::<char>::empty());
    }
    out
}

/// The general format of `ticks` with `separator` before the fraction:
/// [`short_text`] or [`long_text`].
fn format_general(ticks: i64, separator: &Vec<char>, general: General) -> (res: Vec<char>)
    ensures
        general is Short ==> res@ == short_text(ticks as int, separator@),
        general is Long ==> res@ == long_text(ticks as int, separator@),
{
    let parts = Parts::of(ticks);
    let ghost t = ticks as int;
    let mut out: Vec<char> = Vec::new();
    if parts.negative {
        out.push('-');
    }
    assert(out@ =~= sign_text(t));
    match general {
        General::Short => {
            if parts.days != 0 {
                push_int(&mut out, parts.days);
                out.push(':');
            }
            let ghost days_text = if days_of(t) != 0 {
                decimal_digits(days_of(t)) + seq![':']
            } else {
                Seq::empty()
            };
            assert(out@ =~= sign_text(t) + days_text);
            push_int(&mut out, parts.hours);
            push_minutes_and_seconds(&mut out, &parts, Ghost(t));
            let ghost head = out@;
            if parts.fraction != 0 {
                push_all(&mut out, separator);
                push_fraction(&mut out, parts.fraction, true);
                assert(out@ =~= head + (separator@ + without_trailing_zeros(
                    fixed_digits(fraction_of(t), 7),
                )));
            } else {
                assert(out@ =~= head + Seq::<char>::empty());
            }
        },
        General::Long => {
            push_int(&mut out, parts.days);
            out.push(':');
            push_padded(&mut out, parts.hours);
            push_minutes_and_seconds(&mut out, &parts, Ghost(t));
            push_all(&mut out, separator);
            push_fraction(&mut out, parts.fraction, false);
        },
    }
    out
}

/// A span of `span` nanoseconds written with a .NET standard `TimeSpan`
/// specifier, in whole ticks ([`ticks_spec`]): the empty specifier, `c`, `t`
/// and `T` write the constant format, `g` and `G` the general ones with
/// `decimal_separator` before the fraction. Any other single character is
/// [`FormatSpecError::Invalid`]; anything longer is a custom pattern,
/// [`FormatSpecError::Unsupported`].
pub fn format_timespan(span: i128, spec: &str, decimal_separator: &str) -> (res: Result<
    String,
    FormatSpecError,
>)
    ensures
        timespan_text(ticks_spec(span as int), spec@, decimal_separator@) matches Some(text) ==> (
        res matches Ok(s) && s@ == text),
        (spec@.len() == 1 && timespan_text(ticks_spec(span as int), spec@, decimal_separator@)
            is None) ==> (res matches Err(FormatSpecError::Invalid(s)) && s@ == spec@),
        spec@.len() > 1 ==> (res matches Err(FormatSpecError::Unsupported(s)) && s@ == spec@),
{
    let spec_chars = chars_of(spec);
    let separator = chars_of(decimal_separator);
    match timespan_chars(span, &spec_chars, &separator) {
        Some(text) => Ok(to_string(&text)),
        None => {
            if spec_chars.len() == 1 {
                Err(FormatSpecError::Invalid(to_string(&spec_chars)))
            } else {
                Err(FormatSpecError::Unsupported(to_string(&spec_chars)))
            }
        },
    }
}

/// [`timespan_text`] of a span of `span` nanoseconds taken in whole ticks.
pub fn timespan_chars(span: i128, spec: &Vec<char>, separator: &Vec<char>) -> (res: Option<
    Vec<char>,
>)
    ensures
        res is None <==> timespan_text(ticks_spec(span as int), spec@, separator@) is None,
        res matches Some(text) ==> timespan_text(ticks_spec(span as int), spec@, separator@)
            == Some(text@),
{
    let t = ticks(span);
    if spec.len() == 0 {
        Some(format_constant(t))
    } else if spec.len() == 1 {
        let c = spec[0];
        if c == 'c' || c == 't' || c == 'T' {
            assert(spec@ =~= seq![c]);
            Some(format_constant(t))
        } else if c == 'g' {
            assert(spec@ =~= seq!['g']);
            Some(format_general(t, separator, General::Short))
        } else if c == 'G' {
            assert(spec@ =~= seq!['G']);
            Some(format_general(t, separator, General::Long))
        } else {
            assert(spec@ =~= seq![c]);
            assert(spec@ != seq!['c'] && spec@ != seq!['t'] && spec@ != seq!['T']) by {
                assert(seq!['c'][0] == 'c');
                assert(seq!['t'][0] == 't');
                assert(seq!['T'][0] == 'T');
            }
            assert(spec@ != seq!['g'] && spec@ != seq!['G']) by {
                assert(seq!['g'][0] == 'g');
                assert(seq!['G'][0] == 'G');
            }
            None
        }
    } else {
        assert(spec@.len() != seq!['c'].len());
        None
    }
}

/// A span of `span` nanoseconds in the constant format, .NET's
/// `TimeSpan.ToString()`, which is the same in every culture.
pub fn timespan_to_string(span: i128) -> (res: String)
    ensures
        res@ == constant_text(ticks_spec(span as int)),
{
    to_string(&format_constant(ticks(span)))
}

} // verus!
