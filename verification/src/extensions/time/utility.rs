//! Spans of time counted in .NET ticks of 100 nanoseconds: converting a span
//! of nanoseconds to ticks and back, rounding a span to an interval, and the
//! rule that decides whether a unit of a span is written.

use vstd::prelude::*;
use super::options::TimeSpanFormatOptions;

verus! {

/// Ticks in a millisecond.
pub const TICKS_PER_MILLISECOND: i64 = 10_000;

/// Ticks in a second.
pub const TICKS_PER_SECOND: i64 = 10_000_000;

/// Ticks in a minute.
pub const TICKS_PER_MINUTE: i64 = 600_000_000;

/// Ticks in an hour.
pub const TICKS_PER_HOUR: i64 = 36_000_000_000;

/// Ticks in a day.
pub const TICKS_PER_DAY: i64 = 864_000_000_000;

/// The message of .NET's `OverflowException` when a step of time formatting
/// leaves the range of a `TimeSpan`.
pub open spec fn overflow_message() -> Seq<char> {
    "TimeSpan overflowed because the duration is too long."@
}

/// A step of time formatting left the range of a .NET `TimeSpan`.
#[derive(Debug, Clone, Copy, PartialEq, Eq, Hash)]
pub struct TimeSpanOverflow;

impl TimeSpanOverflow {
    /// The error's message, [`overflow_message`].
    pub fn to_text(&self) -> (res: String)
        ensures
            res@ == overflow_message(),
    {
        String::from_str("TimeSpan overflowed because the duration is too long.")
    }
}

/// `a / b` rounded toward zero, as Rust's and .NET's `/` do, for `b > 0`.
pub open spec fn trunc_div(a: int, b: int) -> int {
    if a >= 0 {
        a / b
    } else {
        -((-a) / b)
    }
}

/// The remainder of `a / b` rounded toward zero, which has the sign of `a`:
/// Rust's and .NET's `%`.
pub open spec fn trunc_rem(a: int, b: int) -> int {
    let d = if b < 0 {
        -b
    } else {
        b
    };
    if a >= 0 {
        a % d
    } else {
        -((-a) % d)
    }
}

/// `v` held to the range of an `i64`.
pub open spec fn saturate_i64(v: int) -> int {
    if v < i64::MIN {
        i64::MIN as int
    } else if v > i64::MAX {
        i64::MAX as int
    } else {
        v
    }
}

/// The ticks of a span of `nanos` nanoseconds: the whole ticks toward zero,
/// held to the range of a .NET `TimeSpan`.
pub open spec fn ticks_spec(nanos: int) -> int {
    saturate_i64(trunc_div(nanos, 100))
}

/// The .NET tick count of a span of `duration` nanoseconds, [`ticks_spec`]:
/// a span no `TimeSpan` can hold saturates at the nearest end of the range,
/// and a part of a tick is dropped.
pub fn ticks(duration: i128) -> (res: i64)
    ensures
        res == ticks_spec(duration as int),
{
    if duration >= 0 {
        let q: i128 = duration / 100;
        if q > 9223372036854775807i128 {
            i64::MAX
        } else {
            q as i64
        }
    } else if duration <= -922337203685477580900i128 {
        i64::MIN
    } else {
        let q: i128 = (-duration) / 100;
        (-q) as i64
    }
}

/// A span of whole ticks taken back to nanoseconds and then to ticks is the
/// span it was.
pub proof fn law_ticks_round_trip(t: int)
    requires
        i64::MIN <= t <= i64::MAX,
    ensures
        ticks_spec(t * 100) == t,
{
    if t >= 0 {
        vstd::arithmetic::div_mod::lemma_div_by_multiple(t, 100);
    } else {
        vstd::arithmetic::div_mod::lemma_div_by_multiple(-t, 100);
        assert(-(t * 100) == (-t) * 100);
    }
}

/// The span of nanoseconds that `ticks` ticks spell.
pub fn duration(ticks: i64) -> (res: i128)
    ensures
        res == ticks * 100,
{
    (ticks as i128) * 100
}

/// `from` rounded to a multiple of `interval`: the remainder toward zero is
/// dropped, or — when it is at least half the interval, rounded down — made
/// up to the next multiple.
pub open spec fn round_ticks_spec(from: int, interval: int) -> int {
    let extra = trunc_rem(from, interval);
    if extra >= interval / 2 {
        from - (extra - interval)
    } else {
        from - extra
    }
}

/// `k` times `m`.
pub open spec fn times(k: int, m: int) -> int {
    k * m
}

/// Rounding gives a multiple of the interval, and — for a positive interval —
/// one less than an interval below the span and at most an interval above
/// it.
pub proof fn law_round_ticks_gives_a_multiple(from: int, interval: int)
    requires
        interval != 0,
    ensures
        exists|k: int| round_ticks_spec(from, interval) == #[trigger] times(k, interval),
        interval > 0 ==> -interval < round_ticks_spec(from, interval) - from <= interval,
{
    let d = if interval < 0 {
        -interval
    } else {
        interval
    };
    let extra = trunc_rem(from, interval);
    let q = if from >= 0 {
        from / d
    } else {
        -((-from) / d)
    };
    if from >= 0 {
        vstd::arithmetic::div_mod::lemma_fundamental_div_mod(from, d);
        assert(0 <= from % d < d);
    } else {
        vstd::arithmetic::div_mod::lemma_fundamental_div_mod(-from, d);
        assert(0 <= (-from) % d < d);
    }
    assert(from - extra == d * q) by (nonlinear_arith)
        requires
            from >= 0 ==> from == d * (from / d) + from % d && extra == from % d && q == from / d,
            from < 0 ==> -from == d * ((-from) / d) + (-from) % d && extra == -((-from) % d) && q
                == -((-from) / d),
    ;
    let k = if interval < 0 {
        -q
    } else {
        q
    };
    assert(d * q == k * interval) by (nonlinear_arith)
        requires
            interval != 0,
            interval < 0 ==> d == -interval && k == -q,
            interval > 0 ==> d == interval && k == q,
    ;
    assert(-d < extra < d);
    if extra >= interval / 2 {
        assert(round_ticks_spec(from, interval) == (k + 1) * interval) by (nonlinear_arith)
            requires
                round_ticks_spec(from, interval) == from - (extra - interval),
                from - extra == k * interval,
        ;
        assert(round_ticks_spec(from, interval) == times(k + 1, interval));
    } else {
        assert(round_ticks_spec(from, interval) == times(k, interval));
    }
}

/// [`round_ticks_spec`] of the ticks and the interval: .NET's
/// `TimeSpanUtility.Round` on tick counts.
pub fn round_ticks(from_ticks: i64, interval_ticks: i64) -> (res: i64)
    requires
        interval_ticks != 0,
        !(from_ticks == i64::MIN && interval_ticks == -1),
        i64::MIN <= round_ticks_spec(from_ticks as int, interval_ticks as int) <= i64::MAX,
    ensures
        res == round_ticks_spec(from_ticks as int, interval_ticks as int),
{
    let from: i128 = from_ticks as i128;
    let interval: i128 = interval_ticks as i128;
    let divisor: i128 = if interval < 0 {
        -interval
    } else {
        interval
    };
    let extra: i128 = if from >= 0 {
        from % divisor
    } else {
        -((-from) % divisor)
    };
    let half: i128 = if interval >= 0 {
        interval / 2
    } else {
        -((-interval + 1) / 2)
    };
    assert(half == interval / 2);
    let rounded: i128 = if extra >= half {
        from - (extra - interval)
    } else {
        from - extra
    };
    rounded as i64
}

/// A span of `from_time` nanoseconds rounded to a multiple of
/// `interval_ticks` ticks, .NET's `TimeSpanUtility.Round`: the span is taken
/// in whole ticks ([`ticks_spec`]) and rounded by [`round_ticks_spec`].
pub fn round(from_time: i128, interval_ticks: i64) -> (res: i128)
    requires
        interval_ticks != 0,
        !(ticks_spec(from_time as int) == i64::MIN && interval_ticks == -1),
        i64::MIN <= round_ticks_spec(ticks_spec(from_time as int), interval_ticks as int)
            <= i64::MAX,
    ensures
        res == round_ticks_spec(ticks_spec(from_time as int), interval_ticks as int) * 100,
{
    duration(round_ticks(ticks(from_time), interval_ticks))
}

/// Whether a unit of value `value` is written under the truncation flag
/// `truncate`, once something has (`text_started`) or has not been written:
/// `None` skips the unit, `Some(display)` says whether it is written.
pub open spec fn should_truncate_spec(truncate: u32, value: int, text_started: bool) -> Option<
    bool,
> {
    if truncate == 0x10 {
        if text_started {
            None
        } else {
            Some(value > 0)
        }
    } else if truncate == 0x20 {
        Some(value > 0)
    } else if truncate == 0x40 {
        Some(text_started || value > 0)
    } else if truncate == 0x80 {
        Some(true)
    } else {
        None
    }
}

/// [`should_truncate_spec`] of the flag's bits, the value and whether text
/// has started, .NET's `ShouldTruncate`.
pub fn should_truncate(truncate: TimeSpanFormatOptions, value: i32, text_started: bool) -> (res:
    Option<bool>)
    ensures
        res == should_truncate_spec(truncate.bits_spec(), value as int, text_started),
{
    let bits = truncate.bits();
    if bits == 0x10 {
        if text_started {
            None
        } else {
            Some(value > 0)
        }
    } else if bits == 0x20 {
        Some(value > 0)
    } else if bits == 0x40 {
        Some(text_started || value > 0)
    } else if bits == 0x80 {
        Some(true)
    } else {
        None
    }
}

} // verus!
