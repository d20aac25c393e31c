//! The standard numeric format specifiers an integer is rendered with: `G`,
//! `N`, `D` and `F`, each with an optional precision, in the invariant
//! culture (`,` groups thousands, `.` separates the decimals).

use vstd::prelude::*;
use crate::text::{decimal_digits, push_all, push_u64, digit_char};

verus! {

/// The value of a run of ASCII digits.
pub open spec fn digits_value(d: Seq<char>) -> nat
    decreases d.len(),
{
    if d.len() == 0 {
        0
    } else {
        digits_value(d.drop_last()) * 10 + ((d.last() as u32) - 48) as nat
    }
}

/// Whether every character is an ASCII digit.
pub open spec fn all_digits(d: Seq<char>) -> bool {
    forall|i: int| 0 <= i < d.len() ==> '0' <= #[trigger] d[i] && d[i] <= '9'
}

/// `10^n`.
pub open spec fn pow10(n: nat) -> nat
    decreases n,
{
    if n == 0 {
        1
    } else {
        10 * pow10((n - 1) as nat)
    }
}

/// A run of `n` digits is worth less than `10^n`.
pub proof fn lemma_digits_value_bound(d: Seq<char>)
    requires
        all_digits(d),
    ensures
        digits_value(d) < pow10(d.len()),
    decreases d.len(),
{
    if d.len() > 0 {
        assert(all_digits(d.drop_last()));
        lemma_digits_value_bound(d.drop_last());
        assert('0' <= d.last() && d.last() <= '9');
    }
}

/// The value of a prefix of a run of digits is at most the value of the
/// whole run.
pub proof fn lemma_digits_value_prefix(d: Seq<char>, k: nat)
    requires
        all_digits(d),
        k <= d.len(),
    ensures
        digits_value(d.take(k as int)) <= digits_value(d),
    decreases d.len() - k,
{
    if k < d.len() {
        lemma_digits_value_prefix(d, k + 1);
        assert(d.take(k + 1 as int).drop_last() == d.take(k as int));
        assert('0' <= d[k as int] && d[k as int] <= '9');
    } else {
        assert(d.take(k as int) == d);
    }
}

/// A standard specifier: its letter, uppercased, and its precision when one
/// is written. At most three precision digits are read.
pub open spec fn standard_spec(spec: Seq<char>) -> Option<(char, Option<nat>)> {
    if spec.len() == 0 || spec.len() > 4 {
        None
    } else {
        let letter = if 'a' <= spec[0] && spec[0] <= 'z' {
            ((spec[0] as u32) - 32) as char
        } else {
            spec[0]
        };
        let rest = spec.subrange(1, spec.len() as int);
        if !(letter == 'G' || letter == 'N' || letter == 'D' || letter == 'F') || !all_digits(rest) {
            None
        } else if rest.len() == 0 {
            Some((letter, None))
        } else {
            Some((letter, Some(digits_value(rest))))
        }
    }
}

/// `n` zeros.
pub open spec fn zeros(n: nat) -> Seq<char> {
    Seq::new(n, |i: int| '0')
}

/// The digits with a `,` between each group of three, counted from the
/// right.
pub open spec fn grouped(d: Seq<char>) -> Seq<char>
    decreases d.len(),
{
    if d.len() <= 3 {
        d
    } else {
        grouped(d.subrange(0, d.len() - 3)) + seq![','] + d.subrange(d.len() - 3, d.len() as int)
    }
}

/// A `.` and `precision` zeros, or nothing for a precision of zero.
pub open spec fn decimals(precision: nat) -> Seq<char> {
    if precision == 0 {
        Seq::empty()
    } else {
        seq!['.'] + zeros(precision)
    }
}

/// The text of the integer `-magnitude` (when `negative`) or `magnitude`
/// under a format specifier, `None` for a specifier outside the supported
/// subset. The empty specifier and `G` write the plain digits, `N` groups
/// them and adds the decimals (two by default), `D` pads the digits with
/// zeros to the precision, `F` adds the decimals (two by default).
pub open spec fn integer_with_spec(negative: bool, magnitude: nat, spec: Seq<char>) -> Option<
    Seq<char>,
> {
    let sign = if negative && magnitude > 0 {
        seq!['-']
    } else {
        Seq::<char>::empty()
    };
    let digits = decimal_digits(magnitude);
    if spec.len() == 0 {
        Some(sign + digits)
    } else {
        match standard_spec(spec) {
            None => None,
            Some((letter, precision)) => {
                if letter == 'G' {
                    if precision is None {
                        Some(sign + digits)
                    } else {
                        None
                    }
                } else if letter == 'N' {
                    let p = match precision {
                        Some(p) => p,
                        None => 2,
                    };
                    Some(sign + grouped(digits) + decimals(p))
                } else if letter == 'D' {
                    let p = match precision {
                        Some(p) => p,
                        None => 0,
                    };
                    let pad = if p > digits.len() {
                        (p - digits.len()) as nat
                    } else {
                        0
                    };
                    Some(sign + zeros(pad) + digits)
                } else {
                    let p = match precision {
                        Some(p) => p,
                        None => 2,
                    };
                    Some(sign + digits + decimals(p))
                }
            },
        }
    }
}

/// Appends `n` zeros.
fn push_zeros(out: &mut Vec<char>, n: usize)
    ensures
        final(out)@ == old(out)@ + zeros(n as nat),
{
    let mut i: usize = 0;
    while i < n
        invariant
            i <= n,
            out@ == old(out)@ + zeros(i as nat),
        decreases n - i,
    {
        out.push('0');
        i += 1;
        assert(zeros(i as nat) == zeros((i - 1) as nat) + seq!['0']);
    }
}

/// Appends [`grouped`] of `d[0..end]`.
fn push_grouped(out: &mut Vec<char>, d: &Vec<char>, end: usize)
    requires
        end <= d.len(),
    ensures
        final(out)@ == old(out)@ + grouped(d@.subrange(0, end as int)),
    decreases end,
{
    let ghost prefix = d@.subrange(0, end as int);
    if end <= 3 {
        let mut i: usize = 0;
        while i < end
            invariant
                i <= end <= d.len(),
                out@ == old(out)@ + d@.subrange(0, i as int),
            decreases end - i,
        {
            out.push(d[i]);
            i += 1;
            assert(d@.subrange(0, i as int) == d@.subrange(0, i - 1) + seq![d@[i - 1]]);
        }
    } else {
        push_grouped(out, d, end - 3);
        out.push(',');
        let ghost mid = out@;
        let mut i: usize = end - 3;
        while i < end
            invariant
                end > 3,
                end - 3 <= i <= end <= d.len(),
                out@ == mid + d@.subrange(end - 3, i as int),
            decreases end - i,
        {
            out.push(d[i]);
            i += 1;
            assert(d@.subrange(end - 3, i as int) == d@.subrange(end - 3, i - 1) + seq![d@[i - 1]]);
        }
        assert(prefix.subrange(0, prefix.len() - 3) == d@.subrange(0, end - 3));
        assert(prefix.subrange(prefix.len() - 3, prefix.len() as int) == d@.subrange(
            end - 3,
            end as int,
        ));
    }
}

/// The value of the precision digits `spec[1..]`, at most three of them.
fn precision_of(spec: &Vec<char>) -> (res: Option<usize>)
    requires
        1 <= spec.len() <= 4,
    ensures
        all_digits(spec@.subrange(1, spec.len() as int)) ==> res == Some(
            digits_value(spec@.subrange(1, spec.len() as int)) as usize,
        ),
        !all_digits(spec@.subrange(1, spec.len() as int)) ==> res is None,
        res matches Some(p) ==> p < 1000,
        all_digits(spec@.subrange(1, spec.len() as int)) ==> digits_value(
            spec@.subrange(1, spec.len() as int),
        ) < 1000,
{
    let mut value: usize = 0;
    let mut i: usize = 1;
    while i < spec.len()
        invariant
            1 <= i <= spec.len() <= 4,
            all_digits(spec@.subrange(1, i as int)),
            value == digits_value(spec@.subrange(1, i as int)),
            value < 1000,
            i == 1 ==> value == 0,
            i == 2 ==> value < 10,
            i == 3 ==> value < 100,
        decreases spec.len() - i,
    {
        let c = spec[i];
        if !('0' <= c && c <= '9') {
            assert(spec@.subrange(1, spec.len() as int)[i - 1] == c);
            return None;
        }
        assert(spec@.subrange(1, i + 1).drop_last() == spec@.subrange(1, i as int));
        value = value * 10 + ((c as u32) - 48) as usize;
        i += 1;
    }
    Some(value)
}

/// [`integer_with_spec`] of the integer and the specifier.
pub fn integer_with_spec_exec(negative: bool, magnitude: u64, spec: &Vec<char>) -> (res: Option<
    Vec<char>,
>)
    ensures
        res matches Some(t) ==> integer_with_spec(negative, magnitude as nat, spec@) == Some(t@),
        res is None ==> integer_with_spec(negative, magnitude as nat, spec@) is None,
{
    let mut digits: Vec<char> = Vec::new();
    push_u64(&mut digits, magnitude);
    assert(digits@ == decimal_digits(magnitude as nat));
    let mut out: Vec<char> = Vec::new();
    if negative && magnitude > 0 {
        out.push('-');
    }
    let ghost sign = out@;
    if spec.len() == 0 {
        push_all(&mut out, &digits);
        return Some(out);
    }
    if spec.len() > 4 {
        return None;
    }
    let first = spec[0];
    let letter = if 'a' <= first && first <= 'z' {
        ((first as u8) - 32) as char
    } else {
        first
    };
    assert(letter == (if 'a' <= spec@[0] && spec@[0] <= 'z' {
        ((spec@[0] as u32) - 32) as char
    } else {
        spec@[0]
    }));
    if !(letter == 'G' || letter == 'N' || letter == 'D' || letter == 'F') {
        return None;
    }
    let precision = match precision_of(spec) {
        Some(p) => p,
        None => {
            return None;
        },
    };
    let written = spec.len() > 1;
    assert(spec@.subrange(1, spec.len() as int).len() == spec.len() - 1);
    assert(standard_spec(spec@) == Some(
        (
            letter,
            if written {
                Some(precision as nat)
            } else {
                None
            },
        ),
    ));
    if letter == 'G' {
        if written {
            return None;
        }
        push_all(&mut out, &digits);
        return Some(out);
    } else if letter == 'N' {
        let p = if written {
            precision
        } else {
            2
        };
        push_grouped(&mut out, &digits, digits.len());
        assert(digits@.subrange(0, digits.len() as int) == digits@);
        if p > 0 {
            out.push('.');
            push_zeros(&mut out, p);
        }
        assert(out@ == sign + grouped(digits@) + decimals(p as nat));
        return Some(out);
    } else if letter == 'D' {
        let p = if written {
            precision
        } else {
            0
        };
        if p > digits.len() {
            push_zeros(&mut out, p - digits.len());
        } else {
            push_zeros(&mut out, 0);
        }
        push_all(&mut out, &digits);
        return Some(out);
    } else {
        let p = if written {
            precision
        } else {
            2
        };
        push_all(&mut out, &digits);
        if p > 0 {
            out.push('.');
            push_zeros(&mut out, p);
        }
        assert(out@ == sign + digits@ + decimals(p as nat));
        return Some(out);
    }
}

} // verus!
