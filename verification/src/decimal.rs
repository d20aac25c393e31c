//! The .NET `decimal` a conditional compares in: a mantissa below `2^96`
//! scaled down by a power of ten between `10^0` and `10^28`, with a sign of
//! its own. Its value is the rational `±mantissa / 10^scale`.

use vstd::prelude::*;
use std::cmp::Ordering;
use crate::number::{all_digits, digits_value, pow10, lemma_digits_value_prefix,
    lemma_digits_value_bound};

verus! {

/// The largest mantissa a decimal holds, `2^96 - 1`.
pub open spec fn max_mantissa() -> nat {
    0xffff_ffff_ffff_ffff_ffff_ffff
}

/// The largest scale a decimal has.
pub open spec fn max_scale() -> nat {
    28
}

/// A .NET `decimal`.
#[derive(Debug, Clone, Copy, PartialEq, Eq)]
pub struct Decimal {
    pub negative: bool,
    pub mantissa: u128,
    pub scale: u32,
}

/// Why a text is not a decimal.
#[derive(Debug, Clone, Copy, PartialEq, Eq, Structural)]
pub enum DecimalError {
    /// Not an optional sign, digits with at most one `.`, and an optional
    /// sign.
    Format,
    /// Too large for a decimal.
    Overflow,
}

impl Decimal {
    /// The mantissa and the scale are in range.
    pub open spec fn wf(self) -> bool {
        self.mantissa <= max_mantissa() && self.scale <= max_scale()
    }

    /// The mantissa with the sign applied; a negative zero is zero.
    pub open spec fn signed(self) -> int {
        if self.negative {
            -(self.mantissa as int)
        } else {
            self.mantissa as int
        }
    }

    /// The integer `n` as a decimal of scale zero.
    pub open spec fn of_int(n: int) -> Decimal {
        Decimal {
            negative: n < 0,
            mantissa: if n < 0 {
                (-n) as u128
            } else {
                n as u128
            },
            scale: 0,
        }
    }

    /// The integer `value` as a decimal of scale zero.
    pub fn from_i128(value: i128) -> (res: Decimal)
        requires
            -0xffff_ffff_ffff_ffff_ffff_ffff <= value <= 0xffff_ffff_ffff_ffff_ffff_ffff,
        ensures
            res == Decimal::of_int(value as int),
            res.wf(),
            res.scale == 0,
            res.signed() == value,
    {
        if value < 0 {
            Decimal { negative: true, mantissa: (0 - value) as u128, scale: 0 }
        } else {
            Decimal { negative: false, mantissa: value as u128, scale: 0 }
        }
    }

    /// Whether the value is below zero: a negative zero is not.
    pub fn is_negative(&self) -> (res: bool)
        ensures
            res == (self.signed() < 0),
    {
        self.negative && self.mantissa != 0
    }

    /// `Math.Floor` of the value: the greatest integer not above it.
    pub fn floor(&self) -> (res: i128)
        requires
            self.wf(),
        ensures
            res == floor_spec(*self),
    {
        let divisor = pow10_u128(self.scale);
        let quotient = self.mantissa / divisor;
        let rest = self.mantissa % divisor;
        proof {
            lemma_floor_cases(self.mantissa as int, divisor as int, self.negative);
        }
        if !self.negative {
            quotient as i128
        } else if rest == 0 {
            0 - (quotient as i128)
        } else {
            0 - (quotient as i128) - 1
        }
    }
}

/// The greatest integer not above the value of `d`.
pub open spec fn floor_spec(d: Decimal) -> int {
    d.signed() / (pow10(d.scale as nat) as int)
}

proof fn lemma_floor_cases(m: int, p: int, negative: bool)
    requires
        m >= 0,
        p > 0,
    ensures
        !negative ==> m / p == (if negative {
            -m
        } else {
            m
        }) / p,
        negative && m % p == 0 ==> (-m) / p == -(m / p),
        negative && m % p != 0 ==> (-m) / p == -(m / p) - 1,
{
    let q = m / p;
    let r = m % p;
    assert(m == q * p + r && 0 <= r < p) by (nonlinear_arith)
        requires
            p > 0,
            q == m / p,
            r == m % p,
    ;
    if negative && r == 0 {
        assert(-m == (-q) * p) by (nonlinear_arith)
            requires
                m == q * p + r,
                r == 0,
        ;
        assert((-m) / p == -q) by (nonlinear_arith)
            requires
                -m == (-q) * p,
                p > 0,
        ;
    }
    if negative && r != 0 {
        assert(-m == (-q - 1) * p + (p - r)) by (nonlinear_arith)
            requires
                m == q * p + r,
        ;
        assert((-m) / p == -q - 1) by (nonlinear_arith)
            requires
                -m == (-q - 1) * p + (p - r),
                0 < p - r < p,
        ;
    }
}

/// `10^n` for a scale, as a `u128`.
pub fn pow10_u128(n: u32) -> (res: u128)
    requires
        n <= 28,
    ensures
        res == pow10(n as nat),
        res > 0,
{
    let mut res: u128 = 1;
    let mut i: u32 = 0;
    proof {
        lemma_pow10_monotone(0, 28);
    }
    while i < n
        invariant
            i <= n <= 28,
            res == pow10(i as nat),
            res <= pow10(28),
        decreases n - i,
    {
        proof {
            lemma_pow10_monotone((i + 1) as nat, 28);
            reveal_with_fuel(pow10, 29);
        }
        res = res * 10;
        i += 1;
    }
    proof {
        lemma_pow10_positive(n as nat);
    }
    res
}

pub proof fn lemma_pow10_monotone(m: nat, n: nat)
    requires
        m <= n,
    ensures
        pow10(m) <= pow10(n),
    decreases n - m,
{
    if m < n {
        lemma_pow10_monotone(m, (n - 1) as nat);
    }
}

pub proof fn lemma_pow10_positive(n: nat)
    ensures
        pow10(n) > 0,
    decreases n,
{
    if n > 0 {
        lemma_pow10_positive((n - 1) as nat);
    }
}

pub proof fn lemma_pow10_add(a: nat, b: nat)
    ensures
        pow10(a + b) == pow10(a) * pow10(b),
    decreases b,
{
    if b > 0 {
        let c = (b - 1) as nat;
        lemma_pow10_add(a, c);
        let x = pow10(a);
        let y = pow10(c);
        assert(pow10(a + c) == x * y);
        assert(a + b == (a + c) + 1);
        assert(pow10(a + b) == 10 * pow10(a + c));
        assert(pow10(b) == 10 * y);
        assert(10 * (x * y) == x * (10 * y)) by (nonlinear_arith);
    } else {
        assert(a + b == a);
        assert(pow10(b) == 1);
    }
}

// ---------------------------------------------------------------------------
// Parsing
// ---------------------------------------------------------------------------

/// The index of the first `.` of `s`.
pub open spec fn first_dot(s: Seq<char>) -> Option<nat>
    decreases s.len(),
{
    if s.len() == 0 {
        None
    } else {
        match first_dot(s.drop_last()) {
            Some(k) => Some(k),
            None => if s.last() == '.' {
                Some((s.len() - 1) as nat)
            } else {
                None
            },
        }
    }
}

/// Whether `s` holds a digit other than `0`.
pub open spec fn has_nonzero(s: Seq<char>) -> bool {
    exists|i: int| 0 <= i < s.len() && #[trigger] s[i] != '0'
}

/// The digits as one integer, with the last `dropped` of them rounded away,
/// half to even.
pub open spec fn round_value(digits: Seq<char>, dropped: nat) -> nat {
    let k = digits.len() - dropped;
    let m = digits_value(digits.take(k));
    let tail = digits.skip(k);
    let up = if tail.len() == 0 || '5' > tail.first() {
        false
    } else if tail.first() == '5' {
        has_nonzero(tail.drop_first()) || m % 2 == 1
    } else {
        true
    };
    if up {
        m + 1
    } else {
        m
    }
}

/// The largest scale, from `s` down, whose rounded mantissa fits.
pub open spec fn best_scale(digits: Seq<char>, frac: nat, s: nat) -> Option<nat>
    decreases s,
{
    if round_value(digits, (frac - s) as nat) <= max_mantissa() {
        Some(s)
    } else if s == 0 {
        None
    } else {
        best_scale(digits, frac, (s - 1) as nat)
    }
}

/// The sign, the digits and the number of fraction digits of a decimal
/// text — one sign, leading or trailing, and digits with at most one `.` —
/// or `None` when the text is not of that form.
pub open spec fn decimal_parts(text: Seq<char>) -> Option<(bool, Seq<char>, nat)> {
    let signed = text.len() > 0 && (text[0] == '-' || text[0] == '+');
    let r1 = if signed {
        text.drop_first()
    } else {
        text
    };
    let trail = r1.len() > 0 && (r1.last() == '-' || r1.last() == '+');
    if signed && trail {
        None
    } else {
        let negative = (text.len() > 0 && text[0] == '-') || (trail && r1.last() == '-');
        let rest = if trail {
            r1.drop_last()
        } else {
            r1
        };
        let integer = match first_dot(rest) {
            Some(p) => rest.take(p as int),
            None => rest,
        };
        let fraction = match first_dot(rest) {
            Some(p) => rest.skip(p + 1 as int),
            None => Seq::<char>::empty(),
        };
        let digits = integer + fraction;
        if digits.len() == 0 || !all_digits(digits) {
            None
        } else {
            Some((negative, digits, fraction.len()))
        }
    }
}

/// The decimal of a sign, digits and a number of fraction digits: the
/// largest scale up to 28 whose mantissa, rounded half to even, fits.
pub open spec fn fit_spec(negative: bool, digits: Seq<char>, frac: nat) -> Result<
    Decimal,
    DecimalError,
> {
    let top = if frac < max_scale() {
        frac
    } else {
        max_scale()
    };
    match best_scale(digits, frac, top) {
        None => Err(DecimalError::Overflow),
        Some(s) => Ok(
            Decimal {
                negative,
                mantissa: round_value(digits, (frac - s) as nat) as u128,
                scale: s as u32,
            },
        ),
    }
}

/// .NET `decimal.Parse` with the invariant culture, for the texts a
/// condition can hold: one sign, leading or trailing; digits with at most one
/// `.`; digits past what a decimal holds rounded away, half to even, the
/// scale reduced until the mantissa fits.
pub open spec fn parse_decimal_spec(text: Seq<char>) -> Result<Decimal, DecimalError> {
    match decimal_parts(text) {
        None => Err(DecimalError::Format),
        Some((negative, digits, frac)) => fit_spec(negative, digits, frac),
    }
}

/// [`round_value`] of the digits when it fits a mantissa, `None` when it
/// does not.
#[verifier::loop_isolation(false)]
pub fn round_digits(digits: &Vec<char>, dropped: usize) -> (res: Option<u128>)
    requires
        dropped <= digits.len(),
        all_digits(digits@),
    ensures
        res is Some <==> round_value(digits@, dropped as nat) <= max_mantissa(),
        res matches Some(m) ==> m == round_value(digits@, dropped as nat),
{
    let k = digits.len() - dropped;
    let ghost kept = digits@.take(k as int);
    assert(all_digits(kept));
    let mut m: u128 = 0;
    let mut i: usize = 0;
    while i < k
        invariant
            k == digits.len() - dropped,
            kept == digits@.take(k as int),
            all_digits(digits@),
            all_digits(kept),
            i <= k,
            m == digits_value(kept.take(i as int)),
            m <= max_mantissa(),
        decreases k - i,
    {
        proof {
            assert(kept.take(i + 1).drop_last() == kept.take(i as int));
            assert(kept.take(i + 1).last() == digits@[i as int]);
            assert(kept[i as int] == digits@[i as int]);
        }
        m = m * 10 + ((digits[i] as u32) - 48) as u128;
        if m > 0xffff_ffff_ffff_ffff_ffff_ffff {
            proof {
                lemma_digits_value_prefix(kept, (i + 1) as nat);
            }
            return None;
        }
        i += 1;
    }
    assert(kept.take(k as int) == kept);
    let up = if k == digits.len() {
        false
    } else {
        let c = digits[k];
        assert(digits@.skip(k as int).first() == c);
        if '5' > c {
            false
        } else if c == '5' {
            let ghost tail = digits@.skip(k as int).drop_first();
            let mut nonzero = false;
            let mut j: usize = k + 1;
            while j < digits.len()
                invariant
                    k < j <= digits.len(),
                    tail == digits@.skip(k + 1),
                    nonzero <==> exists|x: int| 0 <= x < j - k - 1 && #[trigger] tail[x] != '0',
                decreases digits.len() - j,
            {
                assert(tail[j - k - 1] == digits@[j as int]);
                if digits[j] != '0' {
                    nonzero = true;
                }
                j += 1;
            }
            nonzero || m % 2 == 1
        } else {
            true
        }
    };
    if up {
        if m >= 0xffff_ffff_ffff_ffff_ffff_ffff {
            None
        } else {
            Some(m + 1)
        }
    } else {
        Some(m)
    }
}

/// [`first_dot`] of `s`.
fn find_dot(s: &Vec<char>) -> (res: Option<usize>)
    ensures
        res matches Some(p) ==> first_dot(s@) == Some(p as nat) && p < s.len(),
        res is None ==> first_dot(s@) is None,
{
    let mut i: usize = 0;
    while i < s.len()
        invariant
            i <= s.len(),
            first_dot(s@.take(i as int)) is None,
        decreases s.len() - i,
    {
        assert(s@.take(i + 1).drop_last() == s@.take(i as int));
        if s[i] == '.' {
            assert(first_dot(s@.take(i + 1)) == Some(i as nat));
            proof {
                lemma_first_dot_prefix(s@, (i + 1) as nat);
            }
            return Some(i);
        }
        i += 1;
    }
    assert(s@.take(s.len() as int) == s@);
    None
}

proof fn lemma_first_dot_prefix(s: Seq<char>, n: nat)
    requires
        n <= s.len(),
        first_dot(s.take(n as int)) is Some,
    ensures
        first_dot(s) == first_dot(s.take(n as int)),
    decreases s.len() - n,
{
    if n < s.len() {
        assert(s.take(n + 1 as int).drop_last() == s.take(n as int));
        lemma_first_dot_prefix(s, n + 1);
    } else {
        assert(s.take(n as int) == s);
    }
}

/// [`decimal_parts`] of `text`.
#[verifier::loop_isolation(false)]
fn split_decimal(text: &Vec<char>) -> (res: Option<(bool, Vec<char>, usize)>)
    ensures
        res is None <==> decimal_parts(text@) is None,
        res matches Some((n, d, f)) ==> decimal_parts(text@) == Some((n, d@, f as nat))
            && f <= d.len(),
{
    let n = text.len();
    let signed = n > 0 && (text[0] == '-' || text[0] == '+');
    let from: usize = if signed {
        1
    } else {
        0
    };
    let trail = n > from && (text[n - 1] == '-' || text[n - 1] == '+');
    let ghost r1 = if signed {
        text@.drop_first()
    } else {
        text@
    };
    assert(r1 == text@.subrange(from as int, n as int));
    if signed && trail {
        return None;
    }
    let negative = (n > 0 && text[0] == '-') || (trail && text[n - 1] == '-');
    let to: usize = if trail {
        n - 1
    } else {
        n
    };
    let rest = crate::text::sub_chars(text, from, to);
    assert(rest@ == (if trail {
        r1.drop_last()
    } else {
        r1
    }));
    let (integer, fraction) = match find_dot(&rest) {
        Some(p) => (crate::text::sub_chars(&rest, 0, p), crate::text::sub_chars(&rest, p + 1, rest.len())),
        None => (crate::text::sub_chars(&rest, 0, rest.len()), Vec::new()),
    };
    assert(rest@.subrange(0, rest.len() as int) == rest@);
    let mut digits = integer;
    crate::text::push_all(&mut digits, &fraction);
    if digits.len() == 0 {
        return None;
    }
    let mut i: usize = 0;
    while i < digits.len()
        invariant
            i <= digits.len(),
            forall|k: int| 0 <= k < i ==> '0' <= #[trigger] digits@[k] && digits@[k] <= '9',
        decreases digits.len() - i,
    {
        if !('0' <= digits[i] && digits[i] <= '9') {
            assert(!all_digits(digits@));
            return None;
        }
        i += 1;
    }
    let f = fraction.len();
    Some((negative, digits, f))
}

/// [`fit_spec`] of the sign, the digits and the number of fraction digits.
fn fit(negative: bool, digits: &Vec<char>, frac: usize) -> (res: Result<Decimal, DecimalError>)
    requires
        frac <= digits.len(),
        all_digits(digits@),
    ensures
        res == fit_spec(negative, digits@, frac as nat),
        res matches Ok(d) ==> d.wf(),
{
    let top: usize = if frac < 28 {
        frac
    } else {
        28
    };
    let mut s: usize = top;
    loop
        invariant
            s <= top <= 28,
            top <= frac <= digits.len(),
            all_digits(digits@),
            top == (if frac < max_scale() {
                frac as nat
            } else {
                max_scale()
            }),
            best_scale(digits@, frac as nat, top as nat) == best_scale(
                digits@,
                frac as nat,
                s as nat,
            ),
        decreases s,
    {
        match round_digits(digits, frac - s) {
            Some(m) => {
                return Ok(Decimal { negative, mantissa: m, scale: s as u32 });
            },
            None => {
                if s == 0 {
                    return Err(DecimalError::Overflow);
                }
                s -= 1;
            },
        }
    }
}

/// [`parse_decimal_spec`] of `text`.
pub fn parse_decimal_chars(text: &Vec<char>) -> (res: Result<Decimal, DecimalError>)
    ensures
        res == parse_decimal_spec(text@),
        res matches Ok(d) ==> d.wf(),
{
    match split_decimal(text) {
        None => Err(DecimalError::Format),
        Some((negative, digits, frac)) => fit(negative, &digits, frac),
    }
}

/// The message .NET's `decimal.Parse` fails with.
pub open spec fn decimal_error_message(error: DecimalError, text: Seq<char>) -> Seq<char> {
    match error {
        DecimalError::Format => crate::dotnet_messages::not_in_a_correct_format_spec(text),
        DecimalError::Overflow => "Value was either too large or too small for a Decimal."@,
    }
}

/// [`parse_decimal_spec`] of `text`, failing with .NET's message.
pub fn parse_decimal(text: &str) -> (res: Result<Decimal, String>)
    ensures
        res matches Ok(d) ==> parse_decimal_spec(text@) == Ok::<Decimal, DecimalError>(d) && d.wf(),
        res matches Err(m) ==> parse_decimal_spec(text@) matches Err(e) && m@
            == decimal_error_message(e, text@),
{
    let chars = crate::text::chars_of(text);
    match parse_decimal_chars(&chars) {
        Ok(d) => Ok(d),
        Err(DecimalError::Format) => Err(crate::dotnet_messages::not_in_a_correct_format(&chars)),
        Err(DecimalError::Overflow) => Err(crate::text::owned(crate::dotnet_messages::decimal_overflow())),
    }
}

// ---------------------------------------------------------------------------
// Comparing
// ---------------------------------------------------------------------------

/// How `a` compares to `b`.
pub open spec fn order_of(a: int, b: int) -> Ordering {
    if a < b {
        Ordering::Less
    } else if a > b {
        Ordering::Greater
    } else {
        Ordering::Equal
    }
}

/// The value of `d` scaled up by the scale of `other`: comparing two of these
/// crosswise compares the two values.
pub open spec fn cross(d: Decimal, other: Decimal) -> int {
    d.signed() * pow10(other.scale as nat)
}

/// The magnitude of `d` scaled up by the scale of `other`.
pub open spec fn cross_magnitude(d: Decimal, other: Decimal) -> int {
    d.mantissa * pow10(other.scale as nat)
}

/// `o` the other way round.
pub open spec fn flip(o: Ordering) -> Ordering {
    match o {
        Ordering::Less => Ordering::Greater,
        Ordering::Greater => Ordering::Less,
        Ordering::Equal => Ordering::Equal,
    }
}

fn flipped(o: Ordering) -> (res: Ordering)
    ensures
        res == flip(o),
{
    match o {
        Ordering::Less => Ordering::Greater,
        Ordering::Greater => Ordering::Less,
        Ordering::Equal => Ordering::Equal,
    }
}

proof fn lemma_order_scaled(x: int, y: int, p: int)
    requires
        p > 0,
    ensures
        order_of(x * p, y * p) == order_of(x, y),
{
    if x < y {
        assert(x * p < y * p) by (nonlinear_arith)
            requires
                x < y,
                p > 0,
        ;
    } else if x > y {
        assert(x * p > y * p) by (nonlinear_arith)
            requires
                x > y,
                p > 0,
        ;
    }
}

/// The mantissa of `d`, as an integer.
pub open spec fn magnitude(d: Decimal) -> int {
    d.mantissa as int
}

/// `10^scale` of `d`.
pub open spec fn scale_factor(d: Decimal) -> int {
    pow10(d.scale as nat) as int
}

/// `10` to the difference of the scales of `a` and `b`.
pub open spec fn relative_factor(a: Decimal, b: Decimal) -> int {
    pow10((a.scale - b.scale) as nat) as int
}

proof fn lemma_relative_scale(a: Decimal, b: Decimal)
    requires
        a.scale >= b.scale,
    ensures
        scale_factor(b) > 0,
        cross_magnitude(a, b) == magnitude(a) * scale_factor(b),
        cross_magnitude(b, a) == (magnitude(b) * relative_factor(a, b)) * scale_factor(b),
        relative_factor(a, b) == pow10((a.scale - b.scale) as nat),
{
    lemma_pow10_add((a.scale - b.scale) as nat, b.scale as nat);
    lemma_pow10_positive(b.scale as nat);
    let f = relative_factor(a, b);
    let pb = scale_factor(b);
    assert(((a.scale - b.scale) as nat + b.scale as nat) as nat == a.scale as nat);
    assert(pow10(a.scale as nat) == f * pb);
    assert(magnitude(b) * (f * pb) == (magnitude(b) * f) * pb) by (nonlinear_arith);
}

/// How the magnitudes of `a` and `b` compare, crosswise scaled.
fn compare_magnitudes(a: &Decimal, b: &Decimal) -> (res: Ordering)
    requires
        a.wf(),
        b.wf(),
    ensures
        res == order_of(cross_magnitude(*a, *b), cross_magnitude(*b, *a)),
    decreases 1nat,
{
    if a.scale < b.scale {
        let r = compare_magnitudes_ordered(b, a);
        return flipped(r);
    }
    compare_magnitudes_ordered(a, b)
}

/// [`compare_magnitudes`] for an `a` of at least the scale of `b`.
fn compare_magnitudes_ordered(a: &Decimal, b: &Decimal) -> (res: Ordering)
    requires
        a.wf(),
        b.wf(),
        a.scale >= b.scale,
    ensures
        res == order_of(cross_magnitude(*a, *b), cross_magnitude(*b, *a)),
{
    let f = pow10_u128(a.scale - b.scale);
    proof {
        lemma_relative_scale(*a, *b);
        lemma_order_scaled(magnitude(*a), magnitude(*b) * relative_factor(*a, *b), scale_factor(*b));
    }
    match b.mantissa.checked_mul(f) {
        Some(scaled) => {
            if a.mantissa < scaled {
                Ordering::Less
            } else if a.mantissa > scaled {
                Ordering::Greater
            } else {
                Ordering::Equal
            }
        },
        None => Ordering::Less,
    }
}

impl Decimal {
    /// How the value of `self` compares to the value of `other`.
    pub fn cmp_value(&self, other: &Decimal) -> (res: Ordering)
        requires
            self.wf(),
            other.wf(),
        ensures
            res == order_of(cross(*self, *other), cross(*other, *self)),
    {
        let a_negative = self.is_negative();
        let b_negative = other.is_negative();
        proof {
            lemma_cross_signs(*self, *other);
        }
        if !a_negative && b_negative {
            Ordering::Greater
        } else if a_negative && !b_negative {
            Ordering::Less
        } else if !a_negative {
            compare_magnitudes(self, other)
        } else {
            let r = compare_magnitudes(self, other);
            flipped(r)
        }
    }
}

proof fn lemma_cross_signs(a: Decimal, b: Decimal)
    ensures
        a.signed() >= 0 ==> cross(a, b) == cross_magnitude(a, b),
        a.signed() < 0 ==> cross(a, b) == -cross_magnitude(a, b),
        b.signed() >= 0 ==> cross(b, a) == cross_magnitude(b, a),
        b.signed() < 0 ==> cross(b, a) == -cross_magnitude(b, a),
        a.signed() < 0 && b.signed() >= 0 ==> cross(a, b) < cross(b, a),
        a.signed() >= 0 && b.signed() < 0 ==> cross(a, b) > cross(b, a),
{
    lemma_pow10_positive(a.scale as nat);
    lemma_pow10_positive(b.scale as nat);
    let pa = pow10(a.scale as nat) as int;
    let pb = pow10(b.scale as nat) as int;
    assert(a.signed() >= 0 ==> a.signed() == a.mantissa);
    assert(a.signed() < 0 ==> a.signed() == -(a.mantissa as int));
    assert(b.signed() >= 0 ==> b.signed() == b.mantissa);
    assert(b.signed() < 0 ==> b.signed() == -(b.mantissa as int));
    assert((-(a.mantissa as int)) * pb == -(a.mantissa * pb)) by (nonlinear_arith);
    assert((-(b.mantissa as int)) * pa == -(b.mantissa * pa)) by (nonlinear_arith);
    assert(a.signed() < 0 ==> a.signed() * pb < 0) by (nonlinear_arith)
        requires
            pb > 0,
    ;
    assert(b.signed() >= 0 ==> b.signed() * pa >= 0) by (nonlinear_arith)
        requires
            pa > 0,
    ;
    assert(a.signed() >= 0 ==> a.signed() * pb >= 0) by (nonlinear_arith)
        requires
            pb > 0,
    ;
    assert(b.signed() < 0 ==> b.signed() * pa < 0) by (nonlinear_arith)
        requires
            pa > 0,
    ;
}

/// Comparing the other way round gives the opposite answer.
pub proof fn law_compare_antisymmetric(a: Decimal, b: Decimal)
    ensures
        order_of(cross(a, b), cross(b, a)) == flip(order_of(cross(b, a), cross(a, b))),
        order_of(cross(a, a), cross(a, a)) == Ordering::Equal,
{
}

/// Comparing decimals is transitive: values compare as the rationals
/// `±mantissa / 10^scale` they stand for.
pub proof fn law_compare_transitive(a: Decimal, b: Decimal, c: Decimal)
    requires
        cross(a, b) < cross(b, a),
        cross(b, c) < cross(c, b),
    ensures
        cross(a, c) < cross(c, a),
{
    lemma_cross_transitive(a, b, c);
}

proof fn lemma_cross_transitive(a: Decimal, b: Decimal, c: Decimal)
    requires
        cross(a, b) < cross(b, a),
        cross(b, c) < cross(c, b),
    ensures
        cross(a, c) < cross(c, a),
{
    lemma_pow10_positive(a.scale as nat);
    lemma_pow10_positive(b.scale as nat);
    lemma_pow10_positive(c.scale as nat);
    let pa = pow10(a.scale as nat) as int;
    let pb = pow10(b.scale as nat) as int;
    let pc = pow10(c.scale as nat) as int;
    let x = a.signed();
    let y = b.signed();
    let z = c.signed();
    assert(x * pc < z * pa) by (nonlinear_arith)
        requires
            x * pb < y * pa,
            y * pc < z * pb,
            pa > 0,
            pb > 0,
            pc > 0,
    {
        assert(x * pb * pc < y * pa * pc);
        assert(y * pc * pa < z * pb * pa);
        assert(x * pc * pb < z * pa * pb);
    }
}

} // verus!
