//! Character-level helpers shared by the parser, the engine and the
//! extensions: text as a sequence of Unicode scalars, .NET's notion of white
//! space and of UTF-16 length, ASCII case folding, decimal digits and the
//! padding an alignment asks for.

use vstd::prelude::*;

verus! {

/// std's `String: FromIterator<char>`: the string holding exactly these
/// characters, in order.
#[verifier::external_body]
pub(crate) fn string_from_chars(chars: &[char]) -> (res: String)
    ensures
        res@ == chars@,
{
    chars.iter().collect()
}

/// The characters of `s`, one per Unicode scalar value.
pub fn chars_of(s: &str) -> (res: Vec<char>)
    ensures
        res@ == s@,
{
    let n = s.unicode_len();
    let mut res: Vec<char> = Vec::new();
    let mut i: usize = 0;
    while i < n
        invariant
            n == s@.len(),
            i <= n,
            res@ == s@.subrange(0, i as int),
        decreases n - i,
    {
        res.push(s.get_char(i));
        i += 1;
    }
    res
}

/// The characters of `s` from `from` up to, not including, `to`.
pub fn sub_chars(s: &Vec<char>, from: usize, to: usize) -> (res: Vec<char>)
    requires
        from <= to <= s.len(),
    ensures
        res@ == s@.subrange(from as int, to as int),
{
    let mut res: Vec<char> = Vec::new();
    let mut i = from;
    while i < to
        invariant
            from <= i <= to <= s.len(),
            res@ == s@.subrange(from as int, i as int),
        decreases to - i,
    {
        res.push(s[i]);
        i += 1;
    }
    res
}

/// Appends `more` to `out`.
pub fn push_all(out: &mut Vec<char>, more: &Vec<char>)
    ensures
        final(out)@ == old(out)@ + more@,
{
    let mut i: usize = 0;
    while i < more.len()
        invariant
            i <= more.len(),
            out@ == old(out)@ + more@.subrange(0, i as int),
        decreases more.len() - i,
    {
        out.push(more[i]);
        i += 1;
        assert(more@.subrange(0, i as int) == more@.subrange(0, i - 1) + seq![more@[i - 1]]);
    }
    assert(more@.subrange(0, more.len() as int) == more@);
}

/// Appends the characters of `s` to `out`.
pub fn push_str(out: &mut Vec<char>, s: &str)
    ensures
        final(out)@ == old(out)@ + s@,
{
    let more = chars_of(s);
    push_all(out, &more);
}

/// The string made of the characters of `chars`.
pub fn to_string(chars: &Vec<char>) -> (res: String)
    ensures
        res@ == chars@,
{
    string_from_chars(chars.as_slice())
}

/// Whether two character sequences are equal.
pub fn chars_equal(a: &Vec<char>, b: &Vec<char>) -> (res: bool)
    ensures
        res == (a@ == b@),
{
    if a.len() != b.len() {
        return false;
    }
    let mut i: usize = 0;
    while i < a.len()
        invariant
            a.len() == b.len(),
            i <= a.len(),
            forall|j: int| 0 <= j < i ==> a@[j] == b@[j],
        decreases a.len() - i,
    {
        if a[i] != b[i] {
            return false;
        }
        i += 1;
    }
    assert(a@ =~= b@);
    true
}

/// Whether `s` spells `lit` exactly.
pub fn chars_equal_str(s: &Vec<char>, lit: &str) -> (res: bool)
    ensures
        res == (s@ == lit@),
{
    let l = chars_of(lit);
    chars_equal(s, &l)
}

// ---------------------------------------------------------------------------
// Case folding
// ---------------------------------------------------------------------------

/// The ASCII lowercase of `c`; every other character is its own fold.
pub open spec fn fold_char(c: char) -> char {
    if 'A' <= c && c <= 'Z' {
        ((c as u32) + 32) as char
    } else {
        c
    }
}

/// Whether two characters are equal ignoring ASCII case.
pub open spec fn char_eq_ignore_case(a: char, b: char) -> bool {
    fold_char(a) == fold_char(b)
}

/// Whether two texts are equal ignoring ASCII case.
pub open spec fn eq_ignore_case(a: Seq<char>, b: Seq<char>) -> bool {
    &&& a.len() == b.len()
    &&& forall|i: int| 0 <= i < a.len() ==> #[trigger] char_eq_ignore_case(a[i], b[i])
}

/// [`fold_char`] of `c`.
pub fn fold(c: char) -> (res: char)
    ensures
        res == fold_char(c),
{
    if 'A' <= c && c <= 'Z' {
        let b = (c as u8) + 32;
        let res = b as char;
        assert(res == fold_char(c)) by {
            assert((c as u32) < 128);
        }
        res
    } else {
        c
    }
}

/// Whether `a` and `b` are equal ignoring ASCII case.
pub fn chars_equal_ignore_case(a: &Vec<char>, b: &Vec<char>) -> (res: bool)
    ensures
        res == eq_ignore_case(a@, b@),
{
    if a.len() != b.len() {
        return false;
    }
    let mut i: usize = 0;
    while i < a.len()
        invariant
            a.len() == b.len(),
            i <= a.len(),
            forall|j: int| 0 <= j < i ==> #[trigger] char_eq_ignore_case(a@[j], b@[j]),
        decreases a.len() - i,
    {
        if fold(a[i]) != fold(b[i]) {
            assert(!char_eq_ignore_case(a@[i as int], b@[i as int]));
            return false;
        }
        i += 1;
    }
    true
}

// ---------------------------------------------------------------------------
// White space and UTF-16
// ---------------------------------------------------------------------------

/// .NET `char.IsWhiteSpace`: the Unicode separators and the control
/// characters U+0009 to U+000D, U+0085.
pub open spec fn is_dotnet_white_spec(c: char) -> bool {
    ||| ('\u{9}' <= c && c <= '\u{d}')
    ||| c == ' '
    ||| c == '\u{85}'
    ||| c == '\u{a0}'
    ||| c == '\u{1680}'
    ||| ('\u{2000}' <= c && c <= '\u{200a}')
    ||| c == '\u{2028}'
    ||| c == '\u{2029}'
    ||| c == '\u{202f}'
    ||| c == '\u{205f}'
    ||| c == '\u{3000}'
}

/// [`is_dotnet_white_spec`] of `c`.
pub fn is_dotnet_white(c: char) -> (res: bool)
    ensures
        res == is_dotnet_white_spec(c),
{
    ('\u{9}' <= c && c <= '\u{d}') || c == ' ' || c == '\u{85}' || c == '\u{a0}' || c == '\u{1680}'
        || ('\u{2000}' <= c && c <= '\u{200a}') || c == '\u{2028}' || c == '\u{2029}' || c
        == '\u{202f}' || c == '\u{205f}' || c == '\u{3000}'
}

/// The number of UTF-16 code units a character takes: two outside the Basic
/// Multilingual Plane, one inside it.
pub open spec fn utf16_units(c: char) -> nat {
    if (c as u32) >= 0x10000 {
        2
    } else {
        1
    }
}

/// The length of a text in UTF-16 code units, .NET's `string.Length`.
pub open spec fn utf16_len_spec(s: Seq<char>) -> nat
    decreases s.len(),
{
    if s.len() == 0 {
        0
    } else {
        utf16_len_spec(s.drop_last()) + utf16_units(s.last())
    }
}

/// A text is never shorter in UTF-16 code units than in characters, nor more
/// than twice as long.
pub proof fn lemma_utf16_len_bounds(s: Seq<char>)
    ensures
        s.len() <= utf16_len_spec(s) <= 2 * s.len(),
    decreases s.len(),
{
    if s.len() > 0 {
        lemma_utf16_len_bounds(s.drop_last());
    }
}

/// [`utf16_len_spec`] of `s`.
pub fn utf16_length(s: &Vec<char>) -> (res: usize)
    requires
        s.len() <= usize::MAX / 2,
    ensures
        res == utf16_len_spec(s@),
{
    let mut n: usize = 0;
    let mut i: usize = 0;
    while i < s.len()
        invariant
            i <= s.len() <= usize::MAX / 2,
            n == utf16_len_spec(s@.subrange(0, i as int)),
        decreases s.len() - i,
    {
        proof {
            lemma_utf16_len_bounds(s@.subrange(0, i as int));
            assert(s@.subrange(0, i + 1).drop_last() == s@.subrange(0, i as int));
        }
        if (s[i] as u32) >= 0x10000 {
            n = n + 2;
        } else {
            n = n + 1;
        }
        i += 1;
    }
    assert(s@.subrange(0, s.len() as int) == s@);
    n
}

/// The length of `s` in UTF-16 code units, .NET's `string.Length`.
pub fn utf16_len(s: &str) -> (res: usize)
    requires
        s@.len() <= usize::MAX / 2,
    ensures
        res == utf16_len_spec(s@),
{
    let chars = chars_of(s);
    utf16_length(&chars)
}

// ---------------------------------------------------------------------------
// Digits
// ---------------------------------------------------------------------------

/// The ASCII digit of `d`, for `d` below ten.
pub open spec fn digit_char(d: nat) -> char {
    ((d + 48) as u32) as char
}

/// The decimal digits of `n`, most significant first, with no leading zero.
pub open spec fn decimal_digits(n: nat) -> Seq<char>
    decreases n,
{
    if n < 10 {
        seq![digit_char(n)]
    } else {
        decimal_digits(n / 10) + seq![digit_char(n % 10)]
    }
}

/// The character of the digit `d`.
pub fn digit(d: u64) -> (c: char)
    requires
        d < 10,
    ensures
        c == digit_char(d as nat),
{
    let b: u8 = (d as u8) + 48;
    b as char
}

/// Appends the decimal digits of `n` to `out`.
pub fn push_u64(out: &mut Vec<char>, n: u64)
    ensures
        final(out)@ == old(out)@ + decimal_digits(n as nat),
    decreases n,
{
    if n >= 10 {
        push_u64(out, n / 10);
    }
    out.push(digit(n % 10));
}

/// The text of a signed integer, with a leading `-` when it is negative.
pub open spec fn integer_text(n: int) -> Seq<char> {
    if n < 0 {
        seq!['-'] + decimal_digits((-n) as nat)
    } else {
        decimal_digits(n as nat)
    }
}

/// Appends [`integer_text`] of `n` to `out`.
pub fn push_i64(out: &mut Vec<char>, n: i64)
    ensures
        final(out)@ == old(out)@ + integer_text(n as int),
{
    if n < 0 {
        out.push('-');
        let magnitude: u64 = if n == i64::MIN {
            9223372036854775808u64
        } else {
            (-n) as u64
        };
        let ghost mid = out@;
        push_u64(out, magnitude);
        assert(out@ == old(out)@ + (seq!['-'] + decimal_digits(magnitude as nat)));
    } else {
        push_u64(out, n as u64);
    }
}

/// The text of `n`, as [`integer_text`] spells it.
pub fn i64_text(n: i64) -> (res: Vec<char>)
    ensures
        res@ == integer_text(n as int),
{
    let mut out: Vec<char> = Vec::new();
    push_i64(&mut out, n);
    assert(out@ == Seq::<char>::empty() + integer_text(n as int));
    out
}

// ---------------------------------------------------------------------------
// Alignment
// ---------------------------------------------------------------------------

/// `n` spaces.
pub open spec fn spaces(n: nat) -> Seq<char> {
    Seq::new(n, |i: int| ' ')
}

/// `text` padded to `alignment` UTF-16 code units: on the left when the
/// alignment is positive, on the right when it is negative. A text that is
/// already as long as the alignment asks for is left as it is.
pub open spec fn aligned(text: Seq<char>, alignment: int) -> Seq<char> {
    let width = utf16_len_spec(text) as int;
    if alignment > 0 && width < alignment {
        spaces((alignment - width) as nat) + text
    } else if alignment < 0 && width < -alignment {
        text + spaces((-alignment - width) as nat)
    } else {
        text
    }
}

/// The UTF-16 length of two texts joined is the sum of their lengths.
pub proof fn lemma_utf16_len_concat(a: Seq<char>, b: Seq<char>)
    ensures
        utf16_len_spec(a + b) == utf16_len_spec(a) + utf16_len_spec(b),
    decreases b.len(),
{
    if b.len() > 0 {
        lemma_utf16_len_concat(a, b.drop_last());
        assert((a + b).drop_last() == a + b.drop_last());
        assert((a + b).last() == b.last());
    } else {
        assert(a + b == a);
    }
}

/// `n` spaces are `n` code units long.
pub proof fn lemma_utf16_len_spaces(n: nat)
    ensures
        utf16_len_spec(spaces(n)) == n,
    decreases n,
{
    if n > 0 {
        lemma_utf16_len_spaces((n - 1) as nat);
        assert(spaces(n).drop_last() == spaces((n - 1) as nat));
    } else {
        assert(spaces(0) =~= Seq::<char>::empty());
    }
}

/// A padded text is at least as wide as the alignment asks for, and holds
/// the text — after the padding for a positive alignment, before it for a
/// negative one.
pub proof fn law_alignment_pads_to_width(text: Seq<char>, alignment: int)
    ensures
        utf16_len_spec(aligned(text, alignment)) >= (if alignment < 0 {
            -alignment
        } else {
            alignment
        }),
        alignment >= 0 ==> aligned(text, alignment).subrange(
            aligned(text, alignment).len() - text.len(),
            aligned(text, alignment).len() as int,
        ) == text,
        alignment < 0 ==> aligned(text, alignment).subrange(0, text.len() as int) == text,
{
    let width = utf16_len_spec(text) as int;
    if alignment > 0 && width < alignment {
        let pad = spaces((alignment - width) as nat);
        lemma_utf16_len_concat(pad, text);
        lemma_utf16_len_spaces((alignment - width) as nat);
        assert((pad + text).subrange(pad.len() as int, (pad + text).len() as int) == text);
    } else if alignment < 0 && width < -alignment {
        let pad = spaces((-alignment - width) as nat);
        lemma_utf16_len_concat(text, pad);
        lemma_utf16_len_spaces((-alignment - width) as nat);
        assert((text + pad).subrange(0, text.len() as int) == text);
    } else {
        assert(text.subrange(0, text.len() as int) == text);
    }
}

/// Appends `n` spaces to `out`.
pub fn push_spaces(out: &mut Vec<char>, n: usize)
    ensures
        final(out)@ == old(out)@ + spaces(n as nat),
{
    let mut i: usize = 0;
    while i < n
        invariant
            i <= n,
            out@ == old(out)@ + spaces(i as nat),
        decreases n - i,
    {
        out.push(' ');
        i += 1;
        assert(spaces(i as nat) == spaces((i - 1) as nat) + seq![' ']);
    }
}

/// Appends `text` to `out`, padded to `alignment` as [`aligned`] says.
pub fn write_aligned(out: &mut Vec<char>, text: &Vec<char>, alignment: i32)
    requires
        text.len() <= usize::MAX / 4,
    ensures
        final(out)@ == old(out)@ + aligned(text@, alignment as int),
{
    let width = utf16_length(text);
    proof {
        lemma_utf16_len_bounds(text@);
    }
    if alignment > 0 && (width as i64) < (alignment as i64) {
        let pad = ((alignment as i64) - (width as i64)) as usize;
        push_spaces(out, pad);
        push_all(out, text);
        assert(out@ == old(out)@ + aligned(text@, alignment as int));
    } else if alignment < 0 && (width as i64) < -(alignment as i64) {
        push_all(out, text);
        let pad = (-(alignment as i64) - (width as i64)) as usize;
        push_spaces(out, pad);
        assert(out@ == old(out)@ + aligned(text@, alignment as int));
    } else {
        push_all(out, text);
    }
}

// ---------------------------------------------------------------------------
// Splitting and trimming
// ---------------------------------------------------------------------------

/// std's `str::to_owned`: a `String` holding the characters of `s`.
pub fn owned(s: &str) -> (res: String)
    ensures
        res@ == s@,
{
    let chars = chars_of(s);
    to_string(&chars)
}

/// The pieces of `s` between the occurrences of `sep`, in order: one more
/// piece than there are separators, empty pieces included — .NET's
/// `string.Split(char)`.
pub open spec fn split_spec(s: Seq<char>, sep: char) -> Seq<Seq<char>>
    decreases s.len(),
{
    if s.len() == 0 {
        seq![Seq::<char>::empty()]
    } else {
        let init = split_spec(s.drop_last(), sep);
        if s.last() == sep {
            init.push(Seq::<char>::empty())
        } else {
            init.update(init.len() - 1, init.last().push(s.last()))
        }
    }
}

/// The pieces joined back with `sep` between them.
pub open spec fn join_spec(parts: Seq<Seq<char>>, sep: char) -> Seq<char>
    decreases parts.len(),
{
    if parts.len() <= 1 {
        if parts.len() == 1 {
            parts[0]
        } else {
            Seq::<char>::empty()
        }
    } else {
        join_spec(parts.drop_last(), sep) + seq![sep] + parts.last()
    }
}

/// A split always has at least one piece.
pub proof fn lemma_split_nonempty(s: Seq<char>, sep: char)
    ensures
        split_spec(s, sep).len() >= 1,
    decreases s.len(),
{
    if s.len() > 0 {
        lemma_split_nonempty(s.drop_last(), sep);
    }
}

/// No piece of a split is longer than the text.
pub proof fn lemma_split_piece_bound(s: Seq<char>, sep: char)
    ensures
        forall|j: int|
            0 <= j < split_spec(s, sep).len() ==> (#[trigger] split_spec(s, sep)[j]).len()
                <= s.len(),
    decreases s.len(),
{
    if s.len() > 0 {
        lemma_split_piece_bound(s.drop_last(), sep);
        lemma_split_nonempty(s.drop_last(), sep);
        let init = split_spec(s.drop_last(), sep);
        assert forall|j: int| 0 <= j < split_spec(s, sep).len() implies (
        #[trigger] split_spec(s, sep)[j]).len() <= s.len() by {
            if j < init.len() {
                assert(init[j].len() <= s.drop_last().len());
            }
        }
    }
}

/// Joining the pieces of a split with the separator gives the text back, and
/// no piece holds the separator.
pub proof fn lemma_split_join(s: Seq<char>, sep: char)
    ensures
        join_spec(split_spec(s, sep), sep) == s,
        forall|i: int, j: int|
            0 <= i < split_spec(s, sep).len() && 0 <= j < split_spec(s, sep)[i].len()
                ==> split_spec(s, sep)[i][j] != sep,
    decreases s.len(),
{
    if s.len() > 0 {
        let init = split_spec(s.drop_last(), sep);
        lemma_split_join(s.drop_last(), sep);
        lemma_split_nonempty(s.drop_last(), sep);
        if s.last() == sep {
            assert(split_spec(s, sep).drop_last() == init);
            assert(s == s.drop_last() + seq![sep] + Seq::<char>::empty());
        } else {
            let parts = split_spec(s, sep);
            let n = init.len();
            if n == 1 {
                assert(parts.len() == 1);
                assert(s == init[0].push(s.last()));
            } else {
                assert(parts.drop_last() == init.drop_last());
                assert(join_spec(init, sep) == join_spec(init.drop_last(), sep) + seq![sep]
                    + init.last());
                let a = join_spec(init.drop_last(), sep);
                assert(s.drop_last() == a + seq![sep] + init.last());
                assert(s =~= s.drop_last().push(s.last()));
                assert(s =~= a + seq![sep] + init.last().push(s.last()));
                assert(parts.last() == init.last().push(s.last()));
            }
        }
    }
}

/// The pieces of `s` between the occurrences of `sep`, as [`split_spec`]
/// says.
pub fn split_chars(s: &Vec<char>, sep: char) -> (res: Vec<Vec<char>>)
    ensures
        res.len() == split_spec(s@, sep).len(),
        forall|i: int| 0 <= i < res.len() ==> (#[trigger] res@[i])@ == split_spec(s@, sep)[i],
{
    let mut parts: Vec<Vec<char>> = Vec::new();
    let mut current: Vec<char> = Vec::new();
    let mut i: usize = 0;
    while i < s.len()
        invariant
            i <= s.len(),
            parts.len() + 1 == split_spec(s@.subrange(0, i as int), sep).len(),
            forall|k: int|
                0 <= k < parts.len() ==> (#[trigger] parts@[k])@ == split_spec(
                    s@.subrange(0, i as int),
                    sep,
                )[k],
            current@ == split_spec(s@.subrange(0, i as int), sep).last(),
        decreases s.len() - i,
    {
        let ghost before = split_spec(s@.subrange(0, i as int), sep);
        assert(s@.subrange(0, i + 1).drop_last() == s@.subrange(0, i as int));
        assert(s@.subrange(0, i + 1).last() == s@[i as int]);
        if s[i] == sep {
            let mut done: Vec<char> = Vec::new();
            std::mem::swap(&mut done, &mut current);
            parts.push(done);
        } else {
            current.push(s[i]);
        }
        i += 1;
    }
    assert(s@.subrange(0, s.len() as int) == s@);
    parts.push(current);
    parts
}

/// Whether every character of `s` is .NET white space, so that trimming it
/// leaves nothing.
pub open spec fn is_blank(s: Seq<char>) -> bool {
    forall|i: int| 0 <= i < s.len() ==> is_dotnet_white_spec(#[trigger] s[i])
}

/// [`is_blank`] of `s`.
pub fn blank(s: &Vec<char>) -> (res: bool)
    ensures
        res == is_blank(s@),
{
    let mut i: usize = 0;
    while i < s.len()
        invariant
            i <= s.len(),
            forall|k: int| 0 <= k < i ==> is_dotnet_white_spec(#[trigger] s@[k]),
        decreases s.len() - i,
    {
        if !is_dotnet_white(s[i]) {
            return false;
        }
        i += 1;
    }
    true
}

/// The number of .NET white-space characters `s` starts with.
pub open spec fn leading_white(s: Seq<char>) -> nat
    decreases s.len(),
{
    if s.len() > 0 && is_dotnet_white_spec(s[0]) {
        1 + leading_white(s.drop_first())
    } else {
        0
    }
}

/// The number of .NET white-space characters `s` ends with.
pub open spec fn trailing_white(s: Seq<char>) -> nat
    decreases s.len(),
{
    if s.len() > 0 && is_dotnet_white_spec(s.last()) {
        1 + trailing_white(s.drop_last())
    } else {
        0
    }
}

pub proof fn lemma_leading_white_bound(s: Seq<char>)
    ensures
        leading_white(s) <= s.len(),
    decreases s.len(),
{
    if s.len() > 0 && is_dotnet_white_spec(s[0]) {
        lemma_leading_white_bound(s.drop_first());
    }
}

pub proof fn lemma_trailing_white_bound(s: Seq<char>)
    ensures
        trailing_white(s) <= s.len(),
    decreases s.len(),
{
    if s.len() > 0 && is_dotnet_white_spec(s.last()) {
        lemma_trailing_white_bound(s.drop_last());
    }
}

/// .NET `string.Trim()`: `s` without its leading and trailing white space.
pub open spec fn trim_spec(s: Seq<char>) -> Seq<char> {
    let t = s.skip(leading_white(s) as int);
    t.take(t.len() - trailing_white(t))
}

/// [`trim_spec`] of `s`.
pub fn trim(s: &Vec<char>) -> (res: Vec<char>)
    ensures
        res@ == trim_spec(s@),
{
    let mut a: usize = 0;
    assert(s@.skip(0) == s@);
    while a < s.len() && is_dotnet_white(s[a])
        invariant
            a <= s.len(),
            leading_white(s@) == a + leading_white(s@.skip(a as int)),
        decreases s.len() - a,
    {
        assert(s@.skip(a as int).drop_first() == s@.skip(a + 1));
        a += 1;
    }
    assert(leading_white(s@.skip(a as int)) == 0);
    let t = sub_chars(s, a, s.len());
    assert(t@ == s@.skip(a as int));
    let mut b: usize = t.len();
    assert(t@.take(t.len() as int) == t@);
    while b > 0 && is_dotnet_white(t[b - 1])
        invariant
            b <= t.len(),
            trailing_white(t@) == (t.len() - b) + trailing_white(t@.take(b as int)),
        decreases b,
    {
        assert(t@.take(b as int).drop_last() == t@.take(b - 1));
        b -= 1;
    }
    assert(trailing_white(t@.take(b as int)) == 0);
    sub_chars(&t, 0, b)
}

} // verus!
