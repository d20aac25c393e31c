//! The template syntax: literal text, escape sequences and placeholders of the
//! form `{selectors,alignment:formatter(options):format}`, where the format
//! may hold placeholders of its own.
//!
//! A parsed [`Format`] keeps positions into the characters of the template it
//! was parsed from, so every piece of it can be read back as the source text
//! it came from — which is what the formatters split and compare.

use vstd::prelude::*;
use crate::text::{chars_of, sub_chars, push_all, push_str, to_string, split_spec};
use crate::error::{Error, ParseError};
use crate::settings::ParserSettings;
use crate::number::{all_digits, digits_value, lemma_digits_value_prefix};

verus! {

/// One name of a placeholder's selector chain, with the operator characters
/// written before it (`.`, `[`, `?.`, ...).
#[derive(Debug)]
pub struct Selector {
    pub text: Vec<char>,
    pub operator: Vec<char>,
    /// Where the name starts in the template.
    pub start: usize,
}

/// Literal text, as the range of the template it spans.
#[derive(Debug, Clone, Copy)]
pub struct Literal {
    pub start: usize,
    pub end: usize,
}

/// A `{…}` placeholder.
#[derive(Debug)]
pub struct Placeholder {
    pub selectors: Vec<Selector>,
    /// Operator characters after the last selector, such as the `?` of
    /// `{TheList?:list:…}`.
    pub trailing_operator: Vec<char>,
    /// The width to pad the output to: positive pads on the left, negative on
    /// the right. A nested placeholder inherits the enclosing one's.
    pub alignment: i32,
    /// The formatter the placeholder names, empty when it names none.
    pub formatter_name: Vec<char>,
    /// The range of the formatter options, the text between the parentheses.
    pub options: Option<(usize, usize)>,
    /// The format after the formatter, or after the `:` when there is none.
    pub format: Option<Box<Format>>,
    /// The position of the `{`.
    pub start: usize,
    /// The position after the `}`.
    pub end: usize,
}

/// A piece of a format.
#[derive(Debug)]
pub enum FormatItem {
    Literal(Literal),
    Placeholder(Placeholder),
}

/// A sequence of literals and placeholders spanning `start..end` of the
/// template.
#[derive(Debug)]
pub struct Format {
    pub items: Vec<FormatItem>,
    pub start: usize,
    pub end: usize,
}

/// A copy of a selector.
pub fn copy_selector(s: &Selector) -> (res: Selector)
    ensures
        res.text@ == s.text@,
        res.operator@ == s.operator@,
        res.start == s.start,
{
    Selector { text: s.text.clone(), operator: s.operator.clone(), start: s.start }
}

/// A copy of a placeholder, nested format included.
#[verifier::loop_isolation(false)]
pub fn copy_placeholder(p: &Placeholder) -> (res: Placeholder)
    ensures
        placeholder_alike(res, *p),
    decreases p, 1nat,
{
    let mut selectors: Vec<Selector> = Vec::new();
    let mut i: usize = 0;
    while i < p.selectors.len()
        invariant
            i <= p.selectors.len(),
            selectors.len() == i,
            forall|j: int| 0 <= j < i ==> selector_alike(#[trigger] selectors@[j], p.selectors@[j]),
        decreases p.selectors.len() - i,
    {
        selectors.push(copy_selector(&p.selectors[i]));
        i += 1;
    }
    let format = match &p.format {
        Some(f) => {
            proof {
                assert(decreases_to!(*p => p.format));
                assert(decreases_to!(p.format => p.format->Some_0));
            }
            Some(Box::new(copy_format(f)))
        },
        None => None,
    };
    Placeholder {
        selectors,
        trailing_operator: p.trailing_operator.clone(),
        alignment: p.alignment,
        formatter_name: p.formatter_name.clone(),
        options: p.options,
        format,
        start: p.start,
        end: p.end,
    }
}

/// Whether two selectors have the same name, operator and position.
pub open spec fn selector_alike(a: Selector, b: Selector) -> bool {
    a.text@ == b.text@ && a.operator@ == b.operator@ && a.start == b.start
}

/// Whether two placeholders read alike: the same selectors, operators,
/// alignment, formatter, options and range, and both or neither with a
/// format.
pub open spec fn placeholder_alike(a: Placeholder, b: Placeholder) -> bool {
    &&& a.start == b.start
    &&& a.end == b.end
    &&& a.alignment == b.alignment
    &&& a.formatter_name@ == b.formatter_name@
    &&& a.options == b.options
    &&& a.format.is_some() == b.format.is_some()
    &&& a.trailing_operator@ == b.trailing_operator@
    &&& a.selectors.len() == b.selectors.len()
    &&& forall|i: int|
        0 <= i < a.selectors.len() ==> selector_alike(#[trigger] a.selectors@[i], b.selectors@[i])
}

/// Whether two format items are the same literal or placeholders that read
/// alike.
pub open spec fn item_alike(a: FormatItem, b: FormatItem) -> bool {
    match a {
        FormatItem::Literal(x) => b == FormatItem::Literal(x),
        FormatItem::Placeholder(p) => match b {
            FormatItem::Placeholder(q) => placeholder_alike(p, q),
            FormatItem::Literal(_) => false,
        },
    }
}

/// Whether two runs of items are alike item by item.
pub open spec fn items_alike(a: Seq<FormatItem>, b: Seq<FormatItem>) -> bool {
    a.len() == b.len() && forall|i: int| 0 <= i < a.len() ==> item_alike(#[trigger] a[i], b[i])
}

/// A copy of a format item.
pub fn copy_item(item: &FormatItem) -> (res: FormatItem)
    ensures
        item_alike(res, *item),
    decreases item, 2nat,
{
    match item {
        FormatItem::Literal(l) => FormatItem::Literal(*l),
        FormatItem::Placeholder(p) => {
            proof {
                assert(decreases_to!(*item => item->Placeholder_0));
            }
            FormatItem::Placeholder(copy_placeholder(p))
        },
    }
}

/// A copy of a format.
#[verifier::loop_isolation(false)]
pub fn copy_format(f: &Format) -> (res: Format)
    ensures
        res.start == f.start,
        res.end == f.end,
        res.items.len() == f.items.len(),
    decreases f, 3nat,
{
    let mut items: Vec<FormatItem> = Vec::new();
    let mut i: usize = 0;
    while i < f.items.len()
        invariant
            i <= f.items.len(),
            items.len() == i,
        decreases f.items.len() - i,
    {
        proof {
            assert(decreases_to!(*f => f.items));
            assert(decreases_to!(f.items => f.items@));
            assert(decreases_to!(f.items@ => f.items@[i as int]));
        }
        items.push(copy_item(&f.items[i]));
        i += 1;
    }
    Format { items, start: f.start, end: f.end }
}

// ---------------------------------------------------------------------------
// Character classes
// ---------------------------------------------------------------------------

/// A character that may stand in a selector name: ASCII letters and digits,
/// `_`, `-`, and every character outside ASCII.
pub open spec fn is_selector_char_spec(c: char) -> bool {
    ||| ('a' <= c && c <= 'z')
    ||| ('A' <= c && c <= 'Z')
    ||| ('0' <= c && c <= '9')
    ||| c == '_'
    ||| c == '-'
    ||| (c as u32) >= 128
}

pub fn is_selector_char(c: char) -> (res: bool)
    ensures
        res == is_selector_char_spec(c),
{
    ('a' <= c && c <= 'z') || ('A' <= c && c <= 'Z') || ('0' <= c && c <= '9') || c == '_' || c
        == '-' || (c as u32) >= 128
}

/// A character that may stand in a formatter name: ASCII letters and digits,
/// `_` and `-`.
pub open spec fn is_name_char_spec(c: char) -> bool {
    ||| ('a' <= c && c <= 'z')
    ||| ('A' <= c && c <= 'Z')
    ||| ('0' <= c && c <= '9')
    ||| c == '_'
    ||| c == '-'
}

pub fn is_name_char(c: char) -> (res: bool)
    ensures
        res == is_name_char_spec(c),
{
    ('a' <= c && c <= 'z') || ('A' <= c && c <= 'Z') || ('0' <= c && c <= '9') || c == '_' || c
        == '-'
}

// ---------------------------------------------------------------------------
// Escape sequences
// ---------------------------------------------------------------------------

/// The character an escape sequence `\c` stands for, for the `c` that start
/// one other than `u`.
pub open spec fn escape_spec(c: char) -> Option<char> {
    if c == '\'' {
        Some('\'')
    } else if c == '"' {
        Some('"')
    } else if c == '\\' {
        Some('\\')
    } else if c == '0' {
        Some('\0')
    } else if c == 'a' {
        Some('\u{7}')
    } else if c == 'b' {
        Some('\u{8}')
    } else if c == 'f' {
        Some('\u{c}')
    } else if c == 'n' {
        Some('\n')
    } else if c == 'r' {
        Some('\r')
    } else if c == 't' {
        Some('\t')
    } else if c == 'v' {
        Some('\u{b}')
    } else if c == '{' {
        Some('{')
    } else if c == '}' {
        Some('}')
    } else if c == ':' {
        Some(':')
    } else if c == '(' {
        Some('(')
    } else if c == ')' {
        Some(')')
    } else {
        None
    }
}

pub fn escape_of(c: char) -> (res: Option<char>)
    ensures
        res == escape_spec(c),
{
    if c == '\'' {
        Some('\'')
    } else if c == '"' {
        Some('"')
    } else if c == '\\' {
        Some('\\')
    } else if c == '0' {
        Some('\0')
    } else if c == 'a' {
        Some('\u{7}')
    } else if c == 'b' {
        Some('\u{8}')
    } else if c == 'f' {
        Some('\u{c}')
    } else if c == 'n' {
        Some('\n')
    } else if c == 'r' {
        Some('\r')
    } else if c == 't' {
        Some('\t')
    } else if c == 'v' {
        Some('\u{b}')
    } else if c == '{' {
        Some('{')
    } else if c == '}' {
        Some('}')
    } else if c == ':' {
        Some(':')
    } else if c == '(' {
        Some('(')
    } else if c == ')' {
        Some(')')
    } else {
        None
    }
}

/// The value of a hexadecimal digit.
pub open spec fn hex_spec(c: char) -> Option<u32> {
    if '0' <= c && c <= '9' {
        Some((c as u32 - '0' as u32) as u32)
    } else if 'a' <= c && c <= 'f' {
        Some((c as u32 - 'a' as u32 + 10) as u32)
    } else if 'A' <= c && c <= 'F' {
        Some((c as u32 - 'A' as u32 + 10) as u32)
    } else {
        None
    }
}

pub fn hex_of(c: char) -> (res: Option<u32>)
    ensures
        res == hex_spec(c),
{
    if '0' <= c && c <= '9' {
        Some((c as u32) - ('0' as u32))
    } else if 'a' <= c && c <= 'f' {
        Some((c as u32) - ('a' as u32) + 10)
    } else if 'A' <= c && c <= 'F' {
        Some((c as u32) - ('A' as u32) + 10)
    } else {
        None
    }
}

/// `16^k` for the exponents a `\uXXXX` sequence reaches.
pub open spec fn pow16(k: nat) -> u32 {
    if k == 0 {
        1
    } else if k == 1 {
        16
    } else if k == 2 {
        256
    } else if k == 3 {
        4096
    } else {
        65536
    }
}

/// Whether `code` is a Unicode scalar value.
pub open spec fn is_scalar(code: u32) -> bool {
    code < 0xD800 || (0xE000 <= code && code <= 0x10FFFF)
}

/// std's `char::from_u32`: the character of a scalar value, `None` for a
/// surrogate or a value past U+10FFFF.
#[verifier::external_body]
fn char_from_u32(code: u32) -> (res: Option<char>)
    ensures
        res is Some <==> is_scalar(code),
        res matches Some(c) ==> c as u32 == code && c == code as char,
{
    char::from_u32(code)
}

/// Why a literal's escape sequence does not resolve: the message and where
/// the sequence starts.
pub struct EscapeError {
    pub message: String,
    pub position: usize,
}

/// The value of the first `k` hexadecimal digits from `j`.
pub open spec fn hex_value(src: Seq<char>, j: int, k: nat) -> int
    decreases k,
{
    if k == 0 {
        0
    } else {
        hex_value(src, j, (k - 1) as nat) * 16 + match hex_spec(src[j + k - 1]) {
            Some(h) => h as int,
            None => 0,
        }
    }
}

/// Whether the `k` characters from `j` are hexadecimal digits.
pub open spec fn all_hex(src: Seq<char>, j: int, k: nat) -> bool {
    forall|t: int| 0 <= t < k ==> #[trigger] hex_spec(src[j + t]) is Some
}

/// The character of a scalar value.
pub open spec fn char_of(code: int) -> char {
    code as char
}

/// `piece` in front of a resolved text; an error stays as it is.
pub open spec fn prepend(piece: Seq<char>, r: Result<Seq<char>, (Seq<char>, int)>) -> Result<
    Seq<char>,
    (Seq<char>, int),
> {
    match r {
        Ok(t) => Ok(piece + t),
        Err(e) => Err(e),
    }
}

/// The text of `src[i..end]` with its escape sequences resolved, or the
/// message and the position of the first one that resolves to nothing.
///
/// `\c` is [`escape_spec`] of `c`; `\uXXXX` is the character of the four
/// hexadecimal digits — U+FFFD for a surrogate — and fails, quoting up to six
/// characters, when there are not four of them; a backslash that ends the
/// text stands for itself.
pub open spec fn resolve_spec(src: Seq<char>, i: int, end: int) -> Result<
    Seq<char>,
    (Seq<char>, int),
>
    decreases end - i,
{
    if i >= end {
        Ok(Seq::empty())
    } else if src[i] == '\\' && i + 1 < end {
        let e = src[i + 1];
        if e == 'u' {
            if end - i >= 6 && all_hex(src, i + 2, 4) {
                let code = hex_value(src, i + 2, 4);
                let ch = if is_scalar(code as u32) {
                    char_of(code)
                } else {
                    '\u{fffd}'
                };
                prepend(seq![ch], resolve_spec(src, i + 6, end))
            } else {
                let stop = if src.len() - i >= 6 {
                    i + 6
                } else {
                    src.len() as int
                };
                Err(("Unrecognized escape sequence in literal: \""@ + src.subrange(i, stop) + "\""@, i))
            }
        } else {
            match escape_spec(e) {
                Some(r) => prepend(seq![r], resolve_spec(src, i + 2, end)),
                None => Err(("Unrecognized escape sequence \"\\"@ + seq![e] + "\" in literal."@, i)),
            }
        }
    } else {
        prepend(seq![src[i]], resolve_spec(src, i + 1, end))
    }
}

proof fn lemma_prepend_push(out: Seq<char>, piece: Seq<char>, r: Result<Seq<char>, (Seq<char>, int)>)
    ensures
        prepend(out, prepend(piece, r)) == prepend(out + piece, r),
{
    if let Ok(t) = r {
        assert(out + (piece + t) =~= (out + piece) + t);
    }
}

/// A text with no backslash resolves to itself.
pub proof fn lemma_resolve_plain(src: Seq<char>, i: int, end: int)
    requires
        0 <= i <= end <= src.len(),
        forall|k: int| i <= k < end ==> src[k] != '\\',
    ensures
        resolve_spec(src, i, end) == Ok::<Seq<char>, (Seq<char>, int)>(src.subrange(i, end)),
    decreases end - i,
{
    if i < end {
        lemma_resolve_plain(src, i + 1, end);
        assert(seq![src[i]] + src.subrange(i + 1, end) =~= src.subrange(i, end));
    } else {
        assert(src.subrange(i, end) =~= Seq::<char>::empty());
    }
}

/// The text of `src[start..end]` with its escape sequences resolved, when
/// `convert` asks for that, as [`resolve_spec`] says; the text as it is
/// otherwise.
pub fn resolve_escapes(src: &Vec<char>, start: usize, end: usize, convert: bool) -> (res: Result<
    Vec<char>,
    EscapeError,
>)
    requires
        start <= end <= src.len(),
    ensures
        !convert ==> (res matches Ok(t) && t@ == src@.subrange(start as int, end as int)),
        convert ==> (res matches Ok(t) ==> resolve_spec(src@, start as int, end as int) == Ok::<
            Seq<char>,
            (Seq<char>, int),
        >(t@)),
        convert ==> (res matches Err(e) ==> resolve_spec(src@, start as int, end as int) == Err::<
            Seq<char>,
            (Seq<char>, int),
        >((e.message@, e.position as int))),
        convert && (forall|k: int| start <= k < end ==> src@[k] != '\\') ==> (res matches Ok(t)
            && t@ == src@.subrange(start as int, end as int)),
{
    if !convert {
        return Ok(sub_chars(src, start, end));
    }
    proof {
        if forall|k: int| start <= k < end ==> src@[k] != '\\' {
            lemma_resolve_plain(src@, start as int, end as int);
        }
    }
    let mut out: Vec<char> = Vec::new();
    let mut i = start;
    assert(out@ + Seq::<char>::empty() == out@);
    while i < end
        invariant
            convert,
            start <= i <= end <= src.len(),
            (forall|k: int| start <= k < end ==> src@[k] != '\\') ==> resolve_spec(
                src@,
                start as int,
                end as int,
            ) == Ok::<Seq<char>, (Seq<char>, int)>(src@.subrange(start as int, end as int)),
            resolve_spec(src@, start as int, end as int) == prepend(
                out@,
                resolve_spec(src@, i as int, end as int),
            ),
        decreases end - i,
    {
        let c = src[i];
        if c == '\\' && i + 1 < end {
            let e = src[i + 1];
            if e == 'u' {
                let mut code: u32 = 0;
                let mut k: usize = 0;
                let mut ok = end - i >= 6;
                while ok && k < 4
                    invariant
                        k <= 4,
                        ok ==> i + 6 <= end,
                        end <= src.len(),
                        ok ==> all_hex(src@, i + 2, k as nat),
                        ok ==> code == hex_value(src@, i + 2, k as nat),
                        code < pow16(k as nat),
                        !ok ==> !(end - i >= 6 && all_hex(src@, i + 2, 4)),
                    decreases 4 - k,
                {
                    match hex_of(src[i + 2 + k]) {
                        Some(h) => {
                            code = code * 16 + h;
                        },
                        None => {
                            assert(!all_hex(src@, i + 2, 4)) by {
                                assert(hex_spec(src@[i + 2 + k]) is None);
                            }
                            ok = false;
                        },
                    }
                    k += 1;
                }
                if !ok {
                    let stop = if src.len() - i >= 6 {
                        i + 6
                    } else {
                        src.len()
                    };
                    let mut message: Vec<char> = Vec::new();
                    push_str(&mut message, "Unrecognized escape sequence in literal: \"");
                    let quoted = sub_chars(src, i, stop);
                    push_all(&mut message, &quoted);
                    push_str(&mut message, "\"");
                    return Err(EscapeError { message: to_string(&message), position: i });
                }
                let ghost before = out@;
                let ghost piece: Seq<char>;
                match char_from_u32(code) {
                    Some(ch) => {
                        out.push(ch);
                        proof {
                            piece = seq![ch];
                            assert(ch == char_of(code as int)) by {
                                assert(ch == code as char);
                            }
                        }
                    },
                    None => {
                        out.push('\u{fffd}');
                        proof {
                            piece = seq!['\u{fffd}'];
                        }
                    },
                }
                proof {
                    lemma_prepend_push(before, piece, resolve_spec(src@, i + 6, end as int));
                    assert(before + piece =~= out@);
                }
                i = i + 6;
            } else {
                match escape_of(e) {
                    Some(r) => {
                        let ghost before = out@;
                        proof {
                            lemma_prepend_push(out@, seq![r], resolve_spec(src@, i + 2, end as int));
                        }
                        out.push(r);
                        assert(out@ =~= before + seq![r]);
                        i = i + 2;
                    },
                    None => {
                        let mut message: Vec<char> = Vec::new();
                        push_str(&mut message, "Unrecognized escape sequence \"\\");
                        message.push(e);
                        push_str(&mut message, "\" in literal.");
                        proof {
                            assert(message@ =~= "Unrecognized escape sequence \"\\"@ + seq![e]
                                + "\" in literal."@);
                        }
                        return Err(EscapeError { message: to_string(&message), position: i });
                    },
                }
            }
        } else {
            let ghost before = out@;
            proof {
                lemma_prepend_push(out@, seq![c], resolve_spec(src@, i + 1, end as int));
            }
            out.push(c);
            assert(out@ =~= before + seq![c]);
            i = i + 1;
        }
    }
    Ok(out)
}

// ---------------------------------------------------------------------------
// The parser
// ---------------------------------------------------------------------------

/// Whether `s` holds no brace and no backslash, so that it parses as one
/// literal that renders as itself.
pub open spec fn is_plain_text(s: Seq<char>) -> bool {
    forall|k: int| 0 <= k < s.len() ==> #[trigger] s[k] != '{' && s[k] != '}' && s[k] != '\\'
}

/// Whether the first `{`, `}` or `\` of `src` from `pos` on is a `}`, at
/// `k`: a closing brace that no placeholder opened.
pub open spec fn stray_closing_brace(src: Seq<char>, pos: int, k: int) -> bool {
    &&& pos <= k < src.len()
    &&& src[k] == '}'
    &&& forall|j: int| pos <= j < k ==> #[trigger] src[j] != '{' && src[j] != '}' && src[j] != '\\'
}

/// Whether a placeholder `{selector:name(options):text}` opens at `pos`:
/// its selector a run — possibly empty — of selector characters ending
/// before the `:` at `a`, its formatter name a run of name characters up to the `(` at `q`,
/// its options free of `)` and `\` up to the `)` at `r`, then a `:`, and its
/// format text free of `{`, `}` and `\` up to the `}` at `e`.
pub open spec fn named_placeholder_at(src: Seq<char>, pos: int, a: int, q: int, r: int, e: int) -> bool {
    &&& 0 <= pos && pos + 1 <= a && a + 1 < q && q < r && r + 2 <= e && e < src.len()
    &&& src[pos] == '{'
    &&& forall|j: int| pos < j < a ==> is_selector_char_spec(#[trigger] src[j])
    &&& src[a] == ':'
    &&& forall|j: int| a < j < q ==> is_name_char_spec(#[trigger] src[j])
    &&& src[q] == '('
    &&& forall|j: int| q < j < r ==> #[trigger] src[j] != ')' && src[j] != '\\'
    &&& src[r] == ')'
    &&& src[r + 1] == ':'
    &&& forall|j: int| r + 1 < j < e ==> #[trigger] src[j] != '{' && src[j] != '}' && src[j] != '\\'
    &&& src[e] == '}'
}

/// Whether `format` is the literal `start..end`, or nothing when the range
/// is empty.
pub open spec fn literal_span(format: Format, start: int, end: int) -> bool {
    &&& format.start == start && format.end == end
    &&& if start < end {
        format.items@.len() == 1 && (format.items@[0] matches FormatItem::Literal(l) && l.start
            == start && l.end == end)
    } else {
        format.items@.len() == 0
    }
}

/// Whether `p` is what [`named_placeholder_at`]`(src, pos, a, q, r, e)`
/// reads as: its selector if it has one, the formatter name, the options'
/// range and the format's literal, with the alignment it inherits.
pub open spec fn named_placeholder_parsed(
    p: Placeholder,
    src: Seq<char>,
    pos: int,
    a: int,
    q: int,
    r: int,
    e: int,
    alignment: int,
) -> bool {
    &&& p.start == pos && p.end == e + 1
    &&& if pos + 1 < a {
        p.selectors@.len() == 1 && p.selectors@[0].text@ == src.subrange(pos + 1, a)
            && p.selectors@[0].operator@.len() == 0
    } else {
        p.selectors@.len() == 0
    }
    &&& p.trailing_operator@.len() == 0
    &&& p.alignment == alignment
    &&& p.formatter_name@ == src.subrange(a + 1, q)
    &&& p.options == Some(((q + 1) as usize, r as usize))
    &&& p.format matches Some(f) && literal_span(*f, r + 2, e)
}

/// Whether the first `{`, `}` or `\` of `src` from `pos` on is a `{`, at
/// `k`, followed by nothing but selector characters to the end: a
/// placeholder that is never closed.
pub open spec fn unclosed_placeholder(src: Seq<char>, pos: int, k: int) -> bool {
    &&& pos <= k < src.len()
    &&& src[k] == '{'
    &&& forall|j: int| pos <= j < k ==> #[trigger] src[j] != '{' && src[j] != '}' && src[j] != '\\'
    &&& forall|j: int| k < j < src.len() ==> is_selector_char_spec(#[trigger] src[j])
}

/// The error a placeholder that is never closed is reported with, at the
/// end of the template.
pub open spec fn missing_brace_error(e: ParseError, end: int) -> bool {
    e.message@ == "Format string is missing a closing brace"@ && e.position == end
}

/// The error a stray closing brace at `k` is reported with.
pub open spec fn stray_brace_error(e: ParseError, k: int) -> bool {
    e.message@ == "Format string has too many closing braces"@ && e.position == k
}

/// Whether `after` is `before` with errors appended.
pub open spec fn extends_errors(before: Seq<ParseError>, after: Seq<ParseError>) -> bool {
    before.len() <= after.len() && after.take(before.len() as int) == before
}

proof fn lemma_extends_refl(a: Seq<ParseError>)
    ensures
        extends_errors(a, a),
{
    assert(a.take(a.len() as int) =~= a);
}

proof fn lemma_extends_push(a: Seq<ParseError>, b: Seq<ParseError>, x: ParseError)
    requires
        extends_errors(a, b),
    ensures
        extends_errors(a, b.push(x)),
{
    assert(b.push(x).take(a.len() as int) =~= b.take(a.len() as int));
}

proof fn lemma_extends_trans(a: Seq<ParseError>, b: Seq<ParseError>, c: Seq<ParseError>)
    requires
        extends_errors(a, b),
        extends_errors(b, c),
    ensures
        extends_errors(a, c),
        forall|i: int| 0 <= i < b.len() ==> c[i] == b[i],
{
    assert forall|i: int| 0 <= i < b.len() implies c[i] == b[i] by {
        assert(c.take(b.len() as int)[i] == c[i]);
    }
    assert(c.take(a.len() as int) =~= a);
}

/// A placeholder of [`named_placeholder_at`] has one reading.
proof fn lemma_named_unique(
    src: Seq<char>,
    pos: int,
    a: int,
    q: int,
    r: int,
    e: int,
    a2: int,
    q2: int,
    r2: int,
    e2: int,
)
    requires
        named_placeholder_at(src, pos, a, q, r, e),
        named_placeholder_at(src, pos, a2, q2, r2, e2),
    ensures
        a == a2 && q == q2 && r == r2 && e == e2,
{
    if a < a2 {
        assert(is_selector_char_spec(src[a]));
    } else if a2 < a {
        assert(is_selector_char_spec(src[a2]));
    }
    if q < q2 {
        assert(is_name_char_spec(src[q]));
    } else if q2 < q {
        assert(is_name_char_spec(src[q2]));
    }
    if r < r2 {
        assert(src[r] != ')');
    } else if r2 < r {
        assert(src[r2] != ')');
    }
    if e < e2 {
        assert(src[e] != '}');
    } else if e2 < e {
        assert(src[e2] != '}');
    }
}

/// A template has at most one first `{`.
proof fn lemma_unclosed_unique(src: Seq<char>, pos: int, k: int, m: int)
    requires
        unclosed_placeholder(src, pos, k),
        unclosed_placeholder(src, pos, m),
    ensures
        k == m,
{
    if k < m {
        assert(src[k] != '{');
    } else if m < k {
        assert(src[m] != '{');
    }
}

/// Two stray closing braces from one position are one brace.
proof fn lemma_stray_unique(src: Seq<char>, pos: int, k: int, m: int)
    requires
        stray_closing_brace(src, pos, k),
        stray_closing_brace(src, pos, m),
    ensures
        k == m,
{
    if k < m {
        assert(src[k] != '}');
    } else if m < k {
        assert(src[m] != '}');
    }
}

/// The end of the run of selector characters that starts at `j`.
pub open spec fn name_run_end(t: Seq<char>, j: int) -> int
    decreases t.len() - j,
{
    if 0 <= j < t.len() && is_selector_char_spec(t[j]) {
        name_run_end(t, j + 1)
    } else {
        j
    }
}

/// Every character of the run at `j` is a selector character, and the run
/// ends at the end of the text or at a character that is not one.
pub proof fn lemma_name_run(t: Seq<char>, j: int)
    requires
        0 <= j,
    ensures
        j <= name_run_end(t, j),
        name_run_end(t, j) <= t.len() || name_run_end(t, j) == j,
        forall|k: int| j <= k < name_run_end(t, j) ==> is_selector_char_spec(#[trigger] t[k]),
        name_run_end(t, j) < t.len() ==> !is_selector_char_spec(t[name_run_end(t, j)]),
    decreases t.len() - j,
{
    if 0 <= j < t.len() && is_selector_char_spec(t[j]) {
        lemma_name_run(t, j + 1);
    }
}

/// Where the placeholder `{name}` that opens at `i` ends — a name of
/// selector characters between the braces — or `None` when there is no
/// such placeholder at `i`.
pub open spec fn name_placeholder_end(t: Seq<char>, i: int) -> Option<int> {
    let close = name_run_end(t, i + 1);
    if 0 <= i < t.len() && t[i] == '{' && i + 1 < close && close < t.len() && t[close] == '}' {
        Some(close + 1)
    } else {
        None
    }
}

/// The pieces of a simple template from `i` on — text with no brace and no
/// backslash, and placeholders `{name}` — each character of text a piece of
/// its own and each placeholder one piece, braces included; `None` for a
/// template that is not simple.
pub open spec fn template_pieces(t: Seq<char>, i: int) -> Option<Seq<Seq<char>>>
    decreases t.len() - i,
{
    if i < 0 || i >= t.len() {
        Some(Seq::empty())
    } else if t[i] == '{' {
        let close = name_run_end(t, i + 1);
        if i + 1 < close && close < t.len() && t[close] == '}' {
            match template_pieces(t, close + 1) {
                Some(rest) => Some(seq![t.subrange(i, close + 1)] + rest),
                None => None,
            }
        } else {
            None
        }
    } else if t[i] == '}' || t[i] == '\\' {
        None
    } else {
        match template_pieces(t, i + 1) {
            Some(rest) => Some(seq![seq![t[i]]] + rest),
            None => None,
        }
    }
}

/// Whether a placeholder is `{name}` as a simple template writes it: one
/// selector of selector characters with no operator, no alignment, no
/// formatter, no options and no format.
pub open spec fn is_name_placeholder(p: Placeholder) -> bool {
    &&& p.selectors.len() == 1
    &&& p.selectors@[0].operator@.len() == 0
    &&& 0 < p.selectors@[0].text@.len()
    &&& p.alignment == 0
    &&& p.formatter_name@.len() == 0
    &&& p.options is None
    &&& p.format is None
}

/// Whether every item is a literal of the template holding no brace and no
/// backslash, or a placeholder `{name}`.
pub open spec fn simple_items(src: Seq<char>, items: Seq<FormatItem>) -> bool {
    forall|i: int|
        0 <= i < items.len() ==> match #[trigger] items[i] {
            FormatItem::Literal(l) => l.start <= l.end <= src.len() && forall|k: int|
                l.start <= k < l.end ==> src[k] != '{' && src[k] != '}' && src[k] != '\\',
            FormatItem::Placeholder(p) => is_name_placeholder(p) && p.start + 2 <= p.end <= src.len()
                && src.subrange(p.start + 1, p.end - 1) == p.selectors@[0].text@,
        }
}

/// The characters of `src[a..b]`, each a piece of its own.
pub open spec fn text_pieces(src: Seq<char>, a: int, b: int) -> Seq<Seq<char>>
    decreases b - a,
{
    if b <= a {
        Seq::empty()
    } else {
        text_pieces(src, a, b - 1).push(seq![src[b - 1]])
    }
}

/// The pieces of the template a run of literals and placeholders spans:
/// each character of a literal, and each placeholder's source text.
pub open spec fn items_pieces(src: Seq<char>, items: Seq<FormatItem>) -> Seq<Seq<char>>
    decreases items.len(),
{
    if items.len() == 0 {
        Seq::empty()
    } else {
        items_pieces(src, items.drop_last()) + match items.last() {
            FormatItem::Literal(l) => text_pieces(src, l.start as int, l.end as int),
            FormatItem::Placeholder(p) => seq![src.subrange(p.start as int, p.end as int)],
        }
    }
}

/// A parse error at `position`.
fn parse_error(message: &str, position: usize) -> (res: ParseError)
    ensures
        res.message@ == message@,
        res.position == position,
{
    ParseError { message: String::from_str(message), position }
}

/// The literals and placeholders from `pos` on, up to the end of the
/// template or — for a nested format — up to the `}` that closes the
/// placeholder the format belongs to. Returns the format, the position it
/// stopped at — for a nested format that of the `}` — and whether an escape
/// sequence ran past the end of the template, taking the `}` with it.
fn parse_items(
    src: &Vec<char>,
    pos: usize,
    nested: bool,
    alignment: i32,
    settings: ParserSettings,
    compat: bool,
    errors: &mut Vec<ParseError>,
) -> (res: (Format, usize, bool))
    requires
        pos <= src.len(),
    ensures
        pos <= res.1 <= src.len(),
        res.0.start == pos,
        res.0.end == res.1,
        nested && res.1 < src.len() ==> src@[res.1 as int] == '}',
        !nested ==> res.1 == src.len(),
        is_plain_text(src@.subrange(pos as int, src.len() as int)) ==> final(errors)@ == old(
            errors,
        )@ && res.1 == src.len() && (if pos < src.len() {
            res.0.items@.len() == 1 && (res.0.items@[0] matches FormatItem::Literal(l) && l.start
                == pos && l.end == src.len())
        } else {
            res.0.items@.len() == 0
        }),
        template_pieces(src@, pos as int) matches Some(pieces) ==> (!nested && alignment == 0 ==> (
        final(errors)@ == old(errors)@ && simple_items(src@, res.0.items@) && items_pieces(
            src@,
            res.0.items@,
        ) == pieces)),
        extends_errors(old(errors)@, final(errors)@),
        forall|k: int|
            !nested && #[trigger] stray_closing_brace(src@, pos as int, k) ==> final(errors)@.len()
                > old(errors)@.len() && stray_brace_error(final(errors)@[old(errors)@.len() as int], k),
        forall|e: int|
            nested && #[trigger] stray_closing_brace(src@, pos as int, e) ==> res.1 == e
                && final(errors)@ == old(errors)@ && literal_span(res.0, pos as int, e),
        forall|k: int|
            !nested && #[trigger] unclosed_placeholder(src@, pos as int, k) ==> final(errors)@ == old(
                errors,
            )@.push(final(errors)@.last()) && missing_brace_error(
                final(errors)@.last(),
                src.len() as int,
            ),
        forall|a: int, q: int, r: int, e: int|
            !nested && !compat && #[trigger] named_placeholder_at(src@, pos as int, a, q, r, e) && e + 1
                == src.len() ==> final(errors)@ == old(errors)@ && res.0.items@.len() == 1 && (
            res.0.items@[0] matches FormatItem::Placeholder(ph) && named_placeholder_parsed(
                ph,
                src@,
                pos as int,
                a,
                q,
                r,
                e,
                alignment as int,
            )),
    decreases src.len() - pos, 1nat,
{
    let n = src.len();
    let mut items: Vec<FormatItem> = Vec::new();
    let mut p = pos;
    let mut lit_start = pos;
    let mut overran = false;
    let ghost plain = is_plain_text(src@.subrange(pos as int, src.len() as int));
    let ghost simple = !nested && alignment == 0 && template_pieces(src@, pos as int) is Some;
    let ghost whole = template_pieces(src@, pos as int)->0;
    let ghost stray = !nested && exists|k: int| stray_closing_brace(src@, pos as int, k);
    let ghost k0 = choose|k: int| stray_closing_brace(src@, pos as int, k);
    let ghost closing = nested && exists|k: int| stray_closing_brace(src@, pos as int, k);
    let ghost unclosed = !nested && exists|k: int| unclosed_placeholder(src@, pos as int, k);
    let ghost k1 = choose|k: int| unclosed_placeholder(src@, pos as int, k);
    let ghost single = !nested && !compat && exists|a: int, q: int, r: int, e: int|
        named_placeholder_at(src@, pos as int, a, q, r, e) && e + 1 == src.len();
    let ghost (sa, sq, sr, se) = choose|a: int, q: int, r: int, e: int|
        named_placeholder_at(src@, pos as int, a, q, r, e) && e + 1 == src.len();
    proof {
        lemma_extends_refl(errors@);
        assert(items_pieces(src@, items@) =~= Seq::<Seq<char>>::empty());
        assert(text_pieces(src@, lit_start as int, p as int) =~= Seq::<Seq<char>>::empty());
        assert(Seq::<Seq<char>>::empty() + Seq::<Seq<char>>::empty() + whole =~= whole);
    }
    while p < n
        invariant
            n == src.len(),
            pos <= lit_start <= p <= n,
            plain == is_plain_text(src@.subrange(pos as int, src.len() as int)),
            plain ==> items.len() == 0 && lit_start == pos && errors@ == old(errors)@,
            simple == (!nested && alignment == 0 && template_pieces(src@, pos as int) is Some),
            whole == template_pieces(src@, pos as int)->0,
            simple ==> template_pieces(src@, p as int) is Some,
            simple ==> items_pieces(src@, items@) + text_pieces(src@, lit_start as int, p as int)
                + template_pieces(src@, p as int)->0 == whole,
            simple ==> simple_items(src@, items@),
            simple ==> errors@ == old(errors)@,
            simple ==> forall|k: int|
                lit_start <= k < p ==> #[trigger] src@[k] != '{' && src@[k] != '}' && src@[k]
                    != '\\',
            simple ==> !overran,
            extends_errors(old(errors)@, errors@),
            stray ==> !nested && stray_closing_brace(src@, pos as int, k0),
            stray && p <= k0 ==> errors@ == old(errors)@,
            closing == (nested && exists|k: int| stray_closing_brace(src@, pos as int, k)),
            unclosed ==> !nested && unclosed_placeholder(src@, pos as int, k1) && ((p <= k1
                && errors@ == old(errors)@) || (p == n && errors@ == old(errors)@.push(errors@.last())
                && missing_brace_error(errors@.last(), n as int))),
            single ==> !nested && !compat && named_placeholder_at(src@, pos as int, sa, sq, sr, se)
                && se + 1 == n && errors@ == old(errors)@ && ((p == pos && items@.len() == 0
                && lit_start == pos) || (p == n && lit_start == n && items@.len() == 1 && (
            items@[0] matches FormatItem::Placeholder(ph) && named_placeholder_parsed(
                ph,
                src@,
                pos as int,
                sa,
                sq,
                sr,
                se,
                alignment as int,
            )))),
            closing ==> nested && stray_closing_brace(src@, pos as int, k0) && p <= k0 && lit_start
                == pos && items@.len() == 0 && errors@ == old(errors)@,
            stray && p > k0 ==> errors@.len() > old(errors)@.len() && stray_brace_error(
                errors@[old(errors)@.len() as int],
                k0,
            ),
        decreases n - p,
    {
        proof {
            if plain {
                assert(src@.subrange(pos as int, src.len() as int)[p - pos] == src@[p as int]);
            }
        }
        let c = src[p];
        let ghost before_items = items@;
        let ghost before_errors = errors@;
        let ghost rest = template_pieces(src@, p as int)->0;
        proof {
            if (stray || closing) && p < k0 {
                assert(src@[p as int] != '{' && src@[p as int] != '}' && src@[p as int] != '\\');
            }
            if unclosed && p < k1 {
                assert(src@[p as int] != '{' && src@[p as int] != '}' && src@[p as int] != '\\');
            }
        }
        if c == '\\' && settings.convert_character_string_literals {
            let skip: usize = if n - p > 1 && src[p + 1] == 'u' {
                6
            } else {
                2
            };
            if n - p > skip {
                p = p + skip;
            } else {
                overran = n - p < skip && src[n - 1] == '}';
                p = n;
            }
        } else if c == '{' {
            let ghost lit = text_pieces(src@, lit_start as int, p as int);
            if lit_start < p {
                items.push(FormatItem::Literal(Literal { start: lit_start, end: p }));
                proof {
                    assert(items@.drop_last() =~= before_items);
                }
            } else {
                assert(lit =~= Seq::<Seq<char>>::empty());
            }
            let ghost mid_items = items@;
            proof {
                if simple {
                    assert(items_pieces(src@, mid_items) =~= items_pieces(src@, before_items) + lit);
                    assert forall|i: int| 0 <= i < mid_items.len() implies match #[trigger] mid_items[i] {
                        FormatItem::Literal(l) => l.start <= l.end <= src@.len() && forall|k: int|
                            l.start <= k < l.end ==> src@[k] != '{' && src@[k] != '}' && src@[k]
                                != '\\',
                        FormatItem::Placeholder(p) => is_name_placeholder(p) && p.start + 2 <= p.end
                            <= src@.len() && src@.subrange(p.start + 1, p.end - 1)
                            == p.selectors@[0].text@,
                    } by {
                        if i < before_items.len() {
                            assert(mid_items[i] == before_items[i]);
                        }
                    }
                }
            }
            let (ph, q) = parse_placeholder(src, p, alignment, settings, compat, errors);
            proof {
                lemma_extends_trans(old(errors)@, before_errors, errors@);
            }
            let ghost index = src@.subrange(p as int, q as int);
            items.push(FormatItem::Placeholder(ph));
            proof {
                if simple {
                    assert(items@.drop_last() =~= mid_items);
                    assert(items_pieces(src@, items@) =~= items_pieces(src@, mid_items) + seq![index]);
                    assert(rest =~= seq![index] + template_pieces(src@, q as int)->0);
                    assert(text_pieces(src@, q as int, q as int) =~= Seq::<Seq<char>>::empty());
                    assert(items_pieces(src@, items@) + text_pieces(src@, q as int, q as int)
                        + template_pieces(src@, q as int)->0 =~= whole);
                    assert forall|i: int| 0 <= i < items@.len() implies match #[trigger] items@[i] {
                        FormatItem::Literal(l) => l.start <= l.end <= src@.len() && forall|k: int|
                            l.start <= k < l.end ==> src@[k] != '{' && src@[k] != '}' && src@[k]
                                != '\\',
                        FormatItem::Placeholder(p) => is_name_placeholder(p) && p.start + 2 <= p.end
                            <= src@.len() && src@.subrange(p.start + 1, p.end - 1)
                            == p.selectors@[0].text@,
                    } by {
                        if i < mid_items.len() {
                            assert(items@[i] == mid_items[i]);
                        }
                    }
                }
            }
            p = q;
            lit_start = q;
        } else if c == '}' {
            if nested {
                if lit_start < p {
                    items.push(FormatItem::Literal(Literal { start: lit_start, end: p }));
                }
                let f = Format { items, start: pos, end: p };
                proof {
                    assert forall|e: int|
                        nested && #[trigger] stray_closing_brace(src@, pos as int, e) implies p == e
                            && errors@ == old(errors)@ && literal_span(f, pos as int, e) by {
                        assert(closing);
                        lemma_stray_unique(src@, pos as int, e, k0);
                    }
                }
                return (f, p, false);
            }
            errors.push(parse_error("Format string has too many closing braces", p));
            proof {
                assert(errors@ == before_errors.push(errors@.last()));
                lemma_extends_push(old(errors)@, before_errors, errors@.last());
            }
            if lit_start < p {
                items.push(FormatItem::Literal(Literal { start: lit_start, end: p }));
            }
            p = p + 1;
            lit_start = p;
        } else {
            proof {
                if simple {
                    assert(rest =~= seq![seq![c]] + template_pieces(src@, p + 1)->0);
                    assert(text_pieces(src@, lit_start as int, p + 1) =~= text_pieces(
                        src@,
                        lit_start as int,
                        p as int,
                    ).push(seq![c]));
                    assert(items_pieces(src@, items@) + text_pieces(src@, lit_start as int, p + 1)
                        + template_pieces(src@, p + 1)->0 =~= whole);
                }
            }
            p = p + 1;
        }
    }
    let ghost before_items = items@;
    if lit_start < n {
        items.push(FormatItem::Literal(Literal { start: lit_start, end: n }));
        proof {
            assert(items@.drop_last() =~= before_items);
        }
    }
    proof {
        assert forall|k: int|
            !nested && #[trigger] stray_closing_brace(src@, pos as int, k) implies errors@.len()
                > old(errors)@.len() && stray_brace_error(errors@[old(errors)@.len() as int], k) by {
            lemma_stray_unique(src@, pos as int, k, k0);
        }
        assert forall|e: int| nested && #[trigger] stray_closing_brace(src@, pos as int, e) implies false by {
            lemma_stray_unique(src@, pos as int, e, k0);
        }
        assert forall|k: int| !nested && #[trigger] unclosed_placeholder(src@, pos as int, k) implies errors@
            == old(errors)@.push(errors@.last()) && missing_brace_error(errors@.last(), src.len() as int) by {
            lemma_unclosed_unique(src@, pos as int, k, k1);
        }
        assert forall|a: int, q: int, r: int, e: int|
            !nested && !compat && #[trigger] named_placeholder_at(src@, pos as int, a, q, r, e) && e + 1
                == src.len() implies errors@ == old(errors)@ && items@.len() == 1 && (
        items@[0] matches FormatItem::Placeholder(ph) && named_placeholder_parsed(
            ph,
            src@,
            pos as int,
            a,
            q,
            r,
            e,
            alignment as int,
        )) by {
            lemma_named_unique(src@, pos as int, a, q, r, e, sa, sq, sr, se);
        }
    }
    proof {
        if simple {
            assert(items_pieces(src@, items@) =~= items_pieces(src@, before_items) + text_pieces(
                src@,
                lit_start as int,
                n as int,
            ));
            assert(template_pieces(src@, n as int)->0 =~= Seq::<Seq<char>>::empty());
            assert(items_pieces(src@, items@) =~= whole);
            assert forall|i: int| 0 <= i < items@.len() implies match #[trigger] items@[i] {
                FormatItem::Literal(l) => l.start <= l.end <= src@.len() && forall|k: int|
                    l.start <= k < l.end ==> src@[k] != '{' && src@[k] != '}' && src@[k] != '\\',
                FormatItem::Placeholder(p) => is_name_placeholder(p) && p.start + 2 <= p.end
                    <= src@.len() && src@.subrange(p.start + 1, p.end - 1) == p.selectors@[0].text@,
            } by {
                if i < before_items.len() {
                    assert(items@[i] == before_items[i]);
                }
            }
        }
    }
    (Format { items, start: pos, end: n }, n, overran)
}

/// The alignment a text writes: an optional `-` and one or more decimal
/// digits whose value, with its sign, fits an `i32`; `None` for any other
/// text.
pub open spec fn alignment_spec(t: Seq<char>) -> Option<int> {
    let negative = t.len() > 0 && t[0] == '-';
    let digits = if negative {
        t.drop_first()
    } else {
        t
    };
    if digits.len() == 0 || !all_digits(digits) {
        None
    } else if negative {
        if digits_value(digits) <= 2147483648 {
            Some(-digits_value(digits))
        } else {
            None
        }
    } else if digits_value(digits) <= 2147483647 {
        Some(digits_value(digits) as int)
    } else {
        None
    }
}

/// The alignment written in `src[start..end]`: [`alignment_spec`] of that
/// text.
fn parse_alignment(src: &Vec<char>, start: usize, end: usize) -> (res: Option<i32>)
    requires
        start <= end <= src.len(),
    ensures
        match alignment_spec(src@.subrange(start as int, end as int)) {
            Some(v) => res matches Some(a) && a == v,
            None => res is None,
        },
{
    let ghost t = src@.subrange(start as int, end as int);
    let mut i = start;
    let negative = i < end && src[i] == '-';
    if negative {
        i += 1;
    }
    let first = i;
    let ghost digits = src@.subrange(first as int, end as int);
    assert(digits =~= if negative {
        t.drop_first()
    } else {
        t
    });
    if i >= end {
        return None;
    }
    let mut value: i64 = 0;
    assert(src@.subrange(first as int, first as int) =~= Seq::<char>::empty());
    while i < end
        invariant
            start <= first <= i <= end <= src.len(),
            digits == src@.subrange(first as int, end as int),
            t == src@.subrange(start as int, end as int),
            negative == (t.len() > 0 && t[0] == '-'),
            digits == (if negative {
                t.drop_first()
            } else {
                t
            }),
            0 <= value <= 2147483648,
            all_digits(src@.subrange(first as int, i as int)),
            value == digits_value(src@.subrange(first as int, i as int)),
        decreases end - i,
    {
        let c = src[i];
        let ghost before = src@.subrange(first as int, i as int);
        let ghost after = src@.subrange(first as int, i + 1);
        assert(after.drop_last() =~= before);
        assert(after.last() == c);
        if !('0' <= c && c <= '9') {
            assert(digits[i - first] == c);
            return None;
        }
        value = value * 10 + ((c as u32) - ('0' as u32)) as i64;
        if value > 2147483648 {
            proof {
                if all_digits(digits) {
                    lemma_digits_value_prefix(digits, (i + 1 - first) as nat);
                    assert(digits.take(i + 1 - first) =~= after);
                }
            }
            return None;
        }
        i += 1;
    }
    assert(src@.subrange(first as int, i as int) =~= digits);
    if negative {
        Some((-value) as i32)
    } else if value <= 2147483647 {
        Some(value as i32)
    } else {
        None
    }
}

/// The placeholder whose `{` is at `pos`, and the position after it.
fn parse_placeholder(
    src: &Vec<char>,
    pos: usize,
    parent_alignment: i32,
    settings: ParserSettings,
    compat: bool,
    errors: &mut Vec<ParseError>,
) -> (res: (Placeholder, usize))
    requires
        pos < src.len(),
    ensures
        pos < res.1 <= src.len(),
        res.0.start == pos,
        res.0.end == res.1,
        name_placeholder_end(src@, pos as int) matches Some(e) ==> res.1 == e && final(errors)@
            == old(errors)@ && (parent_alignment == 0 ==> is_name_placeholder(res.0)),
        name_placeholder_end(src@, pos as int) matches Some(e) ==> res.0.selectors@.len() == 1
            && res.0.selectors@[0].text@ == src@.subrange(pos + 1, e - 1),
        extends_errors(old(errors)@, final(errors)@),
        (forall|j: int| pos < j < src.len() ==> is_selector_char_spec(#[trigger] src@[j])) ==> res.1
            == src.len() && final(errors)@ == old(errors)@.push(final(errors)@.last())
            && missing_brace_error(final(errors)@.last(), src.len() as int),
        forall|a: int, q: int, r: int, e: int|
            !compat && #[trigger] named_placeholder_at(src@, pos as int, a, q, r, e) ==> res.1 == e + 1
                && final(errors)@ == old(errors)@ && named_placeholder_parsed(
                res.0,
                src@,
                pos as int,
                a,
                q,
                r,
                e,
                parent_alignment as int,
            ),
    decreases src.len() - pos, 0nat,
{
    let n = src.len();
    let mut p = pos + 1;
    let mut selectors: Vec<Selector> = Vec::new();
    let mut operator: Vec<char> = Vec::new();
    let mut token: Vec<char> = Vec::new();
    let mut token_start = p;
    let ghost simple = name_placeholder_end(src@, pos as int) is Some;
    let ghost close = name_run_end(src@, pos + 1);
    let ghost open_end = forall|j: int| pos < j < src.len() ==> is_selector_char_spec(#[trigger] src@[j]);
    let ghost named = !compat && exists|a: int, q: int, r: int, e: int|
        named_placeholder_at(src@, pos as int, a, q, r, e);
    let ghost (na, nq, nr, ne) = choose|a: int, q: int, r: int, e: int|
        named_placeholder_at(src@, pos as int, a, q, r, e);
    proof {
        lemma_name_run(src@, pos + 1);
        lemma_extends_refl(errors@);
    }
    assert(token@ =~= src@.subrange(pos + 1, p as int));
    while p < n && src[p] != ',' && src[p] != ':' && src[p] != '}'
        invariant
            n == src.len(),
            pos < p <= n,
            simple ==> p <= close < n && src@[close] == '}',
            simple ==> forall|k: int| pos + 1 <= k < close ==> is_selector_char_spec(#[trigger] src@[k]),
            simple ==> selectors@.len() == 0 && operator@.len() == 0 && token@ == src@.subrange(
                pos + 1,
                p as int,
            ) && errors@ == old(errors)@,
            extends_errors(old(errors)@, errors@),
            open_end ==> errors@ == old(errors)@ && forall|j: int|
                pos < j < src.len() ==> is_selector_char_spec(#[trigger] src@[j]),
            named ==> !compat && named_placeholder_at(src@, pos as int, na, nq, nr, ne) && p <= na
                && selectors@.len() == 0 && operator@.len() == 0 && token@ == src@.subrange(
                pos + 1,
                p as int,
            ) && errors@ == old(errors)@,
        decreases n - p,
    {
        let c = src[p];
        proof {
            if named {
                assert(p < na ==> is_selector_char_spec(src@[p as int]));
            }
        }
        if c == '.' || c == '[' || c == ']' || c == '?' {
            if token.len() > 0 {
                selectors.push(Selector { text: token, operator, start: token_start });
                token = Vec::new();
                operator = Vec::new();
            }
            operator.push(c);
        } else if is_selector_char(c) {
            if token.len() == 0 {
                token_start = p;
            }
            token.push(c);
        } else {
            let ghost before = errors@;
            errors.push(parse_error("Invalid character in the selector", p));
            proof {
                lemma_extends_push(old(errors)@, before, errors@.last());
                assert(errors@ == before.push(errors@.last()));
            }
        }
        p += 1;
        assert(simple ==> token@ =~= src@.subrange(pos + 1, p as int));
        assert(named ==> token@ =~= src@.subrange(pos + 1, p as int));
    }
    assert(simple ==> p == close);
    proof {
        if named && p < na {
            assert(is_selector_char_spec(src@[p as int]));
        }
    }
    assert(named ==> p == na);
    proof {
        if open_end && p < n {
            assert(is_selector_char_spec(src@[p as int]));
        }
    }
    assert(open_end ==> p == n);
    if token.len() > 0 {
        selectors.push(Selector { text: token, operator, start: token_start });
        operator = Vec::new();
    }
    let mut alignment = parent_alignment;
    if p < n && src[p] == ',' {
        p += 1;
        let start = p;
        while p < n && src[p] != ':' && src[p] != '}'
            invariant
                n == src.len(),
                pos < start <= p <= n,
            decreases n - p,
        {
            p += 1;
        }
        match parse_alignment(src, start, p) {
            Some(a) => {
                alignment = a;
            },
            None => {
                let ghost before = errors@;
                errors.push(parse_error("Invalid alignment", start));
                proof {
                    lemma_extends_push(old(errors)@, before, errors@.last());
                    assert(errors@ == before.push(errors@.last()));
                }
            },
        }
    }
    let mut overran = false;
    let mut formatter_name: Vec<char> = Vec::new();
    let mut options: Option<(usize, usize)> = None;
    let mut format: Option<Box<Format>> = None;
    if p < n && src[p] == ':' {
        p += 1;
        let mut format_start = p;
        if !compat {
            let mut q = p;
            while q < n && is_name_char(src[q])
                invariant
                    n == src.len(),
                    p <= q <= n,
                    named ==> named_placeholder_at(src@, pos as int, na, nq, nr, ne) && p == na + 1
                        && q <= nq,
                decreases n - q,
            {
                q += 1;
            }
            if q < n && src[q] == '(' && q > p {
                let mut r = q + 1;
                proof {
                    if named && q < nq {
                        assert(is_name_char_spec(src@[q as int]));
                    }
                }
                while r < n && src[r] != ')'
                    invariant
                        n == src.len(),
                        q < r <= n,
                        named ==> named_placeholder_at(src@, pos as int, na, nq, nr, ne) && q == nq
                            && r <= nr,
                    decreases n - r,
                {
                    proof {
                        if named && r < nr {
                            assert(src@[r as int] != '\\');
                        }
                    }
                    if src[r] == '\\' && n - r > 1 {
                        r += 2;
                    } else {
                        r += 1;
                    }
                }
                proof {
                    if named && r < nr {
                        assert(src@[r as int] != ')');
                    }
                }
                if r < n {
                    let s = r + 1;
                    if s < n && src[s] == ':' {
                        formatter_name = sub_chars(src, p, q);
                        options = Some((q + 1, r));
                        format_start = s + 1;
                    } else if s < n && src[s] == '}' {
                        formatter_name = sub_chars(src, p, q);
                        options = Some((q + 1, r));
                        format_start = s;
                    }
                }
            } else if q < n && src[q] == ':' {
                formatter_name = sub_chars(src, p, q);
                format_start = q + 1;
            }
        }
        let ghost before = errors@;
        proof {
            if named {
                assert(format_start == nr + 2);
                assert(stray_closing_brace(src@, format_start as int, ne));
            }
        }
        let (f, e, past_end) = parse_items(src, format_start, true, alignment, settings, compat, errors);
        proof {
            lemma_extends_trans(old(errors)@, before, errors@);
        }
        format = Some(Box::new(f));
        p = e;
        overran = past_end;
    }
    let end = if p < n && src[p] == '}' {
        p + 1
    } else if overran {
        p
    } else {
        let ghost before = errors@;
        errors.push(parse_error("Format string is missing a closing brace", p));
        proof {
            lemma_extends_push(old(errors)@, before, errors@.last());
            assert(errors@ == before.push(errors@.last()));
        }
        p
    };
    let ph = Placeholder {
        selectors,
        trailing_operator: operator,
        alignment,
        formatter_name,
        options,
        format,
        start: pos,
        end,
    };
    proof {
        assert forall|a: int, q: int, r: int, e: int|
            !compat && #[trigger] named_placeholder_at(src@, pos as int, a, q, r, e) implies end == e
                + 1 && errors@ == old(errors)@ && named_placeholder_parsed(
                ph,
                src@,
                pos as int,
                a,
                q,
                r,
                e,
                parent_alignment as int,
            ) by {
            lemma_named_unique(src@, pos as int, a, q, r, e, na, nq, nr, ne);
        }
    }
    (ph, end)
}

/// A format that is one literal spanning the whole of `src`, or nothing for
/// an empty `src`.
pub open spec fn plain_literal(src: Seq<char>, format: Format) -> bool {
    if src.len() == 0 {
        format.items@.len() == 0
    } else {
        format.items@.len() == 1 && (format.items@[0] matches FormatItem::Literal(l) && l.start
            == 0 && l.end == src.len())
    }
}

/// A parsed template: its characters, and the format they make.
#[derive(Debug)]
pub struct ParsedFormat {
    pub src: Vec<char>,
    pub format: Format,
}

impl ParsedFormat {
    /// The text the template was parsed from.
    pub fn raw(&self) -> (res: String)
        ensures
            res@ == self.src@,
    {
        to_string(&self.src)
    }
}

/// Parses templates with fixed [`ParserSettings`].
#[derive(Debug, Clone, Copy)]
pub struct Parser {
    pub settings: ParserSettings,
    /// `string.Format` compatibility: formatter names are not read, so the
    /// whole text after a placeholder's `:` is its format.
    pub string_format_compatibility: bool,
}

impl Parser {
    /// A parser with these settings.
    pub fn new(settings: ParserSettings, string_format_compatibility: bool) -> (res: Parser)
        ensures
            res.settings == settings,
            res.string_format_compatibility == string_format_compatibility,
    {
        Parser { settings, string_format_compatibility }
    }

    /// The settings the parser reads templates with.
    pub fn settings(&self) -> (res: ParserSettings)
        ensures
            res == self.settings,
    {
        self.settings
    }

    /// The parsed form of `template`, or every syntax error in it: among
    /// them a `}` that no placeholder opened ([`stray_closing_brace`]) and a
    /// placeholder that is never closed ([`unclosed_placeholder`]). A
    /// placeholder `{selector:name(options):text}` is read into its parts
    /// ([`named_placeholder_parsed`]).
    pub fn parse(&self, template: &str) -> (res: Result<ParsedFormat, Error>)
        ensures
            res matches Ok(p) ==> p.src@ == template@ && p.format.start == 0 && p.format.end
                == template@.len(),
            res matches Err(e) ==> e is Parse,
            res matches Err(Error::Parse { errors }) ==> errors@.len() > 0,
            forall|k: int|
                #[trigger] stray_closing_brace(template@, 0, k) ==> (res matches Err(Error::Parse { errors })
                    && errors@.len() > 0 && stray_brace_error(errors@[0], k)),
            forall|k: int|
                #[trigger] unclosed_placeholder(template@, 0, k) ==> (res matches Err(Error::Parse { errors })
                    && errors@.len() == 1 && missing_brace_error(errors@[0], template@.len() as int)),
            forall|a: int, q: int, r: int, e: int|
                !self.string_format_compatibility && #[trigger] named_placeholder_at(template@, 0, a, q, r, e)
                    && e + 1 == template@.len() ==> (res matches Ok(p) && p.format.items@.len() == 1 && (
                p.format.items@[0] matches FormatItem::Placeholder(ph) && named_placeholder_parsed(
                    ph,
                    p.src@,
                    0,
                    a,
                    q,
                    r,
                    e,
                    0,
                ))),
            is_plain_text(template@) ==> (res matches Ok(p) && plain_literal(p.src@, p.format)),
            template_pieces(template@, 0) matches Some(pieces) ==> (res matches Ok(p)
                && simple_items(p.src@, p.format.items@) && items_pieces(p.src@, p.format.items@)
                == pieces),
    {
        let src = chars_of(template);
        self.parse_chars(src)
    }

    /// [`parse`](Self::parse) of a template given as characters.
    pub fn parse_chars(&self, src: Vec<char>) -> (res: Result<ParsedFormat, Error>)
        ensures
            res matches Ok(p) ==> p.src@ == src@ && p.format.start == 0 && p.format.end
                == src@.len(),
            res matches Err(e) ==> e is Parse,
            res matches Err(Error::Parse { errors }) ==> errors@.len() > 0,
            forall|k: int|
                #[trigger] stray_closing_brace(src@, 0, k) ==> (res matches Err(Error::Parse { errors })
                    && errors@.len() > 0 && stray_brace_error(errors@[0], k)),
            forall|k: int|
                #[trigger] unclosed_placeholder(src@, 0, k) ==> (res matches Err(Error::Parse { errors })
                    && errors@.len() == 1 && missing_brace_error(errors@[0], src@.len() as int)),
            forall|a: int, q: int, r: int, e: int|
                !self.string_format_compatibility && #[trigger] named_placeholder_at(src@, 0, a, q, r, e)
                    && e + 1 == src@.len() ==> (res matches Ok(p) && p.format.items@.len() == 1 && (
                p.format.items@[0] matches FormatItem::Placeholder(ph) && named_placeholder_parsed(
                    ph,
                    p.src@,
                    0,
                    a,
                    q,
                    r,
                    e,
                    0,
                ))),
            is_plain_text(src@) ==> (res matches Ok(p) && plain_literal(p.src@, p.format)),
            template_pieces(src@, 0) matches Some(pieces) ==> (res matches Ok(p) && simple_items(
                p.src@,
                p.format.items@,
            ) && items_pieces(p.src@, p.format.items@) == pieces),
    {
        assert(src@.subrange(0, src.len() as int) == src@);
        let mut errors: Vec<ParseError> = Vec::new();
        let (format, end, _) = parse_items(
            &src,
            0,
            false,
            0,
            self.settings,
            self.string_format_compatibility,
            &mut errors,
        );
        if errors.len() > 0 {
            return Err(Error::Parse { errors });
        }
        Ok(ParsedFormat { src, format })
    }
}

// ---------------------------------------------------------------------------
// Reading a format back
// ---------------------------------------------------------------------------

/// Whether the format holds a placeholder.
pub fn has_nested(format: &Format) -> (res: bool)
    ensures
        res == exists|i: int| 0 <= i < format.items.len() && format.items@[i] is Placeholder,
{
    let mut i: usize = 0;
    while i < format.items.len()
        invariant
            i <= format.items.len(),
            forall|j: int| 0 <= j < i ==> !(format.items@[j] is Placeholder),
        decreases format.items.len() - i,
    {
        match &format.items[i] {
            FormatItem::Placeholder(_) => {
                return true;
            },
            FormatItem::Literal(_) => {},
        }
        i += 1;
    }
    false
}

/// `src[start..end]`, clipped to the template.
pub open spec fn raw_range_spec(src: Seq<char>, start: int, end: int) -> Seq<char> {
    let stop = if end <= src.len() {
        end
    } else {
        src.len() as int
    };
    let begin = if start <= stop {
        start
    } else {
        stop
    };
    src.subrange(begin, stop)
}

/// The source text of `src[start..end]`, clipped to the template.
pub fn raw_range(src: &Vec<char>, start: usize, end: usize) -> (res: Vec<char>)
    ensures
        res@ == raw_range_spec(src@, start as int, end as int),
{
    let stop = if end <= src.len() {
        end
    } else {
        src.len()
    };
    let begin = if start <= stop {
        start
    } else {
        stop
    };
    sub_chars(src, begin, stop)
}

/// The text of `src[start..end]` with its escape sequences resolved when
/// `convert` is set, and as written otherwise.
pub open spec fn resolved_spec(src: Seq<char>, start: int, end: int, convert: bool) -> Result<
    Seq<char>,
    (Seq<char>, int),
> {
    if convert {
        resolve_spec(src, start, end)
    } else {
        Ok(src.subrange(start, end))
    }
}

/// The text of a run of format items: each literal resolved
/// ([`resolved_spec`]), each placeholder as written when `with_placeholders`
/// is set and left out otherwise — or the error of the first literal that
/// does not resolve. A literal whose range lies outside the template adds
/// nothing.
pub open spec fn items_text(
    src: Seq<char>,
    items: Seq<FormatItem>,
    convert: bool,
    with_placeholders: bool,
) -> Result<Seq<char>, (Seq<char>, int)>
    decreases items.len(),
{
    if items.len() == 0 {
        Ok(Seq::empty())
    } else {
        match items_text(src, items.drop_last(), convert, with_placeholders) {
            Err(e) => Err(e),
            Ok(t) => match items.last() {
                FormatItem::Literal(l) => if l.start <= l.end && l.end <= src.len() {
                    match resolved_spec(src, l.start as int, l.end as int, convert) {
                        Ok(r) => Ok(t + r),
                        Err(e) => Err(e),
                    }
                } else {
                    Ok(t)
                },
                FormatItem::Placeholder(p) => if with_placeholders {
                    Ok(t + raw_range_spec(src, p.start as int, p.end as int))
                } else {
                    Ok(t)
                },
            },
        }
    }
}

/// Runs of items that are alike have the same text.
pub proof fn lemma_items_text_alike(
    src: Seq<char>,
    a: Seq<FormatItem>,
    b: Seq<FormatItem>,
    convert: bool,
    with_placeholders: bool,
)
    requires
        items_alike(a, b),
    ensures
        items_text(src, a, convert, with_placeholders) == items_text(src, b, convert, with_placeholders),
    decreases a.len(),
{
    if a.len() > 0 {
        assert(items_alike(a.drop_last(), b.drop_last())) by {
            assert forall|i: int| 0 <= i < a.len() - 1 implies item_alike(
                #[trigger] a.drop_last()[i],
                b.drop_last()[i],
            ) by {
                assert(item_alike(a[i], b[i]));
            }
        }
        lemma_items_text_alike(src, a.drop_last(), b.drop_last(), convert, with_placeholders);
        assert(item_alike(a[a.len() - 1], b[b.len() - 1]));
    }
}

/// Once a run of items fails, every longer run fails with the same error.
proof fn lemma_items_text_error_stays(
    src: Seq<char>,
    items: Seq<FormatItem>,
    k: int,
    convert: bool,
    with_placeholders: bool,
)
    requires
        0 <= k <= items.len(),
        items_text(src, items.subrange(0, k), convert, with_placeholders) is Err,
    ensures
        items_text(src, items, convert, with_placeholders) == items_text(
            src,
            items.subrange(0, k),
            convert,
            with_placeholders,
        ),
    decreases items.len() - k,
{
    if k == items.len() {
        assert(items.subrange(0, k) =~= items);
    } else {
        let longer = items.subrange(0, k + 1);
        assert(longer.drop_last() =~= items.subrange(0, k));
        lemma_items_text_error_stays(src, items, k + 1, convert, with_placeholders);
    }
}

/// The literal text of a format — its literals with their escape sequences
/// resolved, its placeholders left out — or the first literal whose escape
/// sequence resolves to nothing.
pub fn literal_text(src: &Vec<char>, format: &Format, convert: bool) -> (res: Result<
    Vec<char>,
    EscapeError,
>)
    ensures
        match items_text(src@, format.items@, convert, false) {
            Ok(t) => res matches Ok(r) && r@ == t,
            Err((message, position)) => res matches Err(e) && e.message@ == message
                && e.position == position,
        },
{
    text_of(src, format, convert, false)
}

/// The text of a format as .NET's `Format.ToString()` writes it: the
/// literals resolved, the placeholders as written.
pub fn display_text(src: &Vec<char>, format: &Format, convert: bool) -> (res: Result<
    Vec<char>,
    EscapeError,
>)
    ensures
        match items_text(src@, format.items@, convert, true) {
            Ok(t) => res matches Ok(r) && r@ == t,
            Err((message, position)) => res matches Err(e) && e.message@ == message
                && e.position == position,
        },
{
    text_of(src, format, convert, true)
}

fn text_of(src: &Vec<char>, format: &Format, convert: bool, with_placeholders: bool) -> (res: Result<
    Vec<char>,
    EscapeError,
>)
    ensures
        match items_text(src@, format.items@, convert, with_placeholders) {
            Ok(t) => res matches Ok(r) && r@ == t,
            Err((message, position)) => res matches Err(e) && e.message@ == message
                && e.position == position,
        },
{
    let mut out: Vec<char> = Vec::new();
    let mut i: usize = 0;
    assert(format.items@.subrange(0, 0) =~= Seq::<FormatItem>::empty());
    while i < format.items.len()
        invariant
            i <= format.items.len(),
            items_text(src@, format.items@.subrange(0, i as int), convert, with_placeholders)
                == Ok::<Seq<char>, (Seq<char>, int)>(out@),
        decreases format.items.len() - i,
    {
        let ghost before = out@;
        let ghost run = format.items@.subrange(0, i as int + 1);
        assert(run.drop_last() =~= format.items@.subrange(0, i as int));
        assert(run.last() == format.items@[i as int]);
        match &format.items[i] {
            FormatItem::Literal(l) => {
                if l.start <= l.end && l.end <= src.len() {
                    match resolve_escapes(src, l.start, l.end, convert) {
                        Ok(text) => {
                            push_all(&mut out, &text);
                        },
                        Err(e) => {
                            proof {
                                lemma_items_text_error_stays(
                                    src@,
                                    format.items@,
                                    i as int + 1,
                                    convert,
                                    with_placeholders,
                                );
                            }
                            return Err(e);
                        },
                    }
                }
            },
            FormatItem::Placeholder(p) => {
                if with_placeholders {
                    let raw = raw_range(src, p.start, p.end);
                    push_all(&mut out, &raw);
                }
            },
        }
        i += 1;
    }
    assert(format.items@.subrange(0, i as int) =~= format.items@);
    Ok(out)
}

/// The first literal of the format whose escape sequence resolves to
/// nothing, or `None` when every literal resolves.
pub fn first_escape_error(src: &Vec<char>, format: &Format, convert: bool) -> (res: Option<
    EscapeError,
>)
    ensures
        match items_text(src@, format.items@, convert, false) {
            Ok(_) => res is None,
            Err((message, position)) => res matches Some(e) && e.message@ == message
                && e.position == position,
        },
{
    match literal_text(src, format, convert) {
        Ok(_) => None,
        Err(e) => Some(e),
    }
}

// ---------------------------------------------------------------------------
// Splitting
// ---------------------------------------------------------------------------

/// The text of a format that is one non-empty literal holding no backslash —
/// or no item at all — or `None` for any other format.
pub open spec fn literal_format_text(src: Seq<char>, f: Format) -> Option<Seq<char>> {
    if f.items.len() == 0 {
        Some(Seq::empty())
    } else if f.items.len() == 1 {
        match f.items@[0] {
            FormatItem::Literal(l) => if l.start < l.end <= src.len() && forall|k: int|
                l.start <= k < l.end ==> src[k] != '\\' {
                Some(src.subrange(l.start as int, l.end as int))
            } else {
                None
            },
            FormatItem::Placeholder(_) => None,
        }
    } else {
        None
    }
}

/// Whether the items of `f` span it exactly: no item and an empty range
/// within the template, or a first item that is a literal from the start of
/// `f` to its end.
pub open spec fn spans_exactly(src: Seq<char>, f: Format) -> bool {
    if f.items.len() == 0 {
        f.start == f.end && f.end <= src.len()
    } else {
        match f.items@[0] {
            FormatItem::Literal(l) => l.start == f.start && l.end == f.end,
            FormatItem::Placeholder(_) => false,
        }
    }
}

/// [`literal_format_text`] of a format whose items span it exactly, `None`
/// for any other format.
pub open spec fn spanned_literal_text(src: Seq<char>, f: Format) -> Option<Seq<char>> {
    if spans_exactly(src, f) {
        literal_format_text(src, f)
    } else {
        None
    }
}

/// A part as splitting builds it: its items, where it starts and where it
/// ends.
pub type PartView = (Seq<FormatItem>, int, int);

/// Where splitting stands: the finished parts, the items of the part being
/// built, where that part starts, and how many separators were taken.
pub type SplitAcc = (Seq<PartView>, Seq<FormatItem>, int, nat);

/// `acc` after the characters of the literal `l` from its start up to `k`,
/// with where the text not yet placed starts: each separator, while fewer
/// than `max` were taken, closes the part being built — with the text since
/// the last one as its last literal, when there is any — and starts the next
/// part after it.
pub open spec fn scan_literal(
    src: Seq<char>,
    sep: char,
    max: nat,
    acc: SplitAcc,
    l: Literal,
    k: int,
) -> (SplitAcc, int)
    decreases k - l.start,
{
    if k <= l.start {
        (acc, l.start as int)
    } else {
        let (a, segment) = scan_literal(src, sep, max, acc, l, k - 1);
        let c = k - 1;
        if src[c] == sep && a.3 < max {
            let current = if segment < c {
                a.1.push(FormatItem::Literal(Literal { start: segment as usize, end: c as usize }))
            } else {
                a.1
            };
            ((a.0.push((current, a.2, c)), Seq::empty(), c + 1, a.3 + 1), c + 1)
        } else {
            (a, segment)
        }
    }
}

/// Where splitting stands after `items`, the format starting at `start`: a
/// placeholder joins the part being built whole; a literal is scanned up to
/// its end within the template ([`scan_literal`]) and what follows its last
/// separator joins the part being built.
pub open spec fn split_acc(src: Seq<char>, items: Seq<FormatItem>, sep: char, max: nat, start: int) -> SplitAcc
    decreases items.len(),
{
    if items.len() == 0 {
        (Seq::empty(), Seq::empty(), start, 0)
    } else {
        let acc = split_acc(src, items.drop_last(), sep, max, start);
        match items.last() {
            FormatItem::Placeholder(p) => (acc.0, acc.1.push(FormatItem::Placeholder(p)), acc.2, acc.3),
            FormatItem::Literal(l) => {
                let end: int = if l.end <= src.len() {
                    l.end as int
                } else {
                    src.len() as int
                };
                let (a, segment) = scan_literal(src, sep, max, acc, l, end);
                if segment < end {
                    (
                        a.0,
                        a.1.push(FormatItem::Literal(Literal { start: segment as usize, end: end as usize })),
                        a.2,
                        a.3,
                    )
                } else {
                    a
                }
            },
        }
    }
}

/// The parts `format` splits into: the finished parts of [`split_acc`] of
/// its items, and the part being built, up to the end of the format.
pub open spec fn split_parts(src: Seq<char>, format: Format, sep: char, max: nat) -> Seq<PartView> {
    let acc = split_acc(src, format.items@, sep, max, format.start as int);
    acc.0.push((acc.1, acc.2, format.end as int))
}

/// Whether `parts` are `views` part by part: alike items, the same range.
pub open spec fn parts_alike(parts: Seq<Format>, views: Seq<PartView>) -> bool {
    parts.len() == views.len() && forall|j: int|
        0 <= j < parts.len() ==> items_alike((#[trigger] parts[j]).items@, views[j].0)
            && parts[j].start == views[j].1 && parts[j].end == views[j].2
}

/// Alike runs stay alike when alike items are added to them.
pub proof fn lemma_items_alike_push(a: Seq<FormatItem>, b: Seq<FormatItem>, x: FormatItem, y: FormatItem)
    requires
        items_alike(a, b),
        item_alike(x, y),
    ensures
        items_alike(a.push(x), b.push(y)),
{
    assert forall|i: int| 0 <= i < a.len() + 1 implies item_alike(#[trigger] a.push(x)[i], b.push(y)[i]) by {
        if i < a.len() {
            assert(a.push(x)[i] == a[i]);
            assert(b.push(y)[i] == b[i]);
        }
    }
}

proof fn lemma_parts_alike_push(ps: Seq<Format>, vs: Seq<PartView>, p: Format, v: PartView)
    requires
        parts_alike(ps, vs),
        items_alike(p.items@, v.0),
        p.start == v.1,
        p.end == v.2,
    ensures
        parts_alike(ps.push(p), vs.push(v)),
{
    assert forall|j: int| 0 <= j < ps.len() + 1 implies items_alike((#[trigger] ps.push(p)[j]).items@, vs.push(v)[j].0)
        && ps.push(p)[j].start == vs.push(v)[j].1 && ps.push(p)[j].end == vs.push(v)[j].2 by {
        if j < ps.len() {
            assert(ps.push(p)[j] == ps[j]);
            assert(vs.push(v)[j] == vs[j]);
        }
    }
}

/// The parts of `format` between the occurrences of `sep` in the source text
/// of its literals — placeholders are never looked into — stopping after
/// `max` separators, so that there are at most `max + 1` parts.
///
/// The search reads the source text, so an escaped separator such as `\|`
/// splits all the same.
///
/// A format that is one literal with no backslash splits into parts that
/// are each one such literal — or empty — holding the pieces of its text
/// between the separators; when that literal spans the format exactly, so
/// does each part.
pub fn split(src: &Vec<char>, format: &Format, sep: char, max: usize) -> (res: Vec<Format>)
    ensures
        1 <= res.len(),
        res.len() <= max + 1,
        res@[0].start == format.start,
        literal_format_text(src@, *format) matches Some(text) ==> (text.len() < max ==> (res.len()
            == split_spec(text, sep).len() && forall|j: int|
            0 <= j < res.len() ==> literal_format_text(src@, #[trigger] res@[j]) == Some(
                split_spec(text, sep)[j],
            ))),
        spanned_literal_text(src@, *format) matches Some(text) ==> (text.len() < max ==> forall|
            j: int,
        | 0 <= j < res.len() ==> spanned_literal_text(src@, #[trigger] res@[j]) == Some(
            split_spec(text, sep)[j],
        ) && format.start <= res@[j].start && res@[j].end <= format.end),
        parts_alike(res@, split_parts(src@, *format, sep, max as nat)),
{
    let ghost text = literal_format_text(src@, *format)->0;
    let ghost lit = literal_format_text(src@, *format) is Some && text.len() < max;
    let ghost sp = spans_exactly(src@, *format) && lit;
    let mut parts: Vec<Format> = Vec::new();
    let mut current: Vec<FormatItem> = Vec::new();
    let mut current_start = format.start;
    let mut count: usize = 0;
    let mut i: usize = 0;
    while i < format.items.len()
        invariant
            i <= format.items.len(),
            parts.len() == count,
            count <= max,
            parts_alike(
                parts@,
                split_acc(src@, format.items@.take(i as int), sep, max as nat, format.start as int).0,
            ),
            items_alike(
                current@,
                split_acc(src@, format.items@.take(i as int), sep, max as nat, format.start as int).1,
            ),
            current_start == split_acc(
                src@,
                format.items@.take(i as int),
                sep,
                max as nat,
                format.start as int,
            ).2,
            count == split_acc(
                src@,
                format.items@.take(i as int),
                sep,
                max as nat,
                format.start as int,
            ).3,
            count == 0 ==> current_start == format.start,
            count > 0 ==> parts@[0].start == format.start,
            lit == (literal_format_text(src@, *format) is Some && text.len() < max),
            text == literal_format_text(src@, *format)->0,
            lit && i == 0 ==> count == 0 && current@.len() == 0,
            sp == (spans_exactly(src@, *format) && lit),
            sp && i == 1 ==> (forall|j: int|
                0 <= j < parts.len() ==> spans_exactly(src@, #[trigger] parts@[j])
                    && format.start <= parts@[j].start && parts@[j].end <= format.end)
                && format.start <= current_start <= format.end && spans_exactly(
                src@,
                Format { items: current, start: current_start, end: format.end },
            ),
            lit && i == 1 ==> (parts.len() + 1 == split_spec(text, sep).len() && forall|j: int|
                0 <= j < parts.len() ==> literal_format_text(src@, #[trigger] parts@[j]) == Some(
                    split_spec(text, sep)[j],
                )) && literal_format_text(
                src@,
                Format { items: current, start: current_start, end: format.end },
            ) == Some(split_spec(text, sep)[parts.len() as int]),
        decreases format.items.len() - i,
    {
        let ghost acc_i = split_acc(
            src@,
            format.items@.take(i as int),
            sep,
            max as nat,
            format.start as int,
        );
        proof {
            assert(format.items@.take(i + 1).drop_last() =~= format.items@.take(i as int));
            assert(format.items@.take(i + 1).last() == format.items@[i as int]);
        }
        match &format.items[i] {
            FormatItem::Placeholder(p) => {
                let copy = copy_placeholder(p);
                proof {
                    lemma_items_alike_push(
                        current@,
                        acc_i.1,
                        FormatItem::Placeholder(copy),
                        FormatItem::Placeholder(*p),
                    );
                }
                current.push(FormatItem::Placeholder(copy));
            },
            FormatItem::Literal(l) => {
                let end = if l.end <= src.len() {
                    l.end
                } else {
                    src.len()
                };
                let mut segment = l.start;
                let mut k = l.start;
                proof {
                    if lit {
                        assert(src@.subrange(l.start as int, k as int) =~= Seq::<char>::empty());
                        assert(src@.subrange(segment as int, k as int) =~= Seq::<char>::empty());
                    }
                }
                while k < end
                    invariant
                        end <= src.len(),
                        parts.len() == count,
                        count <= max,
                        count == 0 ==> current_start == format.start,
                        count > 0 ==> parts@[0].start == format.start,
                        lit == (literal_format_text(src@, *format) is Some && text.len() < max),
                        text == literal_format_text(src@, *format)->0,
                        lit ==> i == 0 && format.items@[0] == FormatItem::Literal(*l) && end
                            == l.end && text == src@.subrange(l.start as int, l.end as int),
                        lit ==> l.start <= segment <= k <= end && current@.len() == 0,
                        lit ==> count <= k - l.start,
                        lit ==> split_spec(src@.subrange(l.start as int, k as int), sep).len()
                            == count + 1,
                        lit ==> split_spec(src@.subrange(l.start as int, k as int), sep)[count as int]
                            == src@.subrange(segment as int, k as int),
                        lit ==> forall|j: int|
                            0 <= j < count ==> literal_format_text(src@, #[trigger] parts@[j])
                                == Some(split_spec(src@.subrange(l.start as int, k as int), sep)[j]),
                        lit ==> forall|q: int| l.start <= q < l.end ==> src@[q] != '\\',
                        sp == (spans_exactly(src@, *format) && lit),
                        sp ==> current_start == segment && l.start == format.start && l.end
                            == format.end,
                        sp ==> forall|j: int|
                            0 <= j < count ==> spans_exactly(src@, #[trigger] parts@[j])
                                && format.start <= parts@[j].start && parts@[j].end <= format.end,
                        l.start <= k,
                        k <= end || k == l.start,
                        parts_alike(parts@, scan_literal(src@, sep, max as nat, acc_i, *l, k as int).0.0),
                        items_alike(current@, scan_literal(src@, sep, max as nat, acc_i, *l, k as int).0.1),
                        current_start == scan_literal(src@, sep, max as nat, acc_i, *l, k as int).0.2,
                        count == scan_literal(src@, sep, max as nat, acc_i, *l, k as int).0.3,
                        segment == scan_literal(src@, sep, max as nat, acc_i, *l, k as int).1,
                    decreases end - k,
                {
                    let ghost before = src@.subrange(l.start as int, k as int);
                    let ghost after = src@.subrange(l.start as int, k + 1);
                    proof {
                        if lit {
                            assert(after.drop_last() =~= before);
                            assert(after.last() == src@[k as int]);
                            crate::text::lemma_split_nonempty(before, sep);
                        }
                    }
                    let ghost scanned = scan_literal(src@, sep, max as nat, acc_i, *l, k as int).0;
                    if src[k] == sep && count < max {
                        let ghost piece_start = segment;
                        if segment < k {
                            proof {
                                lemma_items_alike_push(
                                    current@,
                                    scanned.1,
                                    FormatItem::Literal(Literal { start: segment, end: k }),
                                    FormatItem::Literal(Literal { start: segment, end: k }),
                                );
                            }
                            current.push(FormatItem::Literal(Literal { start: segment, end: k }));
                        }
                        let mut done: Vec<FormatItem> = Vec::new();
                        std::mem::swap(&mut done, &mut current);
                        let part = Format { items: done, start: current_start, end: k };
                        proof {
                            if lit {
                                if piece_start < k {
                                    assert(part.items@[0] == FormatItem::Literal(
                                        Literal { start: piece_start, end: k },
                                    ));
                                } else {
                                    assert(src@.subrange(piece_start as int, k as int)
                                        =~= Seq::<char>::empty());
                                }
                                assert(literal_format_text(src@, part) == Some(
                                    src@.subrange(piece_start as int, k as int),
                                ));
                            }
                        }
                        let ghost old_parts = parts@;
                        proof {
                            let cur = if piece_start < k {
                                scanned.1.push(
                                    FormatItem::Literal(Literal { start: piece_start, end: k }),
                                )
                            } else {
                                scanned.1
                            };
                            lemma_parts_alike_push(parts@, scanned.0, part, (cur, scanned.2, k as int));
                        }
                        parts.push(part);
                        current_start = k + 1;
                        segment = k + 1;
                        count += 1;
                        proof {
                            if lit {
                                assert(split_spec(after, sep) == split_spec(before, sep).push(
                                    Seq::<char>::empty(),
                                ));
                                assert(src@.subrange(segment as int, k + 1) =~= Seq::<char>::empty());
                                assert forall|j: int| 0 <= j < count implies literal_format_text(
                                    src@,
                                    #[trigger] parts@[j],
                                ) == Some(split_spec(after, sep)[j]) by {
                                    if j < count - 1 {
                                        assert(parts@[j] == old_parts[j]);
                                    }
                                }
                            }
                        }
                    } else {
                        proof {
                            if lit {
                                let init = split_spec(before, sep);
                                assert(src@[k as int] != sep || count >= max);
                                assert(src@[k as int] != sep);
                                assert(split_spec(after, sep) == init.update(
                                    init.len() - 1,
                                    init.last().push(src@[k as int]),
                                ));
                                assert(src@.subrange(segment as int, k + 1) =~= src@.subrange(
                                    segment as int,
                                    k as int,
                                ).push(src@[k as int]));
                            }
                        }
                    }
                    k += 1;
                }
                if segment < end {
                    proof {
                        lemma_items_alike_push(
                            current@,
                            scan_literal(src@, sep, max as nat, acc_i, *l, k as int).0.1,
                            FormatItem::Literal(Literal { start: segment, end }),
                            FormatItem::Literal(Literal { start: segment, end }),
                        );
                    }
                    current.push(FormatItem::Literal(Literal { start: segment, end }));
                }
                proof {
                    if lit {
                        assert(src@.subrange(l.start as int, k as int) == text);
                        if segment < end {
                            assert(current@[0] == FormatItem::Literal(Literal { start: segment, end }));
                        } else {
                            assert(src@.subrange(segment as int, k as int) =~= Seq::<char>::empty());
                        }
                    }
                }
            },
        }
        i += 1;
    }
    proof {
        if lit && format.items.len() == 0 {
            assert(text =~= Seq::<char>::empty());
            assert(current@.len() == 0);
        }
    }
    let last = Format { items: current, start: current_start, end: format.end };
    let ghost earlier = parts@;
    proof {
        let acc = split_acc(src@, format.items@, sep, max as nat, format.start as int);
        assert(format.items@.take(format.items.len() as int) =~= format.items@);
        lemma_parts_alike_push(parts@, acc.0, last, (acc.1, acc.2, format.end as int));
    }
    parts.push(last);
    proof {
        if lit {
            assert forall|j: int| 0 <= j < parts.len() implies literal_format_text(
                src@,
                #[trigger] parts@[j],
            ) == Some(split_spec(text, sep)[j]) by {
                if j < earlier.len() {
                    assert(parts@[j] == earlier[j]);
                }
            }
        }
    }
    parts
}

/// The items of a format between the positions `start` and `end`: its
/// literals cut to that range when anything of them is left, and the
/// placeholders that lie wholly inside it.
pub open spec fn substring_items(items: Seq<FormatItem>, start: int, end: int) -> Seq<FormatItem>
    decreases items.len(),
{
    if items.len() == 0 {
        Seq::empty()
    } else {
        let rest = substring_items(items.drop_last(), start, end);
        match items.last() {
            FormatItem::Placeholder(p) => if start <= p.start && p.end <= end {
                rest.push(FormatItem::Placeholder(p))
            } else {
                rest
            },
            FormatItem::Literal(l) => {
                let a: int = if l.start > start {
                    l.start as int
                } else {
                    start
                };
                let b: int = if l.end < end {
                    l.end as int
                } else {
                    end
                };
                if a < b {
                    rest.push(FormatItem::Literal(Literal { start: a as usize, end: b as usize }))
                } else {
                    rest
                }
            },
        }
    }
}

/// The part of `format` between the positions `start` and `end`: its
/// literals cut to that range, and the placeholders that lie wholly inside
/// it.
pub fn substring(format: &Format, start: usize, end: usize) -> (res: Format)
    ensures
        res.start == start,
        res.end == end,
        items_alike(res.items@, substring_items(format.items@, start as int, end as int)),
        format.items.len() == 0 ==> res.items.len() == 0,
        format.items.len() == 1 && (format.items@[0] matches FormatItem::Literal(l) && l.start
            <= start && end <= l.end) ==> if start < end {
            res.items@ == seq![FormatItem::Literal(Literal { start, end })]
        } else {
            res.items.len() == 0
        },
{
    let mut items: Vec<FormatItem> = Vec::new();
    let mut i: usize = 0;
    while i < format.items.len()
        invariant
            i <= format.items.len(),
            i == 0 ==> items.len() == 0,
            items_alike(items@, substring_items(format.items@.take(i as int), start as int, end as int)),
            format.items.len() == 1 && (format.items@[0] matches FormatItem::Literal(l) && l.start
                <= start && end <= l.end) && i == 1 ==> if start < end {
                items@ == seq![FormatItem::Literal(Literal { start, end })]
            } else {
                items.len() == 0
            },
        decreases format.items.len() - i,
    {
        let ghost cut = substring_items(format.items@.take(i as int), start as int, end as int);
        proof {
            assert(format.items@.take(i + 1).drop_last() =~= format.items@.take(i as int));
            assert(format.items@.take(i + 1).last() == format.items@[i as int]);
        }
        match &format.items[i] {
            FormatItem::Placeholder(p) => {
                if start <= p.start && p.end <= end {
                    let copy = copy_placeholder(p);
                    proof {
                        lemma_items_alike_push(
                            items@,
                            cut,
                            FormatItem::Placeholder(copy),
                            FormatItem::Placeholder(*p),
                        );
                    }
                    items.push(FormatItem::Placeholder(copy));
                }
            },
            FormatItem::Literal(l) => {
                let a = if l.start > start {
                    l.start
                } else {
                    start
                };
                let b = if l.end < end {
                    l.end
                } else {
                    end
                };
                if a < b {
                    proof {
                        lemma_items_alike_push(
                            items@,
                            cut,
                            FormatItem::Literal(Literal { start: a, end: b }),
                            FormatItem::Literal(Literal { start: a, end: b }),
                        );
                    }
                    items.push(FormatItem::Literal(Literal { start: a, end: b }));
                }
            },
        }
        i += 1;
    }
    assert(format.items@.take(format.items.len() as int) =~= format.items@);
    Format { items, start, end }
}

} // verus!
