//! The composite formatting a unit's text is written with: `{0}` stands for
//! the value, and `{{` and `}}` for single braces.

use vstd::prelude::*;
use crate::text::{chars_of, push_all, to_string};

verus! {

/// `template` with `{0}` replaced by `argument` and `{{`, `}}` by single
/// braces, read left to right; any other brace is left as written.
pub open spec fn format_one_spec(template: Seq<char>, argument: Seq<char>) -> Seq<char>
    decreases template.len(),
{
    if template.len() == 0 {
        Seq::empty()
    } else {
        let c = template[0];
        if (c == '{' || c == '}') && template.len() >= 2 && template[1] == c {
            seq![c] + format_one_spec(template.skip(2), argument)
        } else if c == '{' && template.len() >= 3 && template[1] == '0' && template[2] == '}' {
            argument + format_one_spec(template.skip(3), argument)
        } else {
            seq![c] + format_one_spec(template.skip(1), argument)
        }
    }
}

/// [`format_one_spec`] of the template and the argument.
pub fn format_one(template: &str, argument: &str) -> (res: String)
    ensures
        res@ == format_one_spec(template@, argument@),
{
    let t = chars_of(template);
    let a = chars_of(argument);
    let mut out: Vec<char> = Vec::new();
    let mut i: usize = 0;
    assert(t@.skip(0) == t@);
    assert(out@ == Seq::<char>::empty());
    while i < t.len()
        invariant
            i <= t.len(),
            t@ == template@,
            a@ == argument@,
            out@ + format_one_spec(t@.skip(i as int), a@) == format_one_spec(t@, a@),
        decreases t.len() - i,
    {
        let ghost rest = t@.skip(i as int);
        let c = t[i];
        assert(rest[0] == c);
        if (c == '{' || c == '}') && i + 1 < t.len() && t[i + 1] == c {
            assert(rest[1] == t@[i + 1]);
            assert(rest.skip(2) == t@.skip(i + 2));
            out.push(c);
            i += 2;
        } else if c == '{' && t.len() - i > 2 && t[i + 1] == '0' && t[i + 2] == '}' {
            assert(rest[1] == t@[i + 1]);
            assert(rest[2] == t@[i + 2]);
            assert(rest.skip(3) == t@.skip(i + 3));
            push_all(&mut out, &a);
            i += 3;
        } else {
            proof {
                if i + 1 < t.len() {
                    assert(rest[1] == t@[i + 1]);
                }
                if t.len() - i > 2 {
                    assert(rest[2] == t@[i + 2]);
                }
            }
            assert(rest.skip(1) == t@.skip(i + 1));
            out.push(c);
            i += 1;
        }
    }
    assert(t@.skip(t.len() as int) =~= Seq::<char>::empty());
    to_string(&out)
}

/// The two-letter names of the languages whose time texts ship, in the
/// order their resource files are listed.
pub fn common_languages() -> (res: Vec<&'static str>)
    ensures
        res@.map_values(|s: &str| s@) == seq!["en"@, "de"@, "es"@, "fr"@, "it"@, "pt"@],
{
    let mut res: Vec<&'static str> = Vec::new();
    res.push("en");
    res.push("de");
    res.push("es");
    res.push("fr");
    res.push("it");
    res.push("pt");
    assert(res@.map_values(|s: &str| s@) =~= seq!["en"@, "de"@, "es"@, "fr"@, "it"@, "pt"@]);
    res
}

} // verus!
