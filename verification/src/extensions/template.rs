//! `{:t:firstLast}` renders a template that was registered under the name
//! `firstLast` against the current value. The name comes from the formatter
//! options — `{:t(firstLast)}` — or, when there are none, from the
//! placeholder's format.
//!
//! A template is parsed once, when it is registered; names are matched with
//! the case sensitivity the formatter was made with.

use vstd::prelude::*;
use crate::text::{owned, chars_of, push_str, push_all, to_string};
use crate::settings::{CaseSensitivity, names_match};
use crate::text::char_eq_ignore_case;
use crate::error::{Error, error_text};
use crate::parsing::{Parser, stray_closing_brace, stray_brace_error, unclosed_placeholder, named_placeholder_at,
    missing_brace_error, ParsedFormat, Format, Placeholder, has_nested, literal_text,
    is_plain_text, template_pieces, items_text};
use crate::formatter::{Ctx, Info, State, formatter_options, format_child, plain_error,
    error_position, options_spec, all_plain_literals, literals_text, all_simple_items,
    simple_items_text, can_render_bare};

verus! {

/// Why [`TemplateFormatter::register`] rejected a template.
#[derive(Debug)]
pub enum RegisterError {
    /// A template is already registered under that name.
    Duplicate(String),
    /// The template does not parse.
    Parse(Error),
}

impl RegisterError {
    /// The message of the error.
    pub fn to_text(&self) -> (res: String)
        ensures
            self matches RegisterError::Duplicate(name) ==> res@
                == "An item with the same key has already been added. Key: "@ + name@,
            self matches RegisterError::Parse(error) ==> res@ == error_text(*error),
    {
        match self {
            RegisterError::Duplicate(name) => {
                let mut out: Vec<char> = Vec::new();
                push_str(&mut out, "An item with the same key has already been added. Key: ");
                push_str(&mut out, name.as_str());
                to_string(&out)
            },
            RegisterError::Parse(error) => error.to_text(),
        }
    }

    /// The error underneath: the parse error of a template that does not
    /// parse, nothing for a duplicate name.
    pub fn source(&self) -> (res: Option<&Error>)
        ensures
            self is Duplicate ==> res is None,
            self matches RegisterError::Parse(error) ==> (res matches Some(r) && *r == *error),
    {
        match self {
            RegisterError::Duplicate(_) => None,
            RegisterError::Parse(error) => Some(error),
        }
    }
}

/// Renders a template registered under a name.
#[derive(Debug)]
pub struct TemplateFormatter {
    name: String,
    case_sensitivity: CaseSensitivity,
    /// The registered templates, in registration order.
    templates: Vec<(String, ParsedFormat)>,
}

/// The names of registered entries.
pub open spec fn names_of(entries: Seq<(String, ParsedFormat)>) -> Seq<Seq<char>> {
    entries.map_values(|e: (String, ParsedFormat)| e.0@)
}

/// The index of the first name in `names` that is `name` under `case`.
pub open spec fn find_name(names: Seq<Seq<char>>, name: Seq<char>, case: CaseSensitivity) -> Option<
    nat,
>
    decreases names.len(),
{
    if names.len() == 0 {
        None
    } else {
        match find_name(names.drop_last(), name, case) {
            Some(k) => Some(k),
            None => if names_match(case, names.last(), name) {
                Some((names.len() - 1) as nat)
            } else {
                None
            },
        }
    }
}

/// `names` without the ones that are `name` under `case`.
pub open spec fn without_name(names: Seq<Seq<char>>, name: Seq<char>, case: CaseSensitivity) -> Seq<
    Seq<char>,
>
    decreases names.len(),
{
    if names.len() == 0 {
        names
    } else {
        let rest = without_name(names.drop_last(), name, case);
        if names_match(case, names.last(), name) {
            rest
        } else {
            rest.push(names.last())
        }
    }
}

/// A registered template as its name, its source text and its parsed
/// format.
pub type TemplateView = (Seq<char>, Seq<char>, Format);

/// The views of registered entries.
pub open spec fn views_of(entries: Seq<(String, ParsedFormat)>) -> Seq<TemplateView> {
    entries.map_values(|e: (String, ParsedFormat)| (e.0@, e.1.src@, e.1.format))
}

/// `templates` without the ones whose name is `name` under `case`, the
/// others kept as they are, in order.
pub open spec fn without_template(templates: Seq<TemplateView>, name: Seq<char>, case: CaseSensitivity) -> Seq<
    TemplateView,
>
    decreases templates.len(),
{
    if templates.len() == 0 {
        templates
    } else {
        let rest = without_template(templates.drop_last(), name, case);
        if names_match(case, templates.last().0, name) {
            rest
        } else {
            rest.push(templates.last())
        }
    }
}

/// A name found is a name that matches, and nothing before it does.
pub proof fn lemma_find_name(names: Seq<Seq<char>>, name: Seq<char>, case: CaseSensitivity)
    ensures
        find_name(names, name, case) matches Some(k) ==> k < names.len() && names_match(
            case,
            names[k as int],
            name,
        ),
        find_name(names, name, case) is None ==> forall|j: int|
            0 <= j < names.len() ==> !names_match(case, #[trigger] names[j], name),
    decreases names.len(),
{
    if names.len() > 0 {
        lemma_find_name(names.drop_last(), name, case);
        assert forall|j: int| 0 <= j < names.len() - 1 implies names.drop_last()[j] == names[j] by {}
    }
}

proof fn lemma_find_name_prefix(names: Seq<Seq<char>>, name: Seq<char>, case: CaseSensitivity, n: nat)
    requires
        n <= names.len(),
        find_name(names.take(n as int), name, case) is Some,
    ensures
        find_name(names, name, case) == find_name(names.take(n as int), name, case),
    decreases names.len() - n,
{
    if n < names.len() {
        assert(names.take(n + 1 as int).drop_last() == names.take(n as int));
        lemma_find_name_prefix(names, name, case, n + 1);
    } else {
        assert(names.take(n as int) == names);
    }
}

/// The name of the template a placeholder asks for: its formatter options
/// when they are not empty, otherwise the literal text of its format.
/// `Ok(None)` when that format holds a placeholder, so that the formatter
/// declines; `Err` when there is no name — no options and no format — or
/// an escape sequence in it resolves to nothing.
pub open spec fn requested_name(src: Seq<char>, p: Placeholder, convert: bool) -> Result<
    Option<Seq<char>>,
    (),
> {
    match options_spec(src, p, convert) {
        Err(_) => Err(()),
        Ok(o) => if o.len() > 0 {
            Ok(Some(o))
        } else {
            match p.format {
                None => Err(()),
                Some(f) => if exists|i: int| 0 <= i < f.items.len() && f.items@[i] is Placeholder {
                    Ok(None)
                } else {
                    match items_text(src, f.items@, convert, false) {
                        Ok(t) => Ok(Some(t)),
                        Err(_) => Err(()),
                    }
                },
            }
        },
    }
}

impl TemplateFormatter {
    /// The registered templates, in registration order.
    pub closed spec fn templates_view(&self) -> Seq<TemplateView> {
        views_of(self.templates@)
    }

    /// The parsed format of the template registered at `i`.
    pub closed spec fn format_at(&self, i: int) -> Format {
        self.templates@[i].1.format
    }

    /// The registered names, in registration order.
    pub closed spec fn names(&self) -> Seq<Seq<char>> {
        names_of(self.templates@)
    }

    /// The source text of the template registered at `i`.
    pub closed spec fn source_at(&self, i: int) -> Seq<char> {
        self.templates@[i].1.src@
    }

    pub closed spec fn name_spec(&self) -> Seq<char> {
        self.name@
    }

    pub closed spec fn case_spec(&self) -> CaseSensitivity {
        self.case_sensitivity
    }

    /// A formatter named `t` with no template, whose template names are
    /// matched with `case_sensitivity`.
    pub fn new(case_sensitivity: CaseSensitivity) -> (res: TemplateFormatter)
        ensures
            res.name_spec() == "t"@,
            res.case_spec() == case_sensitivity,
            res.names().len() == 0,
    {
        TemplateFormatter { name: owned("t"), case_sensitivity, templates: Vec::new() }
    }

    /// The formatter under another name.
    pub fn with_name(self, name: &str) -> (res: TemplateFormatter)
        ensures
            res.name_spec() == name@,
            res.case_spec() == self.case_spec(),
            res.names() == self.names(),
    {
        TemplateFormatter { name: owned(name), ..self }
    }

    pub fn name(&self) -> (res: &str)
        ensures
            res@ == self.name_spec(),
    {
        self.name.as_str()
    }

    /// A placeholder always has to name this formatter.
    pub fn can_auto_detect(&self) -> (res: bool)
        ensures
            !res,
    {
        false
    }

    /// How template names are matched.
    pub fn case_sensitivity(&self) -> (res: CaseSensitivity)
        ensures
            res == self.case_spec(),
    {
        self.case_sensitivity
    }

    /// The index of the template registered under `name`.
    fn position(&self, name: &Vec<char>) -> (res: Option<usize>)
        ensures
            res is None <==> find_name(self.names(), name@, self.case_spec()) is None,
            res matches Some(k) ==> find_name(self.names(), name@, self.case_spec()) == Some(
                k as nat,
            ) && k < self.templates.len(),
    {
        let ghost names = self.names();
        let mut i: usize = 0;
        while i < self.templates.len()
            invariant
                i <= self.templates.len(),
                names == self.names(),
                names.len() == self.templates.len(),
                find_name(names.take(i as int), name@, self.case_spec()) is None,
            decreases self.templates.len() - i,
        {
            assert(names.take(i + 1).drop_last() == names.take(i as int));
            assert(names.take(i + 1).last() == self.templates@[i as int].0@);
            let registered = chars_of(self.templates[i].0.as_str());
            if self.case_sensitivity.matches(&registered, name) {
                assert(find_name(names.take(i + 1), name@, self.case_spec()) == Some(i as nat));
                proof {
                    lemma_find_name_prefix(names, name@, self.case_spec(), (i + 1) as nat);
                }
                return Some(i);
            }
            i += 1;
        }
        assert(names.take(self.templates.len() as int) == names);
        None
    }

    /// The template registered under `name`: the first one whose name is
    /// `name` under the formatter's case sensitivity.
    pub fn get(&self, name: &str) -> (res: Option<&ParsedFormat>)
        ensures
            res is None <==> find_name(self.names(), name@, self.case_spec()) is None,
            res matches Some(t) ==> (find_name(self.names(), name@, self.case_spec()) matches Some(
                k,
            ) && t.src@ == self.source_at(k as int)),
    {
        let n = chars_of(name);
        match self.position(&n) {
            Some(k) => Some(&self.templates[k].1),
            None => None,
        }
    }

    /// Parses `template` and registers it under `name`. A template that does
    /// not parse is refused with its parse error, before the name is looked
    /// at; a name already registered is refused as a duplicate.
    pub fn register(&mut self, parser: &Parser, name: &str, template: &str) -> (res: Result<
        (),
        RegisterError,
    >)
        ensures
            res is Ok ==> find_name(old(self).names(), name@, old(self).case_spec()) is None
                && final(self).names() == old(self).names().push(name@) && final(self).source_at(
                old(self).names().len() as int,
            ) == template@,
            res matches Err(RegisterError::Duplicate(n)) ==> n@ == name@ && find_name(
                old(self).names(),
                name@,
                old(self).case_spec(),
            ) is Some,
            res is Err ==> final(self).names() == old(self).names(),
            res matches Err(RegisterError::Parse(e)) ==> e is Parse,
            forall|k: int|
                #[trigger] stray_closing_brace(template@, 0, k) ==> (res matches Err(
                    RegisterError::Parse(Error::Parse { errors }),
                ) && errors@.len() > 0 && stray_brace_error(errors@[0], k)),
            forall|a: int, q: int, r: int, e: int|
                !parser.string_format_compatibility && #[trigger] named_placeholder_at(template@, 0, a, q, r, e)
                    && e + 1 == template@.len() ==> !(res matches Err(RegisterError::Parse(_))),
            forall|k: int|
                #[trigger] unclosed_placeholder(template@, 0, k) ==> (res matches Err(
                    RegisterError::Parse(Error::Parse { errors }),
                ) && errors@.len() == 1 && missing_brace_error(errors@[0], template@.len() as int)),
            !(res matches Err(RegisterError::Parse(_))) ==> (res is Ok <==> find_name(
                old(self).names(),
                name@,
                old(self).case_spec(),
            ) is None),
            res is Err ==> final(self).templates_view() == old(self).templates_view(),
            res is Ok ==> final(self).templates_view().len() == old(self).templates_view().len() + 1
                && final(self).templates_view().take(old(self).templates_view().len() as int)
                == old(self).templates_view() && final(self).templates_view().last().0 == name@
                && final(self).templates_view().last().1 == template@,
            is_plain_text(template@) || template_pieces(template@, 0) is Some ==> (res is Ok
                <==> find_name(old(self).names(), name@, old(self).case_spec()) is None),
            forall|i: int|
                0 <= i < old(self).names().len() ==> final(self).source_at(i) == old(
                    self,
                ).source_at(i),
            final(self).case_spec() == old(self).case_spec(),
            final(self).name_spec() == old(self).name_spec(),
    {
        let parsed = match parser.parse(template) {
            Ok(p) => p,
            Err(e) => {
                return Err(RegisterError::Parse(e));
            },
        };
        let n = chars_of(name);
        if self.position(&n).is_some() {
            return Err(RegisterError::Duplicate(owned(name)));
        }
        let ghost before = self.templates@;
        self.templates.push((owned(name), parsed));
        assert(self.names() =~= old(self).names().push(name@));
        assert(self.templates_view().take(old(self).templates_view().len() as int)
            =~= old(self).templates_view());
        Ok(())
    }

    /// Removes every template registered under `name`, and says whether
    /// there was one.
    pub fn remove(&mut self, name: &str) -> (res: bool)
        ensures
            res == find_name(old(self).names(), name@, old(self).case_spec()) is Some,
            final(self).names() == without_name(old(self).names(), name@, old(self).case_spec()),
            final(self).templates_view() == without_template(
                old(self).templates_view(),
                name@,
                old(self).case_spec(),
            ),
            final(self).case_spec() == old(self).case_spec(),
            final(self).name_spec() == old(self).name_spec(),
    {
        let n = chars_of(name);
        let found = self.position(&n).is_some();
        let mut rest: Vec<(String, ParsedFormat)> = Vec::new();
        std::mem::swap(&mut rest, &mut self.templates);
        let ghost all = names_of(rest@);
        let ghost every = views_of(rest@);
        let ghost total = rest.len();
        let mut i: usize = 0;
        while rest.len() > 0
            invariant
                i + rest.len() == total,
                all == old(self).names(),
                self.name == old(self).name,
                self.case_sensitivity == old(self).case_sensitivity,
                n@ == name@,
                all.len() == total,
                names_of(rest@) == all.skip(i as int),
                names_of(self.templates@) == without_name(
                    all.take(i as int),
                    n@,
                    self.case_sensitivity,
                ),
                every == views_of(old(self).templates@),
                every.len() == total,
                views_of(rest@) == every.skip(i as int),
                views_of(self.templates@) == without_template(
                    every.take(i as int),
                    n@,
                    self.case_sensitivity,
                ),
            decreases rest.len(),
        {
            let ghost kept = self.templates@;
            let ghost old_rest = rest@;
            let entry = rest.remove(0);
            proof {
                assert(names_of(old_rest)[0] == entry.0@);
                assert(all.skip(i as int)[0] == entry.0@);
                assert forall|j: int| 0 <= j < rest.len() implies #[trigger] names_of(rest@)[j] == all.skip(i + 1)[j] by {
                    assert(rest@[j] == old_rest[j + 1]);
                    assert(names_of(old_rest)[j + 1] == all.skip(
                        i as int,
                    )[j + 1]);
                }
                assert(all.take(i + 1).drop_last() == all.take(i as int));
                assert(all.take(i + 1).last() == entry.0@);
                assert(names_of(rest@) =~= all.skip(i + 1));
                assert(views_of(old_rest)[0] == every.skip(i as int)[0]);
                assert forall|j: int| 0 <= j < rest.len() implies #[trigger] views_of(rest@)[j] == every.skip(i + 1)[j] by {
                    assert(rest@[j] == old_rest[j + 1]);
                    assert(views_of(old_rest)[j + 1] == every.skip(i as int)[j + 1]);
                }
                assert(views_of(rest@) =~= every.skip(i + 1));
                assert(every.take(i + 1).drop_last() == every.take(i as int));
                assert(every.take(i + 1).last() == every[i as int]);
                assert(every[i as int] == views_of(old_rest)[0]);
            }
            let key = chars_of(entry.0.as_str());
            if !self.case_sensitivity.matches(&key, &n) {
                self.templates.push(entry);
                assert(names_of(self.templates@) =~= names_of(kept).push(key@));
                assert(views_of(self.templates@) =~= views_of(kept).push(views_of(old_rest)[0]));
            }
            i += 1;
        }
        assert(all.take(total as int) == all);
        assert(every.take(total as int) == every);
        found
    }

    /// Removes every template.
    pub fn clear(&mut self)
        ensures
            final(self).names().len() == 0,
            final(self).case_spec() == old(self).case_spec(),
            final(self).name_spec() == old(self).name_spec(),
    {
        self.templates.clear();
    }

    /// How many templates are registered.
    pub fn len(&self) -> (res: usize)
        ensures
            res == self.names().len(),
    {
        self.templates.len()
    }

    pub fn is_empty(&self) -> (res: bool)
        ensures
            res == (self.names().len() == 0),
    {
        self.templates.len() == 0
    }

    /// Renders the template the placeholder names ([`requested_name`])
    /// against the current value, with the placeholder's alignment. Declines
    /// a format holding a placeholder; fails when there is no name, or no
    /// template is registered under it.
    pub fn try_evaluate_format(&self, ctx: &Ctx, info: &Info, state: &mut State, fuel: usize) -> (res:
        Result<bool, Error>)
        ensures
            info.placeholder.options is None && (info.placeholder.format matches Some(f) && exists|
                i: int,
            | 0 <= i < f.items.len() && f.items@[i] is Placeholder) ==> res == Ok::<bool, Error>(
                false,
            ),
            match requested_name(info.src@, *info.placeholder, ctx.convert) {
                Err(()) => res is Err,
                Ok(None) => res == Ok::<bool, Error>(false),
                Ok(Some(n)) => match find_name(self.names(), n, self.case_spec()) {
                    None => res is Err,
                    Some(k) => (res is Ok ==> res == Ok::<bool, Error>(true) && final(state).rendered()
                        == old(state).rendered().push(
                        (
                            self.source_at(k as int),
                            self.format_at(k as int).start as int,
                            self.format_at(k as int).end as int,
                            *info.value,
                            old(state).out@,
                            final(state).out@,
                        ),
                    )) && (all_plain_literals(self.source_at(k as int), self.format_at(
                        k as int,
                    ).items@) ==> res == Ok::<bool, Error>(true) && final(state).out@ == old(
                        state,
                    ).out@ + literals_text(
                        self.source_at(k as int),
                        self.format_at(k as int).items@,
                        info.placeholder.alignment as int,
                    )) && (all_simple_items(
                        self.source_at(k as int),
                        self.format_at(k as int).items@,
                        *info.value,
                        *ctx.args,
                        ctx.settings.case_sensitive,
                        old(state).collection_index,
                    ) && fuel >= 2 && can_render_bare(ctx) ==> res == Ok::<bool, Error>(true)
                        && final(state).out@ == old(state).out@ + simple_items_text(
                        self.source_at(k as int),
                        self.format_at(k as int).items@,
                        info.placeholder.alignment as int,
                        *info.value,
                        *ctx.args,
                        ctx.settings.case_sensitive,
                        old(state).collection_index,
                    )),
                },
            },
        decreases fuel, 8nat,
    {
        let options = formatter_options(ctx, info)?;
        let name = if options.len() > 0 {
            options
        } else {
            match &info.placeholder.format {
                Some(f) => {
                    if has_nested(f) {
                        return Ok(false);
                    }
                    match literal_text(info.src, f, ctx.convert) {
                        Ok(t) => t,
                        Err(e) => {
                            return Err(plain_error(&chars_of(e.message.as_str()), e.position));
                        },
                    }
                },
                None => {
                    return Err(
                        plain_error(
                            &chars_of("Value cannot be null. (Parameter 'key')"),
                            error_position(info.placeholder),
                        ),
                    );
                },
            }
        };
        match self.position(&name) {
            Some(k) => {
                let template = &self.templates[k].1;
                format_child(
                    ctx,
                    info,
                    &template.src,
                    &template.format,
                    info.value,
                    info.placeholder.alignment,
                    state,
                    fuel,
                )?;
                Ok(true)
            },
            None => {
                let mut issue: Vec<char> = Vec::new();
                push_str(&mut issue, "Formatter named '");
                push_all(&mut issue, &info.placeholder.formatter_name);
                push_str(&mut issue, "' found no registered template named '");
                push_all(&mut issue, &name);
                push_str(&mut issue, "'");
                Err(plain_error(&issue, error_position(info.placeholder)))
            },
        }
    }
}

/// What `register` writes is what `get` reads back: after a successful
/// registration of `template` under `name`, the template found under `name`
/// is the one just registered.
pub proof fn law_register_then_get(
    before: TemplateFormatter,
    after: TemplateFormatter,
    name: Seq<char>,
    template: Seq<char>,
)
    requires
        find_name(before.names(), name, before.case_spec()) is None,
        after.names() == before.names().push(name),
        after.source_at(before.names().len() as int) == template,
        after.case_spec() == before.case_spec(),
    ensures
        find_name(after.names(), name, after.case_spec()) == Some(before.names().len()),
        after.source_at(before.names().len() as int) == template,
{
    let names = after.names();
    assert(names.drop_last() == before.names());
    lemma_names_match_refl(after.case_spec(), name);
}

/// Every name is itself under either case sensitivity.
pub proof fn lemma_names_match_refl(case: CaseSensitivity, name: Seq<char>)
    ensures
        names_match(case, name, name),
{
}

/// After `remove(name)`, no template is found under `name`.
pub proof fn law_remove_then_get(names: Seq<Seq<char>>, name: Seq<char>, case: CaseSensitivity)
    ensures
        find_name(without_name(names, name, case), name, case) is None,
    decreases names.len(),
{
    if names.len() > 0 {
        law_remove_then_get(names.drop_last(), name, case);
        let rest = without_name(names.drop_last(), name, case);
        if !names_match(case, names.last(), name) {
            assert(rest.push(names.last()).drop_last() == rest);
        }
    }
}

/// Whether no two of `names` are the same name under `case`.
pub open spec fn distinct_names(names: Seq<Seq<char>>, case: CaseSensitivity) -> bool {
    forall|i: int, j: int|
        0 <= i < j < names.len() ==> !names_match(case, #[trigger] names[i], #[trigger] names[j])
}

/// Two names that are both `name` under `case` are the same name.
proof fn lemma_names_match_same(case: CaseSensitivity, a: Seq<char>, b: Seq<char>, name: Seq<char>)
    requires
        names_match(case, a, name),
        names_match(case, b, name),
    ensures
        names_match(case, a, b),
{
    match case {
        CaseSensitivity::CaseSensitive => {},
        CaseSensitivity::CaseInsensitive => {
            assert forall|i: int| 0 <= i < a.len() implies #[trigger] char_eq_ignore_case(a[i], b[i]) by {
                assert(char_eq_ignore_case(a[i], name[i]));
                assert(char_eq_ignore_case(b[i], name[i]));
            }
        },
    }
}

/// Removing a name from templates registered under distinct names takes
/// one template away when one answers to the name and none otherwise, and
/// the name is then found no more.
pub proof fn law_remove_drops_one(names: Seq<Seq<char>>, name: Seq<char>, case: CaseSensitivity)
    requires
        distinct_names(names, case),
    ensures
        without_name(names, name, case).len() == names.len() - (if find_name(names, name, case) is Some {
            1int
        } else {
            0int
        }),
        find_name(without_name(names, name, case), name, case) is None,
    decreases names.len(),
{
    law_remove_then_get(names, name, case);
    if names.len() > 0 {
        let init = names.drop_last();
        assert forall|i: int, j: int| 0 <= i < j < init.len() implies !names_match(
            case,
            #[trigger] init[i],
            #[trigger] init[j],
        ) by {
            assert(init[i] == names[i] && init[j] == names[j]);
        }
        law_remove_drops_one(init, name, case);
        lemma_find_name(init, name, case);
        if names_match(case, names.last(), name) && find_name(init, name, case) is Some {
            let k = find_name(init, name, case)->0 as int;
            lemma_names_match_same(case, init[k], names.last(), name);
            assert(names[k] == init[k]);
            assert(!names_match(case, names[k], names[names.len() - 1]));
        }
    }
}

/// Registering keeps the names distinct under the formatter's case
/// sensitivity: a name is only added when no registered one answers to it.
pub proof fn law_register_keeps_names_distinct(
    names: Seq<Seq<char>>,
    name: Seq<char>,
    case: CaseSensitivity,
)
    requires
        distinct_names(names, case),
        find_name(names, name, case) is None,
    ensures
        distinct_names(names.push(name), case),
{
    lemma_find_name(names, name, case);
    let all = names.push(name);
    assert forall|i: int, j: int| 0 <= i < j < all.len() implies !names_match(
        case,
        #[trigger] all[i],
        #[trigger] all[j],
    ) by {
        if j == names.len() {
            assert(all[i] == names[i]);
            assert(!names_match(case, names[i], name));
        } else {
            assert(all[i] == names[i] && all[j] == names[j]);
        }
    }
}

} // verus!
