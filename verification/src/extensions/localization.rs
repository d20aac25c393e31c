//! The localization formatter: `{:L:Hello}` looks `Hello` up among localized
//! strings and renders what it finds as a template, against the current
//! value.
//!
//! A lookup walks a culture chain: the culture itself, then each parent down
//! to the invariant culture `""`. Which cultures a formatter knows, and the
//! chain of each, are given to it as names ([`LocalizationFormatter::with_culture`]).

use vstd::prelude::*;
use crate::text::{chars_of, to_string, trim, trim_spec, push_str, push_all, sub_chars, chars_equal, aligned};
use crate::value::Value;
use crate::error::Error;
use crate::parsing::{Parser, Format, display_text, items_text, has_nested, is_plain_text};
use crate::formatter::{Ctx, Info, State, formatter_options, options_spec, formatting_error, plain_error,
    envelope_spec, fails_with, format_child, format_items, literals_text, all_plain_literals};

verus! {

/// A localized string as it is filed: its culture, its name and its text.
pub type Entry = (Seq<char>, Seq<char>, Seq<char>);

/// The text last filed under `culture` and `name` among `entries`.
pub open spec fn filed(entries: Seq<Entry>, culture: Seq<char>, name: Seq<char>) -> Option<Seq<char>>
    decreases entries.len(),
{
    if entries.len() == 0 {
        None
    } else if entries.last().0 == culture && entries.last().1 == name {
        Some(entries.last().2)
    } else {
        filed(entries.drop_last(), culture, name)
    }
}

/// The text the first culture of `chain` that files `name` has for it.
pub open spec fn chain_lookup(entries: Seq<Entry>, chain: Seq<Seq<char>>, name: Seq<char>) -> Option<
    Seq<char>,
>
    decreases chain.len(),
{
    if chain.len() == 0 {
        None
    } else {
        match filed(entries, chain[0], name) {
            Some(v) => Some(v),
            None => chain_lookup(entries, chain.drop_first(), name),
        }
    }
}

/// What a provider answers for `name` in a culture of chain `chain`: the
/// text the chain finds, else the text the fallback chain finds when there
/// is one, else the name itself when misses are answered with the name,
/// else nothing.
pub open spec fn lookup_spec(
    entries: Seq<Entry>,
    fallback: Option<Seq<Seq<char>>>,
    return_name: bool,
    name: Seq<char>,
    chain: Seq<Seq<char>>,
) -> Option<Seq<char>> {
    match chain_lookup(entries, chain, name) {
        Some(v) => Some(v),
        None => match match fallback {
            Some(f) => chain_lookup(entries, f, name),
            None => None,
        } {
            Some(v) => Some(v),
            None => if return_name {
                Some(name)
            } else {
                None
            },
        },
    }
}

/// A chain finds the text of its first culture that files the name, and
/// nothing when none of its cultures does.
proof fn lemma_chain_finds_first(entries: Seq<Entry>, chain: Seq<Seq<char>>, name: Seq<char>, i: int)
    requires
        0 <= i <= chain.len(),
        forall|j: int| 0 <= j < i ==> filed(entries, #[trigger] chain[j], name) is None,
    ensures
        i < chain.len() && filed(entries, chain[i], name) is Some ==> chain_lookup(
            entries,
            chain,
            name,
        ) == filed(entries, chain[i], name),
        i == chain.len() ==> chain_lookup(entries, chain, name) is None,
    decreases chain.len(),
{
    if chain.len() > 0 && i > 0 {
        let rest = chain.drop_first();
        assert(filed(entries, chain[0], name) is None);
        assert forall|j: int| 0 <= j < i - 1 implies filed(entries, #[trigger] rest[j], name) is None by {
            assert(rest[j] == chain[j + 1]);
        }
        lemma_chain_finds_first(entries, rest, name, i - 1);
        if i < chain.len() {
            assert(rest[i - 1] == chain[i]);
        }
    }
}

/// A provider answers with the text of the first culture of the requested
/// chain that files the name, whatever its fallback chain: culture `i` of
/// the chain files `name`, and no culture before it does.
pub proof fn law_requested_chain_first(
    entries: Seq<Entry>,
    fallback: Option<Seq<Seq<char>>>,
    return_name: bool,
    name: Seq<char>,
    chain: Seq<Seq<char>>,
    i: int,
)
    requires
        0 <= i < chain.len(),
        filed(entries, chain[i], name) is Some,
        forall|j: int| 0 <= j < i ==> filed(entries, #[trigger] chain[j], name) is None,
    ensures
        lookup_spec(entries, fallback, return_name, name, chain) == filed(entries, chain[i], name),
{
    lemma_chain_finds_first(entries, chain, name, i);
}

/// Whatever the requested chain finds is the answer, whatever the fallback
/// culture: the fallback is no more than a second choice.
pub proof fn law_fallback_second(
    entries: Seq<Entry>,
    fallback: Option<Seq<Seq<char>>>,
    return_name: bool,
    name: Seq<char>,
    chain: Seq<Seq<char>>,
)
    requires
        chain_lookup(entries, chain, name) is Some,
    ensures
        lookup_spec(entries, fallback, return_name, name, chain) == chain_lookup(entries, chain, name),
        lookup_spec(entries, fallback, return_name, name, chain) == lookup_spec(
            entries,
            None,
            false,
            name,
            chain,
        ),
{
}

/// The fallback chain is consulted only when no culture of the requested
/// chain files the name: then its first culture that does answers; when
/// neither chain has the name, the answer is the name itself if misses are
/// answered with it, else nothing.
pub proof fn law_fallback_when_missing(
    entries: Seq<Entry>,
    fallback: Seq<Seq<char>>,
    return_name: bool,
    name: Seq<char>,
    chain: Seq<Seq<char>>,
    k: int,
)
    requires
        forall|j: int| 0 <= j < chain.len() ==> filed(entries, #[trigger] chain[j], name) is None,
        0 <= k <= fallback.len(),
        forall|j: int| 0 <= j < k ==> filed(entries, #[trigger] fallback[j], name) is None,
    ensures
        k < fallback.len() && filed(entries, fallback[k], name) is Some ==> lookup_spec(
            entries,
            Some(fallback),
            return_name,
            name,
            chain,
        ) == filed(entries, fallback[k], name),
        k == fallback.len() ==> lookup_spec(entries, Some(fallback), return_name, name, chain) == (
        if return_name {
            Some(name)
        } else {
            None
        }),
{
    lemma_chain_finds_first(entries, chain, name, chain.len() as int);
    lemma_chain_finds_first(entries, fallback, name, k);
}

/// The cultures `entries` file strings under, in the order they first
/// appear.
pub open spec fn cultures_of(entries: Seq<Entry>) -> Seq<Seq<char>>
    decreases entries.len(),
{
    if entries.len() == 0 {
        Seq::empty()
    } else {
        let before = cultures_of(entries.drop_last());
        if before.contains(entries.last().0) {
            before
        } else {
            before.push(entries.last().0)
        }
    }
}

/// The names of `chain` as character sequences.
pub open spec fn chain_view(chain: Seq<String>) -> Seq<Seq<char>> {
    chain.map_values(|c: String| c@)
}

/// Resolves a string to its localized equivalent in a culture given by its
/// chain of culture names, itself first, down to the invariant culture `""`.
pub trait LocalizationProvider {
    /// The localized equivalent of `name` in a culture of chain `chain`, or
    /// `None` when there is none.
    fn get_string(&self, name: &str, chain: &Vec<String>) -> Option<String>;
}

/// Localized strings held in memory, filed by culture and name.
///
/// A lookup walks the chain it is given, then the fallback culture's chain
/// when one is set, and answers a miss with the name itself when asked to.
/// Names and cultures are matched exactly.
#[derive(Debug, Clone)]
pub struct HashMapLocalizationProvider {
    entries: Vec<(Vec<char>, Vec<char>, Vec<char>)>,
    cultures: Vec<Vec<char>>,
    fallback: Option<Vec<Vec<char>>>,
    return_name_if_not_found: bool,
}

impl HashMapLocalizationProvider {
    /// The strings filed, in the order they were filed.
    pub closed spec fn entries_view(&self) -> Seq<Entry> {
        self.entries@.map_values(|e: (Vec<char>, Vec<char>, Vec<char>)| (e.0@, e.1@, e.2@))
    }

    /// The cultures a table was filled for, in the order they were first
    /// filled.
    pub closed spec fn cultures_view(&self) -> Seq<Seq<char>> {
        self.cultures@.map_values(|c: Vec<char>| c@)
    }

    /// The chain of the fallback culture, when one is set.
    pub closed spec fn fallback_view(&self) -> Option<Seq<Seq<char>>> {
        match self.fallback {
            Some(f) => Some(f@.map_values(|c: Vec<char>| c@)),
            None => None,
        }
    }

    /// Whether a miss is answered with the name looked up.
    pub closed spec fn returns_name(&self) -> bool {
        self.return_name_if_not_found
    }

    /// What the provider answers for `name` in a culture of chain `chain`.
    pub open spec fn lookup(&self, name: Seq<char>, chain: Seq<Seq<char>>) -> Option<Seq<char>> {
        lookup_spec(self.entries_view(), self.fallback_view(), self.returns_name(), name, chain)
    }

    /// An empty provider, which answers every lookup with `None`.
    pub fn new() -> (res: HashMapLocalizationProvider)
        ensures
            res.entries_view() == Seq::<Entry>::empty(),
            res.cultures_view() == Seq::<Seq<char>>::empty(),
            res.fallback_view() is None,
            !res.returns_name(),
    {
        let res = HashMapLocalizationProvider {
            entries: Vec::new(),
            cultures: Vec::new(),
            fallback: None,
            return_name_if_not_found: false,
        };
        assert(res.entries_view() =~= Seq::<Entry>::empty());
        assert(res.cultures_view() =~= Seq::<Seq<char>>::empty());
        res
    }

    /// A provider filled from `(culture, name, text)` triples, in order.
    pub fn from_triples(triples: &[(&str, &str, &str)]) -> (res: HashMapLocalizationProvider)
        ensures
            res.entries_view() == triples@.map_values(|t: (&str, &str, &str)| (t.0@, t.1@, t.2@)),
            res.cultures_view() == cultures_of(res.entries_view()),
            res.fallback_view() is None,
            !res.returns_name(),
    {
        let mut res = HashMapLocalizationProvider::new();
        let mut i: usize = 0;
        while i < triples.len()
            invariant
                i <= triples.len(),
                res.entries_view() == triples@.take(i as int).map_values(
                    |t: (&str, &str, &str)| (t.0@, t.1@, t.2@),
                ),
                res.cultures_view() == cultures_of(res.entries_view()),
                res.fallback_view() is None,
                !res.returns_name(),
            decreases triples.len() - i,
        {
            let (c, n, v) = triples[i];
            let ghost before = res.entries_view();
            res.insert(c, n, v);
            assert(res.entries_view().drop_last() =~= before);
            assert(triples@.take(i + 1).map_values(|t: (&str, &str, &str)| (t.0@, t.1@, t.2@))
                =~= triples@.take(i as int).map_values(|t: (&str, &str, &str)| (t.0@, t.1@, t.2@)).push(
                (c@, n@, v@),
            ));
            i += 1;
        }
        assert(triples@.take(triples.len() as int) =~= triples@);
        res
    }

    /// The text filed under exactly `culture` and `name`, found from the
    /// last one filed back.
    fn find(&self, culture: &Vec<char>, name: &Vec<char>) -> (res: Option<Vec<char>>)
        ensures
            match filed(self.entries_view(), culture@, name@) {
                Some(v) => res matches Some(r) && r@ == v,
                None => res is None,
            },
    {
        let mut i = self.entries.len();
        assert(self.entries_view().take(i as int) =~= self.entries_view());
        while i > 0
            invariant
                i <= self.entries.len(),
                filed(self.entries_view(), culture@, name@) == filed(
                    self.entries_view().take(i as int),
                    culture@,
                    name@,
                ),
            decreases i,
        {
            let e = &self.entries[i - 1];
            assert(self.entries_view().take(i as int).drop_last() =~= self.entries_view().take(i - 1));
            assert(self.entries_view().take(i as int).last() == (e.0@, e.1@, e.2@));
            if chars_equal(&e.0, culture) && chars_equal(&e.1, name) {
                return Some(sub_chars(&e.2, 0, e.2.len()));
            }
            i -= 1;
        }
        None
    }

    /// The text the first culture of `chain` that files `name` has for it.
    fn walk_chain(&self, chain: &Vec<Vec<char>>, name: &Vec<char>) -> (res: Option<Vec<char>>)
        ensures
            match chain_lookup(self.entries_view(), chain@.map_values(|c: Vec<char>| c@), name@) {
                Some(v) => res matches Some(r) && r@ == v,
                None => res is None,
            },
    {
        let ghost names = chain@.map_values(|c: Vec<char>| c@);
        let mut i: usize = 0;
        assert(names.skip(0) =~= names);
        while i < chain.len()
            invariant
                i <= chain.len(),
                names == chain@.map_values(|c: Vec<char>| c@),
                chain_lookup(self.entries_view(), names, name@) == chain_lookup(
                    self.entries_view(),
                    names.skip(i as int),
                    name@,
                ),
            decreases chain.len() - i,
        {
            assert(names.skip(i as int)[0] == chain@[i as int]@);
            assert(names.skip(i as int).drop_first() =~= names.skip(i + 1));
            match self.find(&chain[i], name) {
                Some(v) => {
                    return Some(v);
                },
                None => {},
            }
            i += 1;
        }
        None
    }

    /// What the provider answers for `name` in a culture of chain `chain`
    /// ([`lookup_spec`]).
    pub fn lookup_chars(&self, name: &Vec<char>, chain: &Vec<Vec<char>>) -> (res: Option<Vec<char>>)
        ensures
            match self.lookup(name@, chain@.map_values(|c: Vec<char>| c@)) {
                Some(v) => res matches Some(r) && r@ == v,
                None => res is None,
            },
    {
        match self.walk_chain(chain, name) {
            Some(v) => {
                return Some(v);
            },
            None => {},
        }
        match &self.fallback {
            Some(f) => match self.walk_chain(f, name) {
                Some(v) => {
                    return Some(v);
                },
                None => {},
            },
            None => {},
        }
        if self.return_name_if_not_found {
            Some(sub_chars(name, 0, name.len()))
        } else {
            None
        }
    }

    /// Files `text` under `culture` and `name`, returning what was filed
    /// there before, if anything.
    pub fn insert(&mut self, culture: &str, name: &str, text: &str) -> (res: Option<String>)
        ensures
            match filed(old(self).entries_view(), culture@, name@) {
                Some(v) => res matches Some(r) && r@ == v,
                None => res is None,
            },
            final(self).entries_view() == old(self).entries_view().push((culture@, name@, text@)),
            final(self).cultures_view() == if old(self).cultures_view().contains(culture@) {
                old(self).cultures_view()
            } else {
                old(self).cultures_view().push(culture@)
            },
            final(self).fallback_view() == old(self).fallback_view(),
            final(self).returns_name() == old(self).returns_name(),
    {
        let c = chars_of(culture);
        let n = chars_of(name);
        let before = match self.find(&c, &n) {
            Some(v) => Some(to_string(&v)),
            None => None,
        };
        if !self.has_culture(&c) {
            let copy = sub_chars(&c, 0, c.len());
            assert(copy@ =~= c@);
            self.cultures.push(copy);
            assert(self.cultures_view() =~= old(self).cultures_view().push(culture@));
        }
        self.entries.push((c, n, chars_of(text)));
        assert(self.entries_view() =~= old(self).entries_view().push((culture@, name@, text@)));
        before
    }

    fn has_culture(&self, culture: &Vec<char>) -> (res: bool)
        ensures
            res == self.cultures_view().contains(culture@),
    {
        let mut i: usize = 0;
        while i < self.cultures.len()
            invariant
                i <= self.cultures.len(),
                forall|j: int| 0 <= j < i ==> self.cultures_view()[j] != culture@,
            decreases self.cultures.len() - i,
        {
            if chars_equal(&self.cultures[i], culture) {
                assert(self.cultures_view()[i as int] == culture@);
                return true;
            }
            i += 1;
        }
        false
    }

    /// Removes every table.
    pub fn clear(&mut self)
        ensures
            final(self).entries_view() == Seq::<Entry>::empty(),
            final(self).cultures_view() == Seq::<Seq<char>>::empty(),
            final(self).fallback_view() == old(self).fallback_view(),
            final(self).returns_name() == old(self).returns_name(),
    {
        self.entries = Vec::new();
        self.cultures = Vec::new();
        assert(self.entries_view() =~= Seq::<Entry>::empty());
        assert(self.cultures_view() =~= Seq::<Seq<char>>::empty());
    }

    /// Whether a table was filled for that culture.
    pub fn contains_culture(&self, culture: &str) -> (res: bool)
        ensures
            res == self.cultures_view().contains(culture@),
    {
        self.has_culture(&chars_of(culture))
    }

    /// The text filed for exactly that culture and name, with no chain
    /// walked and no fallback applied.
    pub fn get(&self, culture: &str, name: &str) -> (res: Option<String>)
        ensures
            match filed(self.entries_view(), culture@, name@) {
                Some(v) => res matches Some(r) && r@ == v,
                None => res is None,
            },
    {
        match self.find(&chars_of(culture), &chars_of(name)) {
            Some(v) => Some(to_string(&v)),
            None => None,
        }
    }

    /// The culture consulted when the requested one and its parents have no
    /// entry, given as its chain: itself first, down to the invariant
    /// culture.
    pub fn with_fallback_culture(self, chain: Vec<String>) -> (res: HashMapLocalizationProvider)
        ensures
            res.fallback_view() == Some(chain_view(chain@)),
            res.entries_view() == self.entries_view(),
            res.cultures_view() == self.cultures_view(),
            res.returns_name() == self.returns_name(),
    {
        let mut f: Vec<Vec<char>> = Vec::new();
        let mut i: usize = 0;
        while i < chain.len()
            invariant
                i <= chain.len(),
                f@.map_values(|c: Vec<char>| c@) == chain_view(chain@.take(i as int)),
            decreases chain.len() - i,
        {
            f.push(chars_of(chain[i].as_str()));
            assert(chain_view(chain@.take(i + 1)) =~= chain_view(chain@.take(i as int)).push(
                chain@[i as int]@,
            ));
            assert(f@.map_values(|c: Vec<char>| c@) =~= chain_view(chain@.take(i as int)).push(
                chain@[i as int]@,
            ));
            i += 1;
        }
        assert(chain@.take(chain.len() as int) =~= chain@);
        HashMapLocalizationProvider {
            entries: self.entries,
            cultures: self.cultures,
            fallback: Some(f),
            return_name_if_not_found: self.return_name_if_not_found,
        }
    }

    /// Answers a miss with the requested name instead of `None` when
    /// `return_name` holds.
    pub fn with_return_name_if_not_found(self, return_name: bool) -> (res: HashMapLocalizationProvider)
        ensures
            res.returns_name() == return_name,
            res.entries_view() == self.entries_view(),
            res.cultures_view() == self.cultures_view(),
            res.fallback_view() == self.fallback_view(),
    {
        HashMapLocalizationProvider {
            entries: self.entries,
            cultures: self.cultures,
            fallback: self.fallback,
            return_name_if_not_found: return_name,
        }
    }

    /// How many cultures have a table.
    pub fn len(&self) -> (res: usize)
        ensures
            res == self.cultures_view().len(),
    {
        self.cultures.len()
    }

    /// Whether no culture has a table.
    pub fn is_empty(&self) -> (res: bool)
        ensures
            res == (self.cultures_view().len() == 0),
    {
        self.cultures.len() == 0
    }
}

/// The names of `chain` as characters.
fn chain_chars(chain: &Vec<String>) -> (res: Vec<Vec<char>>)
    ensures
        res@.map_values(|c: Vec<char>| c@) == chain_view(chain@),
{
    let mut res: Vec<Vec<char>> = Vec::new();
    let mut i: usize = 0;
    while i < chain.len()
        invariant
            i <= chain.len(),
            res@.map_values(|c: Vec<char>| c@) == chain_view(chain@.take(i as int)),
        decreases chain.len() - i,
    {
        res.push(chars_of(chain[i].as_str()));
        assert(chain_view(chain@.take(i + 1)) =~= chain_view(chain@.take(i as int)).push(
            chain@[i as int]@,
        ));
        assert(res@.map_values(|c: Vec<char>| c@) =~= chain_view(chain@.take(i as int)).push(
            chain@[i as int]@,
        ));
        i += 1;
    }
    assert(chain@.take(chain.len() as int) =~= chain@);
    res
}

impl LocalizationProvider for HashMapLocalizationProvider {
    fn get_string(&self, name: &str, chain: &Vec<String>) -> (res: Option<String>)
        ensures
            match self.lookup(name@, chain_view(chain@)) {
                Some(v) => res matches Some(r) && r@ == v,
                None => res is None,
            },
    {
        let names = chain_chars(chain);
        match self.lookup_chars(&chars_of(name), &names) {
            Some(v) => Some(to_string(&v)),
            None => None,
        }
    }
}

/// The chain a culture name resolves to among the known `cultures`: the
/// invariant culture alone for no name, the chain last made known under the
/// name otherwise; `None` for a name that is not known.
pub open spec fn culture_chain(cultures: Seq<(Seq<char>, Seq<Seq<char>>)>, name: Seq<char>) -> Option<
    Seq<Seq<char>>,
>
    decreases cultures.len(),
{
    if name.len() == 0 {
        Some(seq![Seq::<char>::empty()])
    } else if cultures.len() == 0 {
        None
    } else if cultures.last().0 == name {
        Some(cultures.last().1)
    } else {
        culture_chain(cultures.drop_last(), name)
    }
}

/// The error a localization placeholder with an empty format fails with.
pub open spec fn empty_format_issue() -> Seq<char> {
    "'Format' for localization must not be null or empty. (Parameter 'formattingInfo')"@
}

/// `name` quoted, with `"` and `\` escaped and tabs, line feeds and carriage
/// returns written as escapes.
pub open spec fn quoted_spec(name: Seq<char>) -> Seq<char> {
    seq!['"'] + escaped_spec(name) + seq!['"']
}

/// [`quoted_spec`] without the quotes.
pub open spec fn escaped_spec(s: Seq<char>) -> Seq<char>
    decreases s.len(),
{
    if s.len() == 0 {
        Seq::empty()
    } else {
        escaped_spec(s.drop_last()) + escape_char(s.last())
    }
}

/// One character as a quoted name writes it.
pub open spec fn escape_char(c: char) -> Seq<char> {
    if c == '"' {
        seq!['\\', '"']
    } else if c == '\\' {
        seq!['\\', '\\']
    } else if c == '\t' {
        seq!['\\', 't']
    } else if c == '\n' {
        seq!['\\', 'n']
    } else if c == '\r' {
        seq!['\\', 'r']
    } else {
        seq![c]
    }
}

/// The error a culture the formatter does not know fails with.
pub open spec fn unknown_culture_issue(name: Seq<char>) -> Seq<char> {
    "unknown culture "@ + quoted_spec(name) + ": no data is shipped for it"@
}

/// The error a key that no culture of the chain files fails with.
pub open spec fn not_found_issue(key: Seq<char>) -> Seq<char> {
    "No localized string found for '"@ + key + "'"@
}

fn quoted(name: &Vec<char>) -> (res: Vec<char>)
    ensures
        res@ == quoted_spec(name@),
{
    let mut out: Vec<char> = Vec::new();
    out.push('"');
    let mut i: usize = 0;
    while i < name.len()
        invariant
            i <= name.len(),
            out@ == seq!['"'] + escaped_spec(name@.take(i as int)),
        decreases name.len() - i,
    {
        let c = name[i];
        assert(name@.take(i + 1).drop_last() =~= name@.take(i as int));
        assert(name@.take(i + 1).last() == c);
        if c == '"' {
            out.push('\\');
            out.push('"');
        } else if c == '\\' {
            out.push('\\');
            out.push('\\');
        } else if c == '\t' {
            out.push('\\');
            out.push('t');
        } else if c == '\n' {
            out.push('\\');
            out.push('n');
        } else if c == '\r' {
            out.push('\\');
            out.push('r');
        } else {
            out.push(c);
        }
        assert(out@ =~= seq!['"'] + escaped_spec(name@.take(i + 1)));
        i += 1;
    }
    assert(name@.take(name.len() as int) =~= name@);
    out.push('"');
    out
}

/// Renders a localized string as a template: the placeholder's format is
/// the lookup key, and what the provider finds is parsed and rendered
/// against the current value, with the placeholder's alignment. The
/// formatter options name the culture; without them the invariant culture
/// is used. A placeholder always has to name the formatter.
#[derive(Debug)]
pub struct LocalizationFormatter {
    name: String,
    parser: Parser,
    provider: HashMapLocalizationProvider,
    cultures: Vec<(Vec<char>, Vec<Vec<char>>)>,
}

impl LocalizationFormatter {
    /// The formatter's name.
    pub closed spec fn name_spec(&self) -> Seq<char> {
        self.name@
    }

    /// The provider strings are resolved through.
    pub closed spec fn provider_spec(&self) -> HashMapLocalizationProvider {
        self.provider
    }

    /// The parser localized strings are parsed with.
    pub closed spec fn parser_spec(&self) -> Parser {
        self.parser
    }

    /// The cultures the formatter knows, each with its chain, in the order
    /// they were made known.
    pub closed spec fn cultures_view(&self) -> Seq<(Seq<char>, Seq<Seq<char>>)> {
        self.cultures@.map_values(
            |c: (Vec<char>, Vec<Vec<char>>)| (c.0@, c.1@.map_values(|n: Vec<char>| n@)),
        )
    }

    /// A formatter named `L` that resolves strings through `provider` and
    /// parses them as `parser` does; it knows no culture but the invariant
    /// one.
    pub fn new(parser: &Parser, provider: HashMapLocalizationProvider) -> (res: LocalizationFormatter)
        ensures
            res.name_spec() == "L"@,
            res.provider_spec() == provider,
            res.parser_spec() == *parser,
            res.cultures_view() == Seq::<(Seq<char>, Seq<Seq<char>>)>::empty(),
    {
        let res = LocalizationFormatter {
            name: String::from_str("L"),
            parser: *parser,
            provider,
            cultures: Vec::new(),
        };
        assert(res.cultures_view() =~= Seq::<(Seq<char>, Seq<Seq<char>>)>::empty());
        res
    }

    /// The formatter under another name.
    pub fn with_name(self, name: &str) -> (res: LocalizationFormatter)
        ensures
            res.name_spec() == name@,
            res.provider_spec() == self.provider_spec(),
            res.parser_spec() == self.parser_spec(),
            res.cultures_view() == self.cultures_view(),
    {
        LocalizationFormatter {
            name: String::from_str(name),
            parser: self.parser,
            provider: self.provider,
            cultures: self.cultures,
        }
    }

    /// The formatter knowing the culture `name`, whose strings are looked up
    /// along `chain`: the culture itself first, down to the invariant
    /// culture `""`.
    pub fn with_culture(self, name: &str, chain: Vec<String>) -> (res: LocalizationFormatter)
        ensures
            res.cultures_view() == self.cultures_view().push((name@, chain_view(chain@))),
            res.name_spec() == self.name_spec(),
            res.provider_spec() == self.provider_spec(),
            res.parser_spec() == self.parser_spec(),
    {
        let mut cultures = self.cultures;
        let names = chain_chars(&chain);
        cultures.push((chars_of(name), names));
        let res = LocalizationFormatter {
            name: self.name,
            parser: self.parser,
            provider: self.provider,
            cultures,
        };
        assert(res.cultures_view() =~= self.cultures_view().push((name@, chain_view(chain@))));
        res
    }

    /// The provider strings are resolved through.
    pub fn provider(&self) -> (res: &HashMapLocalizationProvider)
        ensures
            *res == self.provider_spec(),
    {
        &self.provider
    }

    /// Swaps the provider out.
    pub fn set_provider(&mut self, provider: HashMapLocalizationProvider)
        ensures
            final(self).provider_spec() == provider,
            final(self).name_spec() == old(self).name_spec(),
            final(self).parser_spec() == old(self).parser_spec(),
            final(self).cultures_view() == old(self).cultures_view(),
    {
        self.provider = provider;
    }

    /// The formatter's name.
    pub fn name(&self) -> (res: &str)
        ensures
            res@ == self.name_spec(),
    {
        self.name.as_str()
    }

    /// Never: a placeholder has to name this formatter.
    pub fn can_auto_detect(&self) -> (res: bool)
        ensures
            !res,
    {
        false
    }

    /// The chain a culture name resolves to ([`culture_chain`]).
    fn chain_of(&self, name: &Vec<char>) -> (res: Option<Vec<Vec<char>>>)
        ensures
            match culture_chain(self.cultures_view(), name@) {
                Some(c) => res matches Some(r) && r@.map_values(|n: Vec<char>| n@) == c,
                None => res is None,
            },
    {
        if name.len() == 0 {
            let mut chain: Vec<Vec<char>> = Vec::new();
            chain.push(Vec::new());
            assert(chain@.map_values(|n: Vec<char>| n@) =~= seq![Seq::<char>::empty()]);
            return Some(chain);
        }
        let mut i = self.cultures.len();
        assert(self.cultures_view().take(i as int) =~= self.cultures_view());
        while i > 0
            invariant
                i <= self.cultures.len(),
                name@.len() > 0,
                culture_chain(self.cultures_view(), name@) == culture_chain(
                    self.cultures_view().take(i as int),
                    name@,
                ),
            decreases i,
        {
            let c = &self.cultures[i - 1];
            assert(self.cultures_view().take(i as int).drop_last() =~= self.cultures_view().take(i - 1));
            assert(self.cultures_view().take(i as int).last() == (
                c.0@,
                c.1@.map_values(|n: Vec<char>| n@),
            ));
            if chars_equal(&c.0, name) {
                let mut chain: Vec<Vec<char>> = Vec::new();
                let mut j: usize = 0;
                while j < c.1.len()
                    invariant
                        j <= c.1.len(),
                        chain@.map_values(|n: Vec<char>| n@) == c.1@.take(j as int).map_values(
                            |n: Vec<char>| n@,
                        ),
                    decreases c.1.len() - j,
                {
                    let copy = sub_chars(&c.1[j], 0, c.1[j].len());
                    assert(copy@ =~= c.1@[j as int]@);
                    chain.push(copy);
                    assert(c.1@.take(j + 1).map_values(|n: Vec<char>| n@) =~= c.1@.take(j as int).map_values(
                        |n: Vec<char>| n@,
                    ).push(c.1@[j as int]@));
                    assert(chain@.map_values(|n: Vec<char>| n@) =~= c.1@.take(j + 1).map_values(
                        |n: Vec<char>| n@,
                    ));
                    j += 1;
                }
                assert(c.1@.take(c.1.len() as int) =~= c.1@);
                return Some(chain);
            }
            i -= 1;
        }
        None
    }

    /// Looks the placeholder's format up and renders what the provider
    /// finds.
    ///
    /// An empty format fails first, at index 0; then a culture the options
    /// name that the formatter does not know, at index 0. The key is the
    /// format's text with its literals resolved and its placeholders as
    /// written; when the chain of the culture has no string for it and the
    /// format holds placeholders, the format is rendered against the current
    /// value — with no arguments and no enclosing scope — and the result is
    /// looked up instead. A miss fails with the key at the format's start; a
    /// string that does not parse fails with its syntax errors.
    pub fn try_evaluate_format(&self, ctx: &Ctx, info: &Info, state: &mut State, fuel: usize) -> (res:
        Result<bool, Error>)
        ensures
            (info.placeholder.format matches Some(f) ==> f.end <= f.start) ==> fails_with(
                res,
                envelope_spec(ctx.template@, empty_format_issue(), 0),
                0,
            ),
            info.placeholder.format matches Some(f) ==> f.start < f.end ==> match options_spec(
                info.src@,
                *info.placeholder,
                ctx.convert,
            ) {
                Err(_) => res is Err,
                Ok(o) => match culture_chain(self.cultures_view(), trim_spec(o)) {
                    Some(chain) => res is Ok ==> res == Ok::<bool, Error>(true) && (exists|k: Seq<char>|
                        #[trigger] self.provider_spec().lookup(k, chain) == Some(
                            final(state).rendered().last().0,
                        )) && final(state).rendered() == old(state).rendered().push(
                        (
                            final(state).rendered().last().0,
                            0,
                            final(state).rendered().last().0.len() as int,
                            *info.value,
                            old(state).out@,
                            final(state).out@,
                        ),
                    ),
                    None => true,
                },
            },
            info.placeholder.format matches Some(f) ==> f.start < f.end ==> match options_spec(
                info.src@,
                *info.placeholder,
                ctx.convert,
            ) {
                Err(_) => res is Err,
                Ok(o) => match culture_chain(self.cultures_view(), trim_spec(o)) {
                    None => fails_with(
                        res,
                        envelope_spec(ctx.template@, unknown_culture_issue(trim_spec(o)), 0),
                        0,
                    ),
                    Some(chain) => match items_text(info.src@, f.items@, ctx.convert, true) {
                        Err((m, q)) => fails_with(res, m, q),
                        Ok(key) => match self.provider_spec().lookup(key, chain) {
                            Some(v) => (res is Ok ==> res == Ok::<bool, Error>(true)
                                && final(state).rendered() == old(state).rendered().push(
                                (v, 0, v.len() as int, *info.value, old(state).out@, final(state).out@),
                            )) && (is_plain_text(v) && 0 < v.len() <= usize::MAX / 4 ==> res == Ok::<
                                bool,
                                Error,
                            >(true) && final(state).out@ == old(state).out@ + aligned(
                                v,
                                info.placeholder.alignment as int,
                            )),
                            None => !(exists|i: int| 0 <= i < f.items.len() && f.items@[i] is Placeholder)
                                ==> fails_with(
                                res,
                                envelope_spec(ctx.template@, not_found_issue(key), f.start as nat),
                                f.start as int,
                            ),
                        },
                    },
                },
            },
        decreases fuel, 8nat,
    {
        let format = match &info.placeholder.format {
            Some(f) => {
                if f.start < f.end {
                    f
                } else {
                    let mut issue: Vec<char> = Vec::new();
                    push_str(&mut issue, "'Format' for localization must not be null or empty. (Parameter 'formattingInfo')");
                    return Err(formatting_error(ctx, &issue, 0));
                }
            },
            None => {
                let mut issue: Vec<char> = Vec::new();
                push_str(&mut issue, "'Format' for localization must not be null or empty. (Parameter 'formattingInfo')");
                return Err(formatting_error(ctx, &issue, 0));
            },
        };
        let options = formatter_options(ctx, info)?;
        let culture = trim(&options);
        let chain = match self.chain_of(&culture) {
            Some(c) => c,
            None => {
                let mut issue: Vec<char> = Vec::new();
                push_str(&mut issue, "unknown culture ");
                push_all(&mut issue, &quoted(&culture));
                push_str(&mut issue, ": no data is shipped for it");
                assert(issue@ =~= unknown_culture_issue(culture@));
                return Err(formatting_error(ctx, &issue, 0));
            },
        };
        let key = match display_text(info.src, format, ctx.convert) {
            Ok(k) => k,
            Err(e) => {
                return Err(plain_error(&chars_of(e.message.as_str()), e.position));
            },
        };
        let ghost chain_names = chain@.map_values(|n: Vec<char>| n@);
        let ghost mut used = key@;
        let mut localized = self.provider.lookup_chars(&key, &chain);
        if localized.is_none() && has_nested(format) {
            let none = Value::List(Vec::new());
            let isolated = Ctx {
                settings: ctx.settings,
                convert: ctx.convert,
                registry: ctx.registry,
                args: &none,
                root: ctx.root,
                template: ctx.template,
            };
            let mut scratch = State::new(state.collection_index);
            let scopes: Vec<&Value> = Vec::new();
            format_items(
                &isolated,
                info.src,
                format,
                info.value,
                &scopes,
                info.placeholder.alignment,
                false,
                &mut scratch,
                fuel,
            )?;
            localized = self.provider.lookup_chars(&scratch.out, &chain);
            proof {
                used = scratch.out@;
            }
        }
        let text = match localized {
            Some(t) => t,
            None => {
                let mut issue: Vec<char> = Vec::new();
                push_str(&mut issue, "No localized string found for '");
                push_all(&mut issue, &key);
                push_str(&mut issue, "'");
                assert(issue@ =~= not_found_issue(key@));
                return Err(formatting_error(ctx, &issue, format.start));
            },
        };
        let ghost found = text@;
        assert(self.provider_spec().lookup(used, chain_names) == Some(found));
        let parsed = self.parser.parse_chars(text)?;
        proof {
            if is_plain_text(parsed.src@) && 0 < parsed.src@.len() <= usize::MAX / 4 {
                let items = parsed.format.items@;
                let l = items[0]->Literal_0;
                assert(parsed.src@.subrange(l.start as int, l.end as int) =~= parsed.src@);
                assert(items.drop_last() =~= Seq::<crate::parsing::FormatItem>::empty());
                assert(literals_text(parsed.src@, items.drop_last(), info.placeholder.alignment as int)
                    =~= Seq::<char>::empty());
                assert(literals_text(parsed.src@, items, info.placeholder.alignment as int) =~= aligned(
                    parsed.src@,
                    info.placeholder.alignment as int,
                ));
                assert(all_plain_literals(parsed.src@, items));
            }
        }
        let ghost before = *state;
        format_child(
            ctx,
            info,
            &parsed.src,
            &parsed.format,
            info.value,
            info.placeholder.alignment,
            state,
            fuel,
        )?;
        assert(state.rendered() == before.rendered().push(
            (found, 0, found.len() as int, *info.value, before.out@, state.out@),
        ));
        Ok(true)
    }
}

} // verus!
