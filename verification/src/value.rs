//! The values a template is formatted with.

use vstd::prelude::*;

verus! {

/// A value a placeholder can select and a formatter can render.
///
/// A map is a list of entries looked up by key; the first entry whose key
/// matches wins. A span of time is counted in nanoseconds.
#[derive(Debug)]
pub enum Value {
    Null,
    Bool(bool),
    Int(i64),
    UInt(u64),
    String(String),
    TimeSpan(i128),
    List(Vec<Value>),
    Dictionary(Vec<(String, Value)>),
}

/// Whether `c` is a copy of `v` all the way down: a list or a dictionary
/// of the same length whose items — under the same keys — are copies in
/// turn, and any other value itself.
pub open spec fn deep_copy(v: Value, c: Value) -> bool
    decreases v,
{
    match v {
        Value::List(items) => match c {
            Value::List(cs) => cs.len() == items.len() && forall|i: int|
                0 <= i < items.len() ==> deep_copy(#[trigger] items@[i], cs@[i]),
            _ => false,
        },
        Value::Dictionary(es) => match c {
            Value::Dictionary(cs) => cs.len() == es.len() && forall|i: int|
                0 <= i < es.len() ==> (#[trigger] cs@[i]).0 == es@[i].0 && deep_copy(es@[i].1, cs@[i].1),
            _ => false,
        },
        _ => c == v,
    }
}

/// Whether `b` holds what `a` holds all the way down: strings with the same
/// text, lists and dictionaries of the same length whose items — under keys
/// with the same text — hold the same in turn, and any other value itself.
pub open spec fn same_content(a: Value, b: Value) -> bool
    decreases a,
{
    match a {
        Value::String(x) => match b {
            Value::String(y) => y@ == x@,
            _ => false,
        },
        Value::List(xs) => match b {
            Value::List(ys) => ys.len() == xs.len() && forall|i: int|
                0 <= i < xs.len() ==> same_content(#[trigger] xs@[i], ys@[i]),
            _ => false,
        },
        Value::Dictionary(es) => match b {
            Value::Dictionary(fs) => fs.len() == es.len() && forall|i: int|
                0 <= i < es.len() ==> (#[trigger] fs@[i]).0@ == es@[i].0@ && same_content(
                    es@[i].1,
                    fs@[i].1,
                ),
            _ => false,
        },
        _ => b == a,
    }
}

/// Whether a value stands alone: anything but a null, a list or a
/// dictionary.
pub open spec fn is_scalar(v: Value) -> bool {
    !(v is Null) && !(v is List) && !(v is Dictionary)
}

/// Whether `copy` is of the same kind as `v`, and `v` itself when `v`
/// stands alone.
pub open spec fn copies(v: Value, copy: Value) -> bool {
    &&& (copy is Null) == (v is Null)
    &&& (copy is List) == (v is List)
    &&& (copy is Dictionary) == (v is Dictionary)
    &&& is_scalar(v) ==> copy == v
}

/// Whether `copy` is a copy of `v` entry by entry: [`copies`] of it, and
/// for a list or a dictionary the same number of items, each a copy of the
/// item it stands for, under the same key.
pub open spec fn faithful_copy(v: Value, copy: Value) -> bool {
    &&& copies(v, copy)
    &&& match v {
        Value::List(items) => match copy {
            Value::List(c) => c.len() == items.len() && forall|i: int|
                0 <= i < items.len() ==> copies(items@[i], #[trigger] c@[i]),
            _ => false,
        },
        Value::Dictionary(entries) => match copy {
            Value::Dictionary(c) => c.len() == entries.len() && forall|i: int|
                0 <= i < entries.len() ==> (#[trigger] c@[i]).0 == entries@[i].0 && copies(
                    entries@[i].1,
                    c@[i].1,
                ),
            _ => false,
        },
        _ => true,
    }
}

/// A copy of `value`, entry by entry: of the same kind, the value itself
/// when it stands alone, and for a list or a dictionary the same number of
/// items, each copied in turn under the same key.
#[verifier::loop_isolation(false)]
pub fn copy_value(value: &Value) -> (res: Value)
    ensures
        faithful_copy(*value, res),
        deep_copy(*value, res),
    decreases value,
{
    match value {
        Value::Null => Value::Null,
        Value::Bool(b) => Value::Bool(*b),
        Value::Int(n) => Value::Int(*n),
        Value::UInt(n) => Value::UInt(*n),
        Value::TimeSpan(n) => Value::TimeSpan(*n),
        Value::String(s) => Value::String(s.clone()),
        Value::List(items) => {
            let mut copied: Vec<Value> = Vec::new();
            let mut i: usize = 0;
            while i < items.len()
                invariant
                    i <= items.len(),
                    copied.len() == i,
                    forall|j: int| 0 <= j < i ==> copies(items@[j], #[trigger] copied@[j]),
                    forall|j: int| 0 <= j < i ==> deep_copy(items@[j], #[trigger] copied@[j]),
                decreases items.len() - i,
            {
                proof {
                    assert(decreases_to!(*value => value->List_0));
                    assert(decreases_to!(value->List_0 => items@));
                    assert(decreases_to!(items@ => items@[i as int]));
                }
                copied.push(copy_value(&items[i]));
                i += 1;
            }
            Value::List(copied)
        },
        Value::Dictionary(entries) => {
            let mut copied: Vec<(String, Value)> = Vec::new();
            let mut i: usize = 0;
            while i < entries.len()
                invariant
                    i <= entries.len(),
                    copied.len() == i,
                    forall|j: int|
                        0 <= j < i ==> (#[trigger] copied@[j]).0 == entries@[j].0 && copies(
                            entries@[j].1,
                            copied@[j].1,
                        ) && deep_copy(entries@[j].1, copied@[j].1),
                decreases entries.len() - i,
            {
                proof {
                    assert(decreases_to!(*value => value->Dictionary_0));
                    assert(decreases_to!(value->Dictionary_0 => entries@));
                    assert(decreases_to!(entries@ => entries@[i as int]));
                    assert(decreases_to!(entries@[i as int] => entries@[i as int].1));
                }
                let entry = &entries[i];
                copied.push((entry.0.clone(), copy_value(&entry.1)));
                i += 1;
            }
            Value::Dictionary(copied)
        },
    }
}

impl Clone for Value {
    fn clone(&self) -> (res: Self)
        ensures
            faithful_copy(*self, res),
            deep_copy(*self, res),
    {
        copy_value(self)
    }
}

impl Value {
    /// A string value holding `text`.
    pub fn from(text: &str) -> (res: Value)
        ensures
            res matches Value::String(s) && s@ == text@,
    {
        Value::String(String::from_str(text))
    }

    /// A dictionary value holding these entries, in order.
    pub fn map(entries: Vec<(String, Value)>) -> (res: Value)
        ensures
            res == Value::Dictionary(entries),
    {
        Value::Dictionary(entries)
    }

    /// Whether the value is null.
    pub fn is_null(&self) -> (res: bool)
        ensures
            res == (self is Null),
    {
        match self {
            Value::Null => true,
            _ => false,
        }
    }
}

} // verus!
