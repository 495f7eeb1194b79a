//! The document model: values, objects, and their mathematical views.

use vstd::prelude::*;

verus! {

/// The mathematical model of a document.
///
/// An object is modelled by its entries in the order in which they are stored,
/// each a field name with the value that it is mapped to.
pub enum Json {
    Null,
    Bool(bool),
    Number(Seq<char>),
    String(Seq<char>),
    Array(Seq<Json>),
    Object(Seq<(Seq<char>, Json)>),
}

/// No two entries carry the same field name.
pub open spec fn distinct_keys(entries: Seq<(Seq<char>, Json)>) -> bool {
    forall|i: int, j: int|
        0 <= i < entries.len() && 0 <= j < entries.len() && i != j ==> entries[i].0
            != entries[j].0
}

/// The index of the first entry named `key`, or the number of entries where
/// there is none.
pub open spec fn position(entries: Seq<(Seq<char>, Json)>, key: Seq<char>) -> int
    decreases entries.len(),
{
    if entries.len() == 0 || entries[0].0 == key {
        0
    } else {
        1 + position(entries.skip(1), key)
    }
}

/// The value that the entries map `key` to, if any.
pub open spec fn lookup(entries: Seq<(Seq<char>, Json)>, key: Seq<char>) -> Option<Json> {
    let at = position(entries, key);
    if at < entries.len() {
        Some(entries[at].1)
    } else {
        None
    }
}

/// `position` is the least index at which `key` stands.
pub proof fn lemma_position(entries: Seq<(Seq<char>, Json)>, key: Seq<char>)
    ensures
        0 <= position(entries, key) <= entries.len(),
        position(entries, key) < entries.len() ==> entries[position(entries, key)].0 == key,
        forall|i: int| 0 <= i < position(entries, key) ==> entries[i].0 != key,
    decreases entries.len(),
{
    if entries.len() != 0 && entries[0].0 != key {
        let rest = entries.skip(1);
        lemma_position(rest, key);
        assert forall|i: int| 0 <= i < position(entries, key) implies entries[i].0 != key by {
            if i > 0 {
                assert(rest[i - 1] == entries[i]);
            }
        }
    }
}

/// An index below which `key` does not stand, and at which it does or the
/// entries end, is `position`.
pub proof fn lemma_position_is(entries: Seq<(Seq<char>, Json)>, key: Seq<char>, at: int)
    requires
        0 <= at <= entries.len(),
        forall|i: int| 0 <= i < at ==> entries[i].0 != key,
        at < entries.len() ==> entries[at].0 == key,
    ensures
        position(entries, key) == at,
{
    lemma_position(entries, key);
}

/// The number of nodes of a document: the value itself and, where it is an
/// array or an object, the nodes of what it holds.
pub open spec fn size(value: Json) -> nat
    decreases value, 0nat,
{
    match value {
        Json::Object(entries) => 1 + size_of_entries(entries, entries.len()),
        Json::Array(items) => 1 + size_of_items(items, items.len()),
        _ => 1,
    }
}

/// The number of nodes of the value of one entry.
pub open spec fn size_of_entry(entry: (Seq<char>, Json)) -> nat
    decreases entry, 0nat,
{
    size(entry.1)
}

/// The number of nodes under the first `count` entries of an object.
pub open spec fn size_of_entries(entries: Seq<(Seq<char>, Json)>, count: nat) -> nat
    decreases entries, count,
{
    if count == 0 || count > entries.len() {
        0
    } else {
        size_of_entries(entries, (count - 1) as nat) + size_of_entry(entries[count - 1])
    }
}

/// The number of nodes under the first `count` items of an array.
pub open spec fn size_of_items(items: Seq<Json>, count: nat) -> nat
    decreases items, count,
{
    if count == 0 || count > items.len() {
        0
    } else {
        size_of_items(items, (count - 1) as nat) + size(items[count - 1])
    }
}

/// The texts of a sequence of strings, one for one.
pub open spec fn texts(strings: Seq<String>) -> Seq<Seq<char>> {
    Seq::new(strings.len(), |i: int| strings[i]@)
}

/// The views of a sequence of values, one for one.
pub open spec fn views(items: Seq<Value>) -> Seq<Json>
    decreases items,
{
    Seq::new(
        items.len(),
        |i: int|
            if 0 <= i < items.len() {
                items[i]@
            } else {
                Json::Null
            },
    )
}

/// The views of stored entries, one for one.
spec fn entry_views(entries: Seq<(String, Value)>) -> Seq<(Seq<char>, Json)>
    decreases entries,
{
    Seq::new(
        entries.len(),
        |i: int|
            if 0 <= i < entries.len() {
                (entries[i].0@, entries[i].1@)
            } else {
                (Seq::empty(), Json::Null)
            },
    )
}

/// An object: field names mapped to values, no name twice, kept in the order
/// in which the names were first inserted.
#[derive(Debug, PartialEq, Eq)]
pub struct Object {
    entries: Vec<(String, Value)>,
}

/// A document, or any part of one.
#[derive(Debug, PartialEq, Eq)]
pub enum Value {
    Null,
    Bool(bool),
    /// A number, held as the literal that denotes it.
    Number(String),
    String(String),
    Array(Vec<Value>),
    Object(Object),
}

impl View for Object {
    type V = Seq<(Seq<char>, Json)>;

    closed spec fn view(&self) -> Seq<(Seq<char>, Json)>
        decreases self,
    {
        entry_views(self.entries@)
    }
}

impl View for Value {
    type V = Json;

    open spec fn view(&self) -> Json
        decreases self,
    {
        match self {
            Value::Null => Json::Null,
            Value::Bool(b) => Json::Bool(*b),
            Value::Number(n) => Json::Number(n@),
            Value::String(s) => Json::String(s@),
            Value::Array(items) => Json::Array(views(items@)),
            Value::Object(object) => Json::Object(object@),
        }
    }
}

impl Object {
    #[verifier::type_invariant]
    spec fn keys_are_distinct(&self) -> bool {
        distinct_keys(self@)
    }

    /// The object without entries.
    pub fn new() -> (out: Object)
        ensures
            out@ == Seq::<(Seq<char>, Json)>::empty(),
    {
        let out = Object { entries: Vec::new() };
        assert(out@ =~= Seq::<(Seq<char>, Json)>::empty());
        out
    }

    /// The number of entries.
    pub fn len(&self) -> (out: usize)
        ensures
            out == self@.len(),
            distinct_keys(self@),
    {
        proof {
            use_type_invariant(self);
        }
        self.entries.len()
    }

    /// The field name of the entry at `index`.
    pub fn key(&self, index: usize) -> (out: &String)
        requires
            index < self@.len(),
        ensures
            out@ == self@[index as int].0,
    {
        &self.entries[index].0
    }

    /// The value of the entry at `index`.
    pub fn value(&self, index: usize) -> (out: &Value)
        requires
            index < self@.len(),
        ensures
            out@ == self@[index as int].1,
    {
        &self.entries[index].1
    }

    /// The index of the entry named `key`, or `len()` where there is none.
    pub fn find(&self, key: &String) -> (out: usize)
        ensures
            out == position(self@, key@),
            out <= self@.len(),
    {
        let mut at: usize = 0;
        while at < self.entries.len() && !(self.entries[at].0 == *key)
            invariant
                at <= self.entries.len(),
                forall|i: int| 0 <= i < at ==> self@[i].0 != key@,
            decreases self.entries.len() - at,
        {
            at += 1;
        }
        proof {
            lemma_position_is(self@, key@, at as int);
        }
        at
    }

    /// The value that `key` is mapped to, if any.
    pub fn get(&self, key: &String) -> (out: Option<&Value>)
        ensures
            out is Some <==> lookup(self@, key@) is Some,
            out matches Some(value) ==> lookup(self@, key@) == Some(value@),
    {
        let at = self.find(key);
        if at < self.entries.len() {
            Some(&self.entries[at].1)
        } else {
            None
        }
    }

    /// Maps `key` to `value`: in place where the object has the name already,
    /// as a new last entry where it has not.
    pub fn insert(&mut self, key: String, value: Value)
        ensures
            final(self)@ == (if position(old(self)@, key@) < old(self)@.len() {
                old(self)@.update(position(old(self)@, key@), (key@, value@))
            } else {
                old(self)@.push((key@, value@))
            }),
            distinct_keys(final(self)@),
    {
        proof {
            use_type_invariant(&*self);
            lemma_position(self@, key@);
        }
        let at = self.find(&key);
        let ghost before = self@;
        let mut entries: Vec<(String, Value)> = Vec::new();
        core::mem::swap(&mut self.entries, &mut entries);
        if at < entries.len() {
            entries.set(at, (key, value));
        } else {
            entries.push((key, value));
        }
        proof {
            let after = if at < before.len() {
                before.update(at as int, (key@, value@))
            } else {
                before.push((key@, value@))
            };
            assert(entry_views(entries@) =~= after);
            assert(distinct_keys(after));
        }
        self.entries = entries;
    }
}

impl Clone for Object {
    /// A copy with the same entries in the same order.
    fn clone(&self) -> (out: Object)
        ensures
            out@ == self@,
        decreases self,
    {
        proof {
            use_type_invariant(self);
        }
        let mut entries: Vec<(String, Value)> = Vec::new();
        let mut at: usize = 0;
        while at < self.entries.len()
            invariant
                at <= self.entries.len(),
                entries.len() == at,
                forall|i: int|
                    0 <= i < at ==> entries[i].0@ == self.entries[i].0@ && entries[i].1@
                        == self.entries[i].1@,
            decreases self.entries.len() - at,
        {
            let entry = &self.entries[at];
            entries.push((entry.0.clone(), entry.1.clone()));
            at += 1;
        }
        assert(entry_views(entries@) =~= self@);
        Object { entries }
    }
}

impl Clone for Value {
    /// A copy of the whole value, equal to it at every depth.
    fn clone(&self) -> (out: Value)
        ensures
            out@ == self@,
        decreases self,
    {
        match self {
            Value::Null => Value::Null,
            Value::Bool(b) => Value::Bool(*b),
            Value::Number(n) => Value::Number(n.clone()),
            Value::String(s) => Value::String(s.clone()),
            Value::Array(items) => {
                let mut copies: Vec<Value> = Vec::new();
                let mut at: usize = 0;
                while at < items.len()
                    invariant
                        self is Array,
                        self->Array_0 == *items,
                        at <= items.len(),
                        copies.len() == at,
                        forall|i: int| 0 <= i < at ==> copies[i]@ == items[i]@,
                    decreases items.len() - at,
                {
                    assert(decreases_to!(self => items[at as int])) by {
                        assert(decreases_to!(self => self->Array_0));
                        assert(decreases_to!(items => items[at as int]));
                    }
                    copies.push(items[at].clone());
                    at += 1;
                }
                assert(views(copies@) =~= views(items@));
                Value::Array(copies)
            },
            Value::Object(object) => Value::Object(object.clone()),
        }
    }
}

} // verus!
