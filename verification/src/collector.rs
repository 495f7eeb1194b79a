//! The tag collector: the values of one distinguished field, gathered over a
//! whole document, an object that carries the field answering for all that
//! lies beneath it.

use vstd::prelude::*;
use crate::value::{
    lookup, size, size_of_entries, size_of_entry, size_of_items, texts, views, Json, Object, Value,
};

verus! {

/// The tags of `value` under the field `name`, in the order of the traversal.
///
/// An object that maps `name` to a string contributes that string and
/// nothing else. Any other object contributes what the values of its entries
/// contribute, an array what its items contribute, any other value nothing.
pub open spec fn tags(value: Json, name: Seq<char>) -> Seq<Seq<char>>
    decreases value, 0nat,
{
    match value {
        Json::Object(entries) => match lookup(entries, name) {
            Some(Json::String(tag)) => seq![tag],
            _ => tags_in_entries(entries, entries.len(), name),
        },
        Json::Array(items) => tags_in_items(items, items.len(), name),
        _ => Seq::empty(),
    }
}

/// The tags that the value of one entry contributes.
pub open spec fn tags_under(entry: (Seq<char>, Json), name: Seq<char>) -> Seq<Seq<char>>
    decreases entry, 0nat,
{
    tags(entry.1, name)
}

/// The tags that the first `count` entries of an object contribute.
pub open spec fn tags_in_entries(
    entries: Seq<(Seq<char>, Json)>,
    count: nat,
    name: Seq<char>,
) -> Seq<Seq<char>>
    decreases entries, count,
{
    if count == 0 || count > entries.len() {
        Seq::empty()
    } else {
        tags_in_entries(entries, (count - 1) as nat, name) + tags_under(entries[count - 1], name)
    }
}

/// The tags that the first `count` items of an array contribute.
pub open spec fn tags_in_items(items: Seq<Json>, count: nat, name: Seq<char>) -> Seq<Seq<char>>
    decreases items, count,
{
    if count == 0 || count > items.len() {
        Seq::empty()
    } else {
        tags_in_items(items, (count - 1) as nat, name) + tags(items[count - 1], name)
    }
}

/// What the pending values still contribute, the last of them first.
spec fn owed(pending: Seq<&Value>, name: Seq<char>) -> Seq<Seq<char>>
    decreases pending.len(),
{
    if pending.len() == 0 {
        Seq::empty()
    } else {
        tags(pending.last()@, name) + owed(pending.drop_last(), name)
    }
}

/// The number of nodes that the pending values hold.
spec fn weight(pending: Seq<&Value>) -> nat
    decreases pending.len(),
{
    if pending.len() == 0 {
        0
    } else {
        size(pending.last()@) + weight(pending.drop_last())
    }
}

proof fn lemma_push(pending: Seq<&Value>, value: &Value, name: Seq<char>)
    ensures
        owed(pending.push(value), name) == tags(value@, name) + owed(pending, name),
        weight(pending.push(value)) == size(value@) + weight(pending),
{
    assert(pending.push(value).drop_last() =~= pending);
}

/// Puts the values of an object's entries on the pending work, the first of
/// them last.
fn defer_entries<'a>(
    object: &'a Object,
    pending: &mut Vec<&'a Value>,
    Ghost(name): Ghost<Seq<char>>,
)
    ensures
        owed(final(pending)@, name) == tags_in_entries(object@, object@.len(), name) + owed(
            old(pending)@,
            name,
        ),
        weight(final(pending)@) == size_of_entries(object@, object@.len()) + weight(
            old(pending)@,
        ),
{
    let ghost before = pending@;
    let mut at: usize = object.len();
    while at > 0
        invariant
            at <= object@.len(),
            tags_in_entries(object@, at as nat, name) + owed(pending@, name) == tags_in_entries(
                object@,
                object@.len(),
                name,
            ) + owed(before, name),
            size_of_entries(object@, at as nat) + weight(pending@) == size_of_entries(
                object@,
                object@.len(),
            ) + weight(before),
        decreases at,
    {
        at -= 1;
        let value = object.value(at);
        proof {
            lemma_push(pending@, value, name);
            assert(size_of_entries(object@, (at + 1) as nat) == size_of_entries(
                object@,
                at as nat,
            ) + size_of_entry(object@[at as int]));
            assert(tags_in_entries(object@, (at + 1) as nat, name) + owed(pending@, name)
                =~= tags_in_entries(object@, at as nat, name) + (tags_under(
                object@[at as int],
                name,
            ) + owed(pending@, name)));
        }
        pending.push(value);
    }
    assert(owed(pending@, name) =~= tags_in_entries(object@, object@.len(), name) + owed(
        before,
        name,
    ));
}

/// Puts the items of an array on the pending work, the first of them last.
fn defer_items<'a>(
    items: &'a Vec<Value>,
    pending: &mut Vec<&'a Value>,
    Ghost(name): Ghost<Seq<char>>,
)
    ensures
        owed(final(pending)@, name) == tags_in_items(views(items@), items@.len(), name) + owed(
            old(pending)@,
            name,
        ),
        weight(final(pending)@) == size_of_items(views(items@), items@.len()) + weight(
            old(pending)@,
        ),
{
    let ghost before = pending@;
    let mut at: usize = items.len();
    while at > 0
        invariant
            at <= items.len(),
            tags_in_items(views(items@), at as nat, name) + owed(pending@, name) == tags_in_items(
                views(items@),
                items@.len(),
                name,
            ) + owed(before, name),
            size_of_items(views(items@), at as nat) + weight(pending@) == size_of_items(
                views(items@),
                items@.len(),
            ) + weight(before),
        decreases at,
    {
        at -= 1;
        let value = &items[at];
        proof {
            lemma_push(pending@, value, name);
            assert(tags_in_items(views(items@), (at + 1) as nat, name) + owed(pending@, name)
                =~= tags_in_items(views(items@), at as nat, name) + (tags(items[at as int]@, name)
                + owed(pending@, name)));
        }
        pending.push(value);
    }
    assert(owed(pending@, name) =~= tags_in_items(views(items@), items@.len(), name) + owed(
        before,
        name,
    ));
}

/// The strings that the objects of `document` carry under the field
/// `tag_name`, in the order of the traversal, repetitions kept.
///
/// An object that maps `tag_name` to a string yields that string, and nothing
/// beneath it is searched. An object without the field, or with another kind
/// of value under it, is searched through all of its entries.
pub fn collect_tagged(document: &Value, tag_name: &str) -> (out: Vec<String>)
    ensures
        texts(out@) == tags(document@, tag_name@),
{
    let name: String = tag_name.to_owned();
    let mut found: Vec<String> = Vec::new();
    let mut pending: Vec<&Value> = Vec::new();
    pending.push(document);
    proof {
        lemma_push(Seq::empty(), document, name@);
        assert(texts(found@) + owed(pending@, name@) =~= tags(document@, name@));
    }
    while pending.len() > 0
        invariant
            name@ == tag_name@,
            texts(found@) + owed(pending@, name@) == tags(document@, name@),
        decreases weight(pending@),
    {
        let ghost before = pending@;
        let ghost had = found@;
        let value = pending.pop().unwrap();
        proof {
            assert(before =~= pending@.push(value));
            lemma_push(pending@, value, name@);
        }
        match value {
            Value::Object(object) => {
                match object.get(&name) {
                    Some(Value::String(tag)) => {
                        found.push(tag.clone());
                        assert(texts(found@) =~= texts(had) + seq![tag@]);
                    },
                    _ => {
                        defer_entries(object, &mut pending, Ghost(name@));
                    },
                }
            },
            Value::Array(items) => {
                defer_items(items, &mut pending, Ghost(name@));
            },
            _ => {},
        }
        assert(texts(found@) + owed(pending@, name@) =~= texts(had) + owed(before, name@));
    }
    assert(texts(found@) =~= tags(document@, name@));
    found
}

} // verus!
