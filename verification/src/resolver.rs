//! The path-query resolver: every value reachable under an ordered list of
//! field names, each name sought at any depth beneath the one before it.

use vstd::prelude::*;
use crate::value::{size, size_of_entries, size_of_entry, size_of_items, texts, views, Json, Value};

verus! {

/// What a value found under the last name of a path contributes: its items
/// where it is an array, otherwise the value itself.
pub open spec fn spliced(value: Json) -> Seq<Json> {
    match value {
        Json::Array(items) => items,
        _ => seq![value],
    }
}

/// The matches of `path` in `value`, in the order of the traversal.
///
/// An object contributes what its entries contribute, an array what its
/// items contribute, any other value nothing. The empty path matches nothing.
pub open spec fn reached(value: Json, path: Seq<Seq<char>>) -> Seq<Json>
    decreases value, 0nat,
{
    if path.len() == 0 {
        Seq::empty()
    } else {
        match value {
            Json::Object(entries) => reached_in_entries(entries, entries.len(), path),
            Json::Array(items) => reached_in_items(items, items.len(), path),
            _ => Seq::empty(),
        }
    }
}

/// The matches that one entry of an object contributes.
///
/// An entry named by the first name of the path is a match where that name
/// is the last, and is otherwise searched for the names that remain. Any
/// other entry is searched for the whole path.
pub open spec fn reached_under(entry: (Seq<char>, Json), path: Seq<Seq<char>>) -> Seq<Json>
    decreases entry, 0nat,
{
    if path.len() == 0 {
        Seq::empty()
    } else if entry.0 == path[0] {
        if path.len() == 1 {
            spliced(entry.1)
        } else {
            reached(entry.1, path.skip(1))
        }
    } else {
        reached(entry.1, path)
    }
}

/// The matches that the first `count` entries of an object contribute.
pub open spec fn reached_in_entries(
    entries: Seq<(Seq<char>, Json)>,
    count: nat,
    path: Seq<Seq<char>>,
) -> Seq<Json>
    decreases entries, count,
{
    if count == 0 || count > entries.len() {
        Seq::empty()
    } else {
        reached_in_entries(entries, (count - 1) as nat, path) + reached_under(
            entries[count - 1],
            path,
        )
    }
}

/// The matches that the first `count` items of an array contribute.
pub open spec fn reached_in_items(items: Seq<Json>, count: nat, path: Seq<Seq<char>>) -> Seq<
    Json,
>
    decreases items, count,
{
    if count == 0 || count > items.len() {
        Seq::empty()
    } else {
        reached_in_items(items, (count - 1) as nat, path) + reached(items[count - 1], path)
    }
}

/// The answer to a query: `Null` where nothing reached, otherwise the array
/// of the matches.
pub open spec fn resolved(document: Json, path: Seq<Seq<char>>) -> Json {
    let found = reached(document, path);
    if found.len() == 0 {
        Json::Null
    } else {
        Json::Array(found)
    }
}

/// What one unit of pending work still contributes: a value together with
/// the number of names of the path that led to it. Past the last name the
/// value is itself a match; before it, the value is searched for the rest.
spec fn owed_by(value: Json, from: int, path: Seq<Seq<char>>) -> Seq<Json> {
    if from >= path.len() {
        spliced(value)
    } else {
        reached(value, path.skip(from))
    }
}

/// What the pending work still contributes, the last unit first.
spec fn owed(pending: Seq<(&Value, usize)>, path: Seq<Seq<char>>) -> Seq<Json>
    decreases pending.len(),
{
    if pending.len() == 0 {
        Seq::empty()
    } else {
        owed_by(pending.last().0@, pending.last().1 as int, path) + owed(
            pending.drop_last(),
            path,
        )
    }
}

/// The number of nodes that the pending work holds.
spec fn weight(pending: Seq<(&Value, usize)>) -> nat
    decreases pending.len(),
{
    if pending.len() == 0 {
        0
    } else {
        size(pending.last().0@) + weight(pending.drop_last())
    }
}

/// Every unit of pending work has consumed at most the whole path.
spec fn within(pending: Seq<(&Value, usize)>, limit: int) -> bool {
    forall|i: int| 0 <= i < pending.len() ==> (#[trigger] pending[i]).1 <= limit
}

proof fn lemma_push(pending: Seq<(&Value, usize)>, unit: (&Value, usize), path: Seq<Seq<char>>)
    ensures
        owed(pending.push(unit), path) == owed_by(unit.0@, unit.1 as int, path) + owed(
            pending,
            path,
        ),
        weight(pending.push(unit)) == size(unit.0@) + weight(pending),
{
    assert(pending.push(unit).drop_last() =~= pending);
}

/// The unit that stands for an entry contributes what the entry does.
proof fn lemma_entry_unit(entry: (Seq<char>, Json), from: int, path: Seq<Seq<char>>)
    requires
        0 <= from < path.len(),
    ensures
        reached_under(entry, path.skip(from)) == owed_by(
            entry.1,
            if entry.0 == path[from] {
                from + 1
            } else {
                from
            },
            path,
        ),
{
    assert(path.skip(from).skip(1) =~= path.skip(from + 1));
}

/// Appends to `found` what a matched value contributes.
fn collect(value: &Value, found: &mut Vec<Value>)
    ensures
        views(final(found)@) == views(old(found)@) + spliced(value@),
{
    match value {
        Value::Array(items) => {
            let mut at: usize = 0;
            while at < items.len()
                invariant
                    at <= items.len(),
                    views(found@) == views(old(found)@) + views(items@).take(at as int),
                decreases items.len() - at,
            {
                let ghost before = found@;
                found.push(items[at].clone());
                assert(views(found@) =~= views(before).push(items[at as int]@));
                assert(views(items@).take(at + 1) =~= views(items@).take(at as int).push(
                    items[at as int]@,
                ));
                at += 1;
            }
            assert(views(items@).take(at as int) =~= views(items@));
        },
        _ => {
            let ghost before = found@;
            found.push(value.clone());
            assert(views(found@) =~= views(before) + seq![value@]);
        },
    }
}

/// Replaces a value that is searched from the name at `from` on by the work
/// that its entries or items stand for, the first of them last.
fn expand<'a>(
    value: &'a Value,
    from: usize,
    path: &[String],
    pending: &mut Vec<(&'a Value, usize)>,
)
    requires
        from < path.len(),
        within(old(pending)@, path.len() as int),
    ensures
        within(final(pending)@, path.len() as int),
        owed(final(pending)@, texts(path@)) == reached(value@, texts(path@).skip(from as int))
            + owed(old(pending)@, texts(path@)),
        weight(final(pending)@) + 1 == weight(old(pending)@) + size(value@),
{
    let ghost keys = texts(path@);
    let ghost rest = keys.skip(from as int);
    let ghost before = pending@;
    match value {
        Value::Object(object) => {
            let mut at: usize = object.len();
            while at > 0
                invariant
                    at <= object@.len(),
                    from < path.len(),
                    keys == texts(path@),
                    rest == keys.skip(from as int),
                    within(pending@, path.len() as int),
                    reached_in_entries(object@, at as nat, rest) + owed(pending@, keys)
                        == reached_in_entries(object@, object@.len(), rest) + owed(before, keys),
                    size_of_entries(object@, at as nat) + weight(pending@) == size_of_entries(
                        object@,
                        object@.len(),
                    ) + weight(before),
                decreases at,
            {
                at -= 1;
                let next: usize = if *object.key(at) == path[from] {
                    from + 1
                } else {
                    from
                };
                let unit = (object.value(at), next);
                proof {
                    lemma_push(pending@, unit, keys);
                    lemma_entry_unit(object@[at as int], from as int, keys);
                    assert(size_of_entries(object@, (at + 1) as nat) == size_of_entries(
                        object@,
                        at as nat,
                    ) + size_of_entry(object@[at as int]));
                    assert(reached_in_entries(object@, (at + 1) as nat, rest) + owed(pending@, keys)
                        =~= reached_in_entries(object@, at as nat, rest) + (reached_under(
                        object@[at as int],
                        rest,
                    ) + owed(pending@, keys)));
                }
                pending.push(unit);
            }
            assert(owed(pending@, keys) =~= reached_in_entries(object@, object@.len(), rest) + owed(
                before,
                keys,
            ));
        },
        Value::Array(items) => {
            let mut at: usize = items.len();
            while at > 0
                invariant
                    at <= items.len(),
                    from < path.len(),
                    keys == texts(path@),
                    rest == keys.skip(from as int),
                    within(pending@, path.len() as int),
                    reached_in_items(views(items@), at as nat, rest) + owed(pending@, keys)
                        == reached_in_items(views(items@), items@.len(), rest) + owed(
                        before,
                        keys,
                    ),
                    size_of_items(views(items@), at as nat) + weight(pending@) == size_of_items(
                        views(items@),
                        items@.len(),
                    ) + weight(before),
                decreases at,
            {
                at -= 1;
                let unit = (&items[at], from);
                proof {
                    lemma_push(pending@, unit, keys);
                    assert(reached_in_items(views(items@), (at + 1) as nat, rest) + owed(
                        pending@,
                        keys,
                    ) =~= reached_in_items(views(items@), at as nat, rest) + (reached(
                        items[at as int]@,
                        rest,
                    ) + owed(pending@, keys)));
                }
                pending.push(unit);
            }
            assert(owed(pending@, keys) =~= reached_in_items(views(items@), items@.len(), rest)
                + owed(before, keys));
        },
        _ => {
            assert(owed(pending@, keys) =~= reached(value@, rest) + owed(before, keys));
        },
    }
}

/// Every value of `document` reachable under `path`: the names matched in
/// sequence, each at any depth beneath the one before it, arrays found under
/// the last name flattened into the result.
///
/// The answer is `Null` where nothing matches, and for the empty path;
/// otherwise it is the array of the matches, which is never empty.
pub fn resolve(document: &Value, path: &[String]) -> (out: Value)
    ensures
        out@ == resolved(document@, texts(path@)),
        path@.len() == 0 ==> out@ == Json::Null,
        out@ == Json::Null || (out@ matches Json::Array(found) && found.len() > 0),
{
    if path.len() == 0 {
        return Value::Null;
    }
    let ghost keys = texts(path@);
    let mut found: Vec<Value> = Vec::new();
    let mut pending: Vec<(&Value, usize)> = Vec::new();
    pending.push((document, 0));
    proof {
        lemma_push(Seq::empty(), (document, 0usize), keys);
        assert(keys.skip(0) =~= keys);
        assert(views(found@) + owed(pending@, keys) =~= reached(document@, keys));
    }
    while pending.len() > 0
        invariant
            path.len() > 0,
            keys == texts(path@),
            within(pending@, path.len() as int),
            views(found@) + owed(pending@, keys) == reached(document@, keys),
        decreases weight(pending@),
    {
        let ghost before = pending@;
        let ghost had = views(found@);
        let (value, from) = pending.pop().unwrap();
        proof {
            assert(before =~= pending@.push((value, from)));
            lemma_push(pending@, (value, from), keys);
        }
        if from == path.len() {
            collect(value, &mut found);
            assert(views(found@) + owed(pending@, keys) =~= had + owed(before, keys));
        } else {
            expand(value, from, path, &mut pending);
            assert(views(found@) + owed(pending@, keys) =~= had + owed(before, keys));
        }
    }
    assert(views(found@) =~= reached(document@, keys));
    if found.len() == 0 {
        Value::Null
    } else {
        Value::Array(found)
    }
}

} // verus!
