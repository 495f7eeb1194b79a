//! Laws of the two queries, stated over the model of a document and proved
//! from the definitions that the contracts of the queries use.

use vstd::prelude::*;
use crate::resolver::{
    reached, reached_in_entries, reached_in_items, reached_under, resolved, spliced,
};
use crate::collector::{tags, tags_in_entries, tags_in_items, tags_under};
use crate::value::{lemma_position, lemma_position_is, lookup, position, Json, Value};

verus! {

/// The values that the objects of a document, at any depth, map `name` to,
/// in the order of the traversal.
pub open spec fn occurrences(value: Json, name: Seq<char>) -> Seq<Json>
    decreases value, 0nat,
{
    match value {
        Json::Object(entries) => occurrences_in_entries(entries, entries.len(), name),
        Json::Array(items) => occurrences_in_items(items, items.len(), name),
        _ => Seq::empty(),
    }
}

/// The occurrences that one entry of an object accounts for: its own value
/// where it carries the name, and those within its value.
pub open spec fn occurrences_under(entry: (Seq<char>, Json), name: Seq<char>) -> Seq<Json>
    decreases entry, 0nat,
{
    if entry.0 == name {
        seq![entry.1] + occurrences(entry.1, name)
    } else {
        occurrences(entry.1, name)
    }
}

/// The occurrences that the first `count` entries of an object account for.
pub open spec fn occurrences_in_entries(
    entries: Seq<(Seq<char>, Json)>,
    count: nat,
    name: Seq<char>,
) -> Seq<Json>
    decreases entries, count,
{
    if count == 0 || count > entries.len() {
        Seq::empty()
    } else {
        occurrences_in_entries(entries, (count - 1) as nat, name) + occurrences_under(
            entries[count - 1],
            name,
        )
    }
}

/// The occurrences that the first `count` items of an array account for.
pub open spec fn occurrences_in_items(items: Seq<Json>, count: nat, name: Seq<char>) -> Seq<Json>
    decreases items, count,
{
    if count == 0 || count > items.len() {
        Seq::empty()
    } else {
        occurrences_in_items(items, (count - 1) as nat, name) + occurrences(
            items[count - 1],
            name,
        )
    }
}

/// `inner` beneath a chain of objects of one entry each, the entries named by
/// `wrappers` from the outside in.
pub open spec fn nested(wrappers: Seq<Seq<char>>, inner: Json) -> Json
    decreases wrappers.len(),
{
    if wrappers.len() == 0 {
        inner
    } else {
        Json::Object(seq![(wrappers[0], nested(wrappers.skip(1), inner))])
    }
}

/// The object that maps the one name `key` to `value`.
pub open spec fn single(key: Seq<char>, value: Json) -> Json {
    Json::Object(seq![(key, value)])
}

/// The empty path resolves to `Null` in every document.
pub proof fn lemma_empty_path(document: Json)
    ensures
        resolved(document, Seq::empty()) == Json::Null,
{
}

/// A query answers `Null` or a non-empty array, never anything else.
pub proof fn lemma_answer_shape(document: Json, path: Seq<Seq<char>>)
    ensures
        resolved(document, path) == Json::Null || (resolved(document, path) matches Json::Array(
            found,
        ) && found.len() > 0),
{
}

proof fn lemma_absent_value(value: Json, path: Seq<Seq<char>>)
    requires
        path.len() > 0,
        occurrences(value, path[0]).len() == 0,
    ensures
        reached(value, path).len() == 0,
    decreases value, 0nat,
{
    match value {
        Json::Object(entries) => lemma_absent_entries(entries, entries.len(), path),
        Json::Array(items) => lemma_absent_items(items, items.len(), path),
        _ => {},
    }
}

proof fn lemma_absent_entries(entries: Seq<(Seq<char>, Json)>, count: nat, path: Seq<Seq<char>>)
    requires
        path.len() > 0,
        count <= entries.len(),
        occurrences_in_entries(entries, count, path[0]).len() == 0,
    ensures
        reached_in_entries(entries, count, path).len() == 0,
    decreases entries, count,
{
    if count > 0 {
        let entry = entries[count - 1];
        lemma_absent_entries(entries, (count - 1) as nat, path);
        assert(occurrences_under(entry, path[0]).len() == 0);
        assert(decreases_to!(entries => entry.1)) by {
            assert(decreases_to!(entries => entry));
        }
        lemma_absent_under(entry, path);
    }
}

proof fn lemma_absent_under(entry: (Seq<char>, Json), path: Seq<Seq<char>>)
    requires
        path.len() > 0,
        occurrences_under(entry, path[0]).len() == 0,
    ensures
        entry.0 != path[0],
        reached_under(entry, path).len() == 0,
    decreases entry, 0nat,
{
    if entry.0 == path[0] {
        assert(occurrences_under(entry, path[0]).len() == 1 + occurrences(entry.1, path[0]).len());
    }
    lemma_absent_value(entry.1, path);
}

proof fn lemma_absent_items(items: Seq<Json>, count: nat, path: Seq<Seq<char>>)
    requires
        path.len() > 0,
        count <= items.len(),
        occurrences_in_items(items, count, path[0]).len() == 0,
    ensures
        reached_in_items(items, count, path).len() == 0,
    decreases items, count,
{
    if count > 0 {
        lemma_absent_items(items, (count - 1) as nat, path);
        lemma_absent_value(items[count - 1], path);
    }
}

/// A document in which no object, at any depth, has an entry named by the
/// first name of the path resolves to `Null`.
pub proof fn lemma_absent_name(document: Json, path: Seq<Seq<char>>)
    requires
        path.len() > 0 ==> occurrences(document, path[0]).len() == 0,
    ensures
        resolved(document, path) == Json::Null,
{
    if path.len() > 0 {
        lemma_absent_value(document, path);
    }
}

/// The object without entries resolves to `Null` under every path.
pub proof fn lemma_empty_object(path: Seq<Seq<char>>)
    ensures
        resolved(Json::Object(Seq::empty()), path) == Json::Null,
{
}

proof fn lemma_sole_value(value: Json, name: Seq<char>, target: Json)
    requires
        occurrences(value, name) == seq![target],
    ensures
        reached(value, seq![name]) == spliced(target),
    decreases value, 0nat,
{
    match value {
        Json::Object(entries) => lemma_sole_entries(entries, entries.len(), name, target),
        Json::Array(items) => lemma_sole_items(items, items.len(), name, target),
        _ => {},
    }
}

proof fn lemma_sole_entries(
    entries: Seq<(Seq<char>, Json)>,
    count: nat,
    name: Seq<char>,
    target: Json,
)
    requires
        count <= entries.len(),
        occurrences_in_entries(entries, count, name) == seq![target],
    ensures
        reached_in_entries(entries, count, seq![name]) == spliced(target),
    decreases entries, count,
{
    let path = seq![name];
    let entry = entries[count - 1];
    let earlier = occurrences_in_entries(entries, (count - 1) as nat, name);
    let here = occurrences_under(entry, name);
    assert(earlier + here == seq![target]);
    assert(decreases_to!(entries => entry.1)) by {
        assert(decreases_to!(entries => entry));
    }
    if earlier.len() == 0 {
        assert(here =~= seq![target]);
        lemma_absent_entries(entries, (count - 1) as nat, path);
        if entry.0 == name {
            assert(here[0] == entry.1);
        } else {
            lemma_sole_value(entry.1, name, target);
        }
        assert(reached_in_entries(entries, count, path) =~= reached_under(entry, path));
    } else {
        assert(earlier =~= seq![target]);
        assert(here.len() == 0);
        lemma_sole_entries(entries, (count - 1) as nat, name, target);
        lemma_absent_under(entry, path);
        assert(reached_in_entries(entries, count, path) =~= reached_in_entries(
            entries,
            (count - 1) as nat,
            path,
        ));
    }
}

proof fn lemma_sole_items(items: Seq<Json>, count: nat, name: Seq<char>, target: Json)
    requires
        count <= items.len(),
        occurrences_in_items(items, count, name) == seq![target],
    ensures
        reached_in_items(items, count, seq![name]) == spliced(target),
    decreases items, count,
{
    let path = seq![name];
    let item = items[count - 1];
    let earlier = occurrences_in_items(items, (count - 1) as nat, name);
    let here = occurrences(item, name);
    assert(earlier + here == seq![target]);
    if earlier.len() == 0 {
        assert(here =~= seq![target]);
        lemma_absent_items(items, (count - 1) as nat, path);
        lemma_sole_value(item, name, target);
        assert(reached_in_items(items, count, path) =~= reached(item, path));
    } else {
        assert(earlier =~= seq![target]);
        assert(here.len() == 0);
        lemma_sole_items(items, (count - 1) as nat, name, target);
        lemma_absent_value(item, path);
        assert(reached_in_items(items, count, path) =~= reached_in_items(
            items,
            (count - 1) as nat,
            path,
        ));
    }
}

/// Where exactly one object of a document has an entry named `name`, and the
/// value of that entry is no array, the one-name query answers the array
/// that holds that value alone.
pub proof fn lemma_sole_match(document: Json, name: Seq<char>, target: Json)
    requires
        occurrences(document, name) == seq![target],
        !(target is Array),
    ensures
        resolved(document, seq![name]) == Json::Array(seq![target]),
{
    lemma_sole_value(document, name, target);
}

/// Where exactly one object of a document has an entry named `name`, and the
/// value of that entry is an array, the one-name query answers that array
/// itself, not an array around it; an array without items answers `Null`.
pub proof fn lemma_sole_array_is_flattened(document: Json, name: Seq<char>, items: Seq<Json>)
    requires
        occurrences(document, name) == seq![Json::Array(items)],
    ensures
        resolved(document, seq![name]) == (if items.len() == 0 {
            Json::Null
        } else {
            Json::Array(items)
        }),
{
    lemma_sole_value(document, name, Json::Array(items));
}

/// A value beneath a chain of entries, none of them named by the first name
/// of the path, contributes what it contributes by itself.
pub proof fn lemma_wrappers_are_transparent(
    wrappers: Seq<Seq<char>>,
    inner: Json,
    path: Seq<Seq<char>>,
)
    requires
        path.len() > 0,
        forall|i: int| 0 <= i < wrappers.len() ==> wrappers[i] != path[0],
    ensures
        reached(nested(wrappers, inner), path) == reached(inner, path),
    decreases wrappers.len(),
{
    if wrappers.len() > 0 {
        let below = nested(wrappers.skip(1), inner);
        let entries = seq![(wrappers[0], below)];
        lemma_wrappers_are_transparent(wrappers.skip(1), inner, path);
        assert(reached_in_entries(entries, 0, path) =~= Seq::<Json>::empty());
        assert(reached_in_entries(entries, 1, path) =~= reached_under(entries[0], path));
    }
}

/// A two-name query finds the second name beneath the first whether the
/// entry named by the first holds it directly or beneath a chain of entries
/// with other names: both documents get the same answer, what the value
/// under the second name contributes.
pub proof fn lemma_depth_is_immaterial(
    first: Seq<char>,
    second: Seq<char>,
    wrappers: Seq<Seq<char>>,
    target: Json,
)
    requires
        forall|i: int| 0 <= i < wrappers.len() ==> wrappers[i] != second,
    ensures
        reached(single(first, single(second, target)), seq![first, second]) == spliced(target),
        reached(single(first, nested(wrappers, single(second, target))), seq![first, second])
            == spliced(target),
        resolved(single(first, nested(wrappers, single(second, target))), seq![first, second])
            == resolved(single(first, single(second, target)), seq![first, second]),
{
    let path = seq![first, second];
    let rest = seq![second];
    let direct = single(second, target);
    let deep = nested(wrappers, direct);
    assert(path.skip(1) =~= rest);
    lemma_wrappers_are_transparent(wrappers, direct, rest);
    let inner_entries = seq![(second, target)];
    assert(reached_in_entries(inner_entries, 0, rest) =~= Seq::<Json>::empty());
    assert(reached_in_entries(inner_entries, 1, rest) =~= reached_under(inner_entries[0], rest));
    assert(reached(direct, rest) =~= spliced(target));
    let shallow_entries = seq![(first, direct)];
    assert(reached_in_entries(shallow_entries, 0, path) =~= Seq::<Json>::empty());
    assert(reached_in_entries(shallow_entries, 1, path) =~= reached_under(
        shallow_entries[0],
        path,
    ));
    let deep_entries = seq![(first, deep)];
    assert(reached_in_entries(deep_entries, 0, path) =~= Seq::<Json>::empty());
    assert(reached_in_entries(deep_entries, 1, path) =~= reached_under(deep_entries[0], path));
}

/// Two answers to one query on structurally equal documents and paths are
/// structurally equal.
pub proof fn lemma_requery_agrees(
    document: Value,
    again: Value,
    path: Seq<Seq<char>>,
    answer: Value,
    repeated: Value,
)
    requires
        document@ == again@,
        answer@ == resolved(document@, path),
        repeated@ == resolved(again@, path),
    ensures
        answer@ == repeated@,
{
}

/// The document without what lies beneath its tagged objects: an object that
/// maps `name` to a string is cut down to that one entry, and every other
/// container holds what it held, cut down in the same way.
pub open spec fn pruned(value: Json, name: Seq<char>) -> Json
    decreases value, 0nat,
{
    match value {
        Json::Object(entries) => match lookup(entries, name) {
            Some(Json::String(tag)) => single(name, Json::String(tag)),
            _ => Json::Object(pruned_entries(entries, entries.len(), name)),
        },
        Json::Array(items) => Json::Array(pruned_items(items, items.len(), name)),
        _ => value,
    }
}

/// One entry of an object, its value cut down.
pub open spec fn pruned_entry(entry: (Seq<char>, Json), name: Seq<char>) -> (Seq<char>, Json)
    decreases entry, 0nat,
{
    (entry.0, pruned(entry.1, name))
}

/// The first `count` entries of an object, their values cut down.
pub open spec fn pruned_entries(
    entries: Seq<(Seq<char>, Json)>,
    count: nat,
    name: Seq<char>,
) -> Seq<(Seq<char>, Json)>
    decreases entries, count,
{
    if count == 0 || count > entries.len() {
        Seq::empty()
    } else {
        pruned_entries(entries, (count - 1) as nat, name).push(
            pruned_entry(entries[count - 1], name),
        )
    }
}

/// The first `count` items of an array, cut down.
pub open spec fn pruned_items(items: Seq<Json>, count: nat, name: Seq<char>) -> Seq<Json>
    decreases items, count,
{
    if count == 0 || count > items.len() {
        Seq::empty()
    } else {
        pruned_items(items, (count - 1) as nat, name).push(pruned(items[count - 1], name))
    }
}

proof fn lemma_pruned_entries(entries: Seq<(Seq<char>, Json)>, count: nat, name: Seq<char>)
    requires
        count <= entries.len(),
    ensures
        pruned_entries(entries, count, name).len() == count,
        forall|i: int|
            0 <= i < count ==> #[trigger] pruned_entries(entries, count, name)[i] == pruned_entry(
                entries[i],
                name,
            ),
    decreases count,
{
    if count > 0 {
        lemma_pruned_entries(entries, (count - 1) as nat, name);
    }
}

proof fn lemma_pruned_items(items: Seq<Json>, count: nat, name: Seq<char>)
    requires
        count <= items.len(),
    ensures
        pruned_items(items, count, name).len() == count,
        forall|i: int|
            0 <= i < count ==> #[trigger] pruned_items(items, count, name)[i] == pruned(
                items[i],
                name,
            ),
    decreases count,
{
    if count > 0 {
        lemma_pruned_items(items, (count - 1) as nat, name);
    }
}

proof fn lemma_pruned_value(value: Json, name: Seq<char>)
    ensures
        tags(pruned(value, name), name) == tags(value, name),
        pruned(value, name) is String <==> value is String,
    decreases value, 0nat,
{
    match value {
        Json::Object(entries) => {
            lemma_position(entries, name);
            match lookup(entries, name) {
                Some(Json::String(tag)) => {
                    let kept = seq![(name, Json::String(tag))];
                    assert(position(kept, name) == 0);
                },
                _ => {
                    let cut = pruned_entries(entries, entries.len(), name);
                    lemma_pruned_entries(entries, entries.len(), name);
                    let at = position(entries, name);
                    assert forall|i: int| 0 <= i < at implies cut[i].0 != name by {
                        assert(cut[i] == pruned_entry(entries[i], name));
                    }
                    if at < entries.len() {
                        assert(cut[at] == pruned_entry(entries[at], name));
                        assert(decreases_to!(entries => entries[at].1)) by {
                            assert(decreases_to!(entries => entries[at]));
                        }
                        lemma_pruned_value(entries[at].1, name);
                    }
                    lemma_position_is(cut, name, at);
                    lemma_pruned_in_entries(entries, entries.len(), name);
                },
            }
        },
        Json::Array(items) => {
            lemma_pruned_items(items, items.len(), name);
            lemma_pruned_in_items(items, items.len(), name);
        },
        _ => {},
    }
}

proof fn lemma_pruned_in_entries(entries: Seq<(Seq<char>, Json)>, count: nat, name: Seq<char>)
    requires
        count <= entries.len(),
    ensures
        tags_in_entries(pruned_entries(entries, entries.len(), name), count, name)
            == tags_in_entries(entries, count, name),
    decreases entries, count,
{
    lemma_pruned_entries(entries, entries.len(), name);
    if count > 0 {
        let cut = pruned_entries(entries, entries.len(), name);
        let entry = entries[count - 1];
        lemma_pruned_in_entries(entries, (count - 1) as nat, name);
        assert(cut[count - 1] == pruned_entry(entry, name));
        assert(decreases_to!(entries => entry.1)) by {
            assert(decreases_to!(entries => entry));
        }
        lemma_pruned_value(entry.1, name);
        assert(tags_under(cut[count - 1], name) == tags_under(entry, name));
    }
}

proof fn lemma_pruned_in_items(items: Seq<Json>, count: nat, name: Seq<char>)
    requires
        count <= items.len(),
    ensures
        tags_in_items(pruned_items(items, items.len(), name), count, name) == tags_in_items(
            items,
            count,
            name,
        ),
    decreases items, count,
{
    lemma_pruned_items(items, items.len(), name);
    if count > 0 {
        let cut = pruned_items(items, items.len(), name);
        lemma_pruned_in_items(items, (count - 1) as nat, name);
        assert(cut[count - 1] == pruned(items[count - 1], name));
        lemma_pruned_value(items[count - 1], name);
    }
}

/// What lies beneath the tagged objects of a document has no part in the
/// result: the document gives the tags that it gives with every tagged
/// object cut down to its tag.
pub proof fn lemma_beneath_tagged_is_immaterial(document: Json, name: Seq<char>)
    ensures
        tags(pruned(document, name), name) == tags(document, name),
{
    lemma_pruned_value(document, name);
}

/// An object that maps the tag field to a string contributes that string
/// alone: nothing that lies beneath it, under any of its entries, is
/// collected.
pub proof fn lemma_tagged_object_answers_alone(
    entries: Seq<(Seq<char>, Json)>,
    name: Seq<char>,
    tag: Seq<char>,
)
    requires
        lookup(entries, name) == Some(Json::String(tag)),
    ensures
        tags(Json::Object(entries), name) == seq![tag],
{
}

} // verus!
