use ibb::{resolve, Object, Value};

fn text(content: &str) -> Value {
    Value::String(content.to_string())
}

fn number(literal: &str) -> Value {
    Value::Number(literal.to_string())
}

fn object(entries: Vec<(&str, Value)>) -> Value {
    let mut built = Object::new();
    for (key, value) in entries {
        built.insert(key.to_string(), value);
    }
    Value::Object(built)
}

fn path(names: &[&str]) -> Vec<String> {
    names.iter().map(|name| name.to_string()).collect()
}

fn sample() -> Value {
    object(vec![
        ("id", text("moonbeam")),
        (
            "bounty",
            object(vec![
                ("maximum", number("1000000")),
                (
                    "impacts",
                    Value::Array(vec![
                        object(vec![("title", text("T1")), ("severity", text("critical"))]),
                        object(vec![("title", text("T2")), ("severity", text("high"))]),
                    ]),
                ),
            ]),
        ),
        (
            "assets",
            Value::Array(vec![
                object(vec![("url", text("u1")), ("kind", text("contract"))]),
                object(vec![("nested", object(vec![("url", text("u2"))]))]),
            ]),
        ),
    ])
}

#[test]
fn empty_path_resolves_to_null() {
    assert_eq!(resolve(&sample(), &[]), Value::Null);
    assert_eq!(resolve(&Value::Null, &[]), Value::Null);
    assert_eq!(resolve(&Value::Array(vec![text("a")]), &[]), Value::Null);
}

#[test]
fn absent_name_resolves_to_null() {
    assert_eq!(resolve(&sample(), &path(&["missing"])), Value::Null);
    assert_eq!(resolve(&sample(), &path(&["missing", "title"])), Value::Null);
}

#[test]
fn absent_later_name_resolves_to_null() {
    assert_eq!(resolve(&sample(), &path(&["bounty", "missing"])), Value::Null);
    assert_eq!(resolve(&sample(), &path(&["assets", "url", "deeper"])), Value::Null);
}

#[test]
fn sole_scalar_match_is_wrapped_in_an_array() {
    assert_eq!(
        resolve(&sample(), &path(&["maximum"])),
        Value::Array(vec![number("1000000")])
    );
    assert_eq!(resolve(&sample(), &path(&["id"])), Value::Array(vec![text("moonbeam")]));
}

#[test]
fn sole_object_match_is_wrapped_in_an_array() {
    let document = object(vec![("outer", object(vec![("inner", Value::Bool(true))]))]);
    assert_eq!(
        resolve(&document, &path(&["outer"])),
        Value::Array(vec![object(vec![("inner", Value::Bool(true))])])
    );
}

#[test]
fn sole_array_match_is_flattened() {
    let document = object(vec![(
        "holder",
        object(vec![("list", Value::Array(vec![text("a"), text("b")]))]),
    )]);
    assert_eq!(
        resolve(&document, &path(&["list"])),
        Value::Array(vec![text("a"), text("b")])
    );
}

#[test]
fn items_of_a_matched_array_are_not_flattened_further() {
    let document = object(vec![(
        "list",
        Value::Array(vec![Value::Array(vec![text("a")]), text("b")]),
    )]);
    assert_eq!(
        resolve(&document, &path(&["list"])),
        Value::Array(vec![Value::Array(vec![text("a")]), text("b")])
    );
}

#[test]
fn matched_empty_array_resolves_to_null() {
    let document = object(vec![("list", Value::Array(vec![]))]);
    assert_eq!(resolve(&document, &path(&["list"])), Value::Null);
}

#[test]
fn matched_empty_array_adds_nothing_to_other_matches() {
    let document = Value::Array(vec![
        object(vec![("list", Value::Array(vec![]))]),
        object(vec![("list", text("a"))]),
    ]);
    assert_eq!(resolve(&document, &path(&["list"])), Value::Array(vec![text("a")]));
}

#[test]
fn array_matches_of_several_branches_merge_flat() {
    let document = object(vec![
        ("left", object(vec![("list", Value::Array(vec![text("a"), text("b")]))])),
        ("right", object(vec![("list", Value::Array(vec![text("c")]))])),
    ]);
    assert_eq!(
        resolve(&document, &path(&["list"])),
        Value::Array(vec![text("a"), text("b"), text("c")])
    );
}

#[test]
fn array_match_keeps_the_matches_found_before_it() {
    let document = object(vec![
        ("first", object(vec![("k", text("a"))])),
        ("k", Value::Array(vec![text("b"), text("c")])),
        ("last", object(vec![("k", text("d"))])),
    ]);
    assert_eq!(
        resolve(&document, &path(&["k"])),
        Value::Array(vec![text("a"), text("b"), text("c"), text("d")])
    );
}

#[test]
fn second_name_is_found_directly_and_deeper() {
    let direct = object(vec![("k1", object(vec![("k2", text("v"))]))]);
    let deeper = object(vec![(
        "k1",
        object(vec![("other", object(vec![("more", object(vec![("k2", text("v"))]))]))]),
    )]);
    let expected = Value::Array(vec![text("v")]);
    assert_eq!(resolve(&direct, &path(&["k1", "k2"])), expected);
    assert_eq!(resolve(&deeper, &path(&["k1", "k2"])), expected);
}

#[test]
fn second_name_outside_the_first_is_not_found() {
    let document = object(vec![
        ("k1", object(vec![("other", text("w"))])),
        ("k2", text("v")),
    ]);
    assert_eq!(resolve(&document, &path(&["k1", "k2"])), Value::Null);
}

#[test]
fn first_name_is_found_beneath_unrelated_entries() {
    let document = object(vec![(
        "wrapper",
        Value::Array(vec![object(vec![("k1", object(vec![("k2", text("v"))]))])]),
    )]);
    assert_eq!(resolve(&document, &path(&["k1", "k2"])), Value::Array(vec![text("v")]));
}

#[test]
fn requery_yields_equal_results() {
    let document = sample();
    let names = path(&["assets", "url"]);
    let first = resolve(&document, &names);
    let second = resolve(&document, &names);
    assert_eq!(first, second);
    assert_eq!(document, sample());
}

#[test]
fn impact_titles_are_collected() {
    let document = object(vec![(
        "bounty",
        object(vec![(
            "impacts",
            Value::Array(vec![
                object(vec![("title", text("T1"))]),
                object(vec![("title", text("T2"))]),
            ]),
        )]),
    )]);
    assert_eq!(
        resolve(&document, &path(&["bounty", "impacts", "title"])),
        Value::Array(vec![text("T1"), text("T2")])
    );
}

#[test]
fn urls_are_found_at_two_depths() {
    let document = object(vec![(
        "assets",
        Value::Array(vec![
            object(vec![("url", text("u1"))]),
            object(vec![("nested", object(vec![("url", text("u2"))]))]),
        ]),
    )]);
    assert_eq!(
        resolve(&document, &path(&["assets", "url"])),
        Value::Array(vec![text("u1"), text("u2")])
    );
}

#[test]
fn empty_object_resolves_to_null() {
    let document = object(vec![]);
    assert_eq!(resolve(&document, &path(&["a"])), Value::Null);
    assert_eq!(resolve(&document, &path(&["a", "b", "c"])), Value::Null);
}

#[test]
fn scalars_never_match() {
    assert_eq!(resolve(&Value::Null, &path(&["a"])), Value::Null);
    assert_eq!(resolve(&Value::Bool(true), &path(&["a"])), Value::Null);
    assert_eq!(resolve(&number("7"), &path(&["7"])), Value::Null);
    assert_eq!(resolve(&text("a"), &path(&["a"])), Value::Null);
}

#[test]
fn array_document_is_searched_item_by_item() {
    let document = Value::Array(vec![
        object(vec![("k", number("1"))]),
        text("k"),
        object(vec![("k", number("2"))]),
    ]);
    assert_eq!(
        resolve(&document, &path(&["k"])),
        Value::Array(vec![number("1"), number("2")])
    );
}

#[test]
fn matched_value_is_not_searched_for_the_last_name_again() {
    let document = object(vec![("a", object(vec![("a", number("1"))]))]);
    assert_eq!(
        resolve(&document, &path(&["a"])),
        Value::Array(vec![object(vec![("a", number("1"))])])
    );
}

#[test]
fn repeated_name_is_matched_beneath_itself() {
    let document = object(vec![("a", object(vec![("a", number("1"))]))]);
    assert_eq!(resolve(&document, &path(&["a", "a"])), Value::Array(vec![number("1")]));
}

#[test]
fn equal_matches_are_all_kept() {
    let document = Value::Array(vec![
        object(vec![("k", text("same"))]),
        object(vec![("k", text("same"))]),
    ]);
    assert_eq!(
        resolve(&document, &path(&["k"])),
        Value::Array(vec![text("same"), text("same")])
    );
}

#[test]
fn null_under_the_last_name_is_a_match() {
    let document = object(vec![("k", Value::Null)]);
    assert_eq!(resolve(&document, &path(&["k"])), Value::Array(vec![Value::Null]));
}

#[test]
fn matches_come_in_the_order_of_the_entries() {
    let document = object(vec![
        ("z", object(vec![("k", number("1"))])),
        ("a", object(vec![("k", number("2"))])),
        ("m", Value::Array(vec![object(vec![("k", number("3"))])])),
    ]);
    assert_eq!(
        resolve(&document, &path(&["k"])),
        Value::Array(vec![number("1"), number("2"), number("3")])
    );
}

#[test]
fn deep_chain_is_traversed() {
    let mut document = object(vec![("k", text("bottom"))]);
    for _ in 0..2000 {
        document = object(vec![("down", Value::Array(vec![document]))]);
    }
    assert_eq!(resolve(&document, &path(&["k"])), Value::Array(vec![text("bottom")]));
    assert_eq!(resolve(&document, &path(&["down", "k"])), Value::Array(vec![text("bottom")]));
}
