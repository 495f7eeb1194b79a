use ibb::{collect_tagged, Object, Value};

fn text(content: &str) -> Value {
    Value::String(content.to_string())
}

fn object(entries: Vec<(&str, Value)>) -> Value {
    let mut built = Object::new();
    for (key, value) in entries {
        built.insert(key.to_string(), value);
    }
    Value::Object(built)
}

fn strings(items: &[&str]) -> Vec<String> {
    items.iter().map(|item| item.to_string()).collect()
}

#[test]
fn slugs_are_collected_at_any_depth() {
    let document = object(vec![
        ("a", object(vec![("slug", text("x"))])),
        ("b", object(vec![("c", object(vec![("slug", text("y"))]))])),
    ]);
    assert_eq!(collect_tagged(&document, "slug"), strings(&["x", "y"]));
}

#[test]
fn tagged_object_hides_what_lies_beneath_it() {
    let document = object(vec![
        ("slug", text("x")),
        ("child", object(vec![("slug", text("y"))])),
        ("list", Value::Array(vec![object(vec![("slug", text("z"))])])),
    ]);
    assert_eq!(collect_tagged(&document, "slug"), strings(&["x"]));
}

#[test]
fn tag_after_other_entries_still_hides_them() {
    let document = object(vec![
        ("child", object(vec![("slug", text("y"))])),
        ("slug", text("x")),
    ]);
    assert_eq!(collect_tagged(&document, "slug"), strings(&["x"]));
}

#[test]
fn tag_that_is_no_string_is_skipped_and_the_object_searched() {
    let document = object(vec![
        ("slug", Value::Number("5".to_string())),
        ("child", object(vec![("slug", text("y"))])),
    ]);
    assert_eq!(collect_tagged(&document, "slug"), strings(&["y"]));
    let flagged = object(vec![("slug", Value::Bool(true))]);
    assert_eq!(collect_tagged(&flagged, "slug"), strings(&[]));
    let empty = object(vec![("slug", Value::Null)]);
    assert_eq!(collect_tagged(&empty, "slug"), strings(&[]));
}

#[test]
fn value_under_a_tag_that_is_no_string_is_searched_too() {
    let document = object(vec![("slug", object(vec![("slug", text("z"))]))]);
    assert_eq!(collect_tagged(&document, "slug"), strings(&["z"]));
    let listed = object(vec![(
        "slug",
        Value::Array(vec![object(vec![("slug", text("p"))]), text("q")]),
    )]);
    assert_eq!(collect_tagged(&listed, "slug"), strings(&["p"]));
}

#[test]
fn array_items_are_collected_in_order_with_repetitions() {
    let document = Value::Array(vec![
        object(vec![("slug", text("b"))]),
        object(vec![("slug", text("a"))]),
        text("slug"),
        object(vec![("slug", text("b"))]),
    ]);
    assert_eq!(collect_tagged(&document, "slug"), strings(&["b", "a", "b"]));
}

#[test]
fn entries_are_collected_in_stored_order() {
    let document = object(vec![
        ("z", object(vec![("slug", text("1"))])),
        ("a", Value::Array(vec![object(vec![("slug", text("2"))])])),
        ("m", object(vec![("deep", object(vec![("slug", text("3"))]))])),
    ]);
    assert_eq!(collect_tagged(&document, "slug"), strings(&["1", "2", "3"]));
}

#[test]
fn scalars_and_empty_containers_hold_no_tags() {
    assert_eq!(collect_tagged(&Value::Null, "slug"), strings(&[]));
    assert_eq!(collect_tagged(&Value::Bool(false), "slug"), strings(&[]));
    assert_eq!(collect_tagged(&text("slug"), "slug"), strings(&[]));
    assert_eq!(collect_tagged(&Value::Array(vec![]), "slug"), strings(&[]));
    assert_eq!(collect_tagged(&object(vec![]), "slug"), strings(&[]));
}

#[test]
fn any_field_can_serve_as_the_tag() {
    let document = object(vec![
        ("slug", text("x")),
        ("child", object(vec![("id", text("y"))])),
    ]);
    assert_eq!(collect_tagged(&document, "id"), strings(&["y"]));
    assert_eq!(collect_tagged(&document, ""), strings(&[]));
}

#[test]
fn empty_string_tag_is_collected() {
    let document = object(vec![("slug", text(""))]);
    assert_eq!(collect_tagged(&document, "slug"), strings(&[""]));
}

#[test]
fn collecting_twice_yields_equal_results() {
    let document = object(vec![
        ("a", object(vec![("slug", text("x"))])),
        ("b", object(vec![("c", object(vec![("slug", text("y"))]))])),
    ]);
    let first = collect_tagged(&document, "slug");
    let second = collect_tagged(&document, "slug");
    assert_eq!(first, second);
}

#[test]
fn deep_chain_of_arrays_is_traversed() {
    let mut document = object(vec![("slug", text("bottom"))]);
    for _ in 0..2000 {
        document = Value::Array(vec![document]);
    }
    assert_eq!(collect_tagged(&document, "slug"), strings(&["bottom"]));
}
