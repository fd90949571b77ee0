use yang_nix::json::{Field, JsonValue};
use yang_nix::navigate::{rewrite_list, Step};
use yang_nix::reshape::{reshape_node, to_list_form, to_map_form, Direction, KeyField, ReshapeError};

fn s(x: &str) -> JsonValue {
    JsonValue::Str(x.to_string())
}

fn n(x: &str) -> JsonValue {
    JsonValue::Number(x.to_string())
}

fn obj(fields: Vec<(&str, JsonValue)>) -> JsonValue {
    JsonValue::Object(
        fields
            .into_iter()
            .map(|(name, value)| Field { name: name.to_string(), value })
            .collect(),
    )
}

fn key(name: &str, numeric: bool) -> KeyField {
    KeyField { name: name.to_string(), numeric }
}

fn items_list() -> JsonValue {
    obj(vec![(
        "items",
        JsonValue::Array(vec![
            obj(vec![("id", s("a")), ("v", n("1"))]),
            obj(vec![("id", s("b")), ("v", n("2"))]),
        ]),
    )])
}

fn items_map() -> JsonValue {
    obj(vec![(
        "items",
        obj(vec![("a", obj(vec![("v", n("1"))])), ("b", obj(vec![("v", n("2"))]))]),
    )])
}

#[test]
fn list_to_map_single_string_key() {
    let steps = vec![Step::Member("items".to_string())];
    let keys = vec![key("id", false)];
    let r = rewrite_list(items_list(), &steps, Direction::ListToMap, &keys);
    assert_eq!(r, Ok(items_map()));
}

#[test]
fn map_to_list_single_string_key() {
    let steps = vec![Step::Member("items".to_string())];
    let keys = vec![key("id", false)];
    let r = rewrite_list(items_map(), &steps, Direction::MapToList, &keys).unwrap();
    let expected = obj(vec![(
        "items",
        JsonValue::Array(vec![
            obj(vec![("v", n("1")), ("id", s("a"))]),
            obj(vec![("v", n("2")), ("id", s("b"))]),
        ]),
    )]);
    assert_eq!(r, expected);
}

#[test]
fn composite_key_to_map() {
    let keys = vec![key("region", false), key("zone", true)];
    let list = JsonValue::Array(vec![obj(vec![
        ("region", s("us")),
        ("zone", n("1")),
        ("x", JsonValue::Bool(true)),
    ])]);
    let r = to_map_form(list, &keys);
    let expected = obj(vec![("us", obj(vec![("1", obj(vec![("x", JsonValue::Bool(true))]))]))]);
    assert_eq!(r, Ok(expected));
}

#[test]
fn composite_key_back_to_list_reads_number() {
    let keys = vec![key("region", false), key("zone", true)];
    let map = obj(vec![("us", obj(vec![("1", obj(vec![("x", JsonValue::Bool(true))]))]))]);
    let r = to_list_form(map, &keys);
    let expected = JsonValue::Array(vec![obj(vec![
        ("x", JsonValue::Bool(true)),
        ("region", s("us")),
        ("zone", n("1")),
    ])]);
    assert_eq!(r, Ok(expected));
}

#[test]
fn numeric_key_text_is_canonicalised() {
    let keys = vec![key("zone", true)];
    let map = obj(vec![(" 7 ", obj(vec![]))]);
    let r = to_list_form(map, &keys);
    assert_eq!(r, Ok(JsonValue::Array(vec![obj(vec![("zone", n("7"))])])));
}

#[test]
fn numeric_key_that_is_no_number_fails() {
    let keys = vec![key("zone", true)];
    let map = obj(vec![("x", obj(vec![]))]);
    assert_eq!(to_list_form(map, &keys), Err(ReshapeError::BadKeyNumber));
}

#[test]
fn map_style_input_to_list_to_map_fails() {
    let steps = vec![Step::Member("items".to_string())];
    let keys = vec![key("id", false)];
    let r = rewrite_list(items_map(), &steps, Direction::ListToMap, &keys);
    assert_eq!(r, Err(ReshapeError::ExpectedArray));
}

#[test]
fn round_trip_restores_records() {
    let steps = vec![Step::Member("items".to_string())];
    let keys = vec![key("id", false)];
    let m = rewrite_list(items_list(), &steps, Direction::ListToMap, &keys).unwrap();
    let back = rewrite_list(m, &steps, Direction::MapToList, &keys).unwrap();
    let records = match back {
        JsonValue::Object(mut f) => match f.remove(0).value {
            JsonValue::Array(a) => a,
            _ => panic!("not an array"),
        },
        _ => panic!("not an object"),
    };
    assert_eq!(records.len(), 2);
    assert!(records.contains(&obj(vec![("v", n("1")), ("id", s("a"))])));
    assert!(records.contains(&obj(vec![("v", n("2")), ("id", s("b"))])));
}

#[test]
fn wrong_depth_is_refused() {
    let keys = vec![key("region", false), key("zone", true)];
    let shallow = obj(vec![("us", n("1"))]);
    assert_eq!(to_list_form(shallow, &keys), Err(ReshapeError::ExpectedObject));
}

#[test]
fn empty_list_becomes_empty_map() {
    let keys = vec![key("id", false)];
    assert_eq!(to_map_form(JsonValue::Array(vec![]), &keys), Ok(obj(vec![])));
    assert_eq!(to_list_form(obj(vec![]), &keys), Ok(JsonValue::Array(vec![])));
}

#[test]
fn equal_keys_keep_the_later_record() {
    let keys = vec![key("id", false)];
    let list = JsonValue::Array(vec![
        obj(vec![("id", s("a")), ("v", n("1"))]),
        obj(vec![("id", s("a")), ("v", n("2"))]),
    ]);
    assert_eq!(to_map_form(list, &keys), Ok(obj(vec![("a", obj(vec![("v", n("2"))]))])));
}

#[test]
fn record_without_key_fails() {
    let keys = vec![key("id", false)];
    let list = JsonValue::Array(vec![obj(vec![("v", n("1"))])]);
    assert_eq!(to_map_form(list, &keys), Err(ReshapeError::MissingKey));
}

#[test]
fn key_of_wrong_kind_fails() {
    let keys = vec![key("id", false)];
    let list = JsonValue::Array(vec![obj(vec![("id", JsonValue::Bool(true))])]);
    assert_eq!(to_map_form(list, &keys), Err(ReshapeError::BadKeyValue));
}

#[test]
fn record_that_is_no_object_fails() {
    let keys = vec![key("id", false)];
    let list = JsonValue::Array(vec![n("3")]);
    assert_eq!(to_map_form(list, &keys), Err(ReshapeError::ExpectedObject));
}

#[test]
fn numeric_key_becomes_its_text() {
    let keys = vec![key("zone", true)];
    let list = JsonValue::Array(vec![obj(vec![("zone", n("12")), ("x", JsonValue::Null)])]);
    assert_eq!(
        reshape_node(list, Direction::ListToMap, &keys),
        Ok(obj(vec![("12", obj(vec![("x", JsonValue::Null)]))]))
    );
}

#[test]
fn absent_path_leaves_tree_alone() {
    let steps = vec![Step::Member("other".to_string())];
    let keys = vec![key("id", false)];
    assert_eq!(rewrite_list(items_list(), &steps, Direction::ListToMap, &keys), Ok(items_list()));
    assert_eq!(rewrite_list(items_map(), &steps, Direction::MapToList, &keys), Ok(items_map()));
}

#[test]
fn descent_through_scalar_fails() {
    let steps = vec![Step::Member("items".to_string()), Step::Descend, Step::Member("sub".to_string())];
    let keys = vec![key("id", false)];
    let tree = obj(vec![("items", n("5"))]);
    assert_eq!(
        rewrite_list(tree, &steps, Direction::ListToMap, &keys),
        Err(ReshapeError::ExpectedContainer)
    );
}
