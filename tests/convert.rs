use yang_nix::convert::{convert, run_plan, ConvertFailure};
use yang_nix::json::{Field, JsonValue};
use yang_nix::plan::plan_lists;
use yang_nix::navigate::Step;
use yang_nix::reshape::{Direction, ReshapeError};
use yang_nix::schema::{BaseType, NodeKind, SchemaNode};

fn s(x: &str) -> JsonValue {
    JsonValue::Str(x.to_string())
}

fn n(x: &str) -> JsonValue {
    JsonValue::Number(x.to_string())
}

fn obj(fields: Vec<(&str, JsonValue)>) -> JsonValue {
    JsonValue::Object(
        fields
            .into_iter()
            .map(|(name, value)| Field { name: name.to_string(), value })
            .collect(),
    )
}

fn node(kind: NodeKind, name: &str, children: Vec<SchemaNode>) -> SchemaNode {
    SchemaNode {
        kind,
        name: name.to_string(),
        description: None,
        children,
        is_key: false,
        mandatory: false,
        base_type: None,
    }
}

fn leaf(name: &str, t: BaseType, is_key: bool) -> SchemaNode {
    SchemaNode {
        kind: NodeKind::Leaf,
        name: name.to_string(),
        description: None,
        children: vec![],
        is_key,
        mandatory: false,
        base_type: Some(t),
    }
}

/// A container `top` holding list `a` (key `id`), whose records hold list
/// `b` (keys `region`, `zone`), and a keyless list `c`.
fn schema() -> Vec<SchemaNode> {
    let b = node(
        NodeKind::List,
        "b",
        vec![
            leaf("region", BaseType::Str, true),
            leaf("zone", BaseType::Uint32, true),
            leaf("x", BaseType::Str, false),
        ],
    );
    let a = node(NodeKind::List, "a", vec![leaf("id", BaseType::Str, true), b]);
    let c = node(NodeKind::List, "c", vec![leaf("y", BaseType::Str, false)]);
    vec![node(NodeKind::Container, "top", vec![a, c])]
}

fn list_style() -> JsonValue {
    obj(vec![(
        "m:top",
        obj(vec![
            (
                "a",
                JsonValue::Array(vec![obj(vec![
                    ("id", s("k")),
                    (
                        "b",
                        JsonValue::Array(vec![obj(vec![
                            ("region", s("us")),
                            ("zone", n("1")),
                            ("x", s("v")),
                        ])]),
                    ),
                ])]),
            ),
            ("c", JsonValue::Array(vec![obj(vec![("y", s("z"))])])),
        ]),
    )])
}

fn map_style() -> JsonValue {
    obj(vec![(
        "m:top",
        obj(vec![
            (
                "a",
                obj(vec![(
                    "k",
                    obj(vec![("b", obj(vec![("us", obj(vec![("1", obj(vec![("x", s("v"))]))]))]))]),
                )]),
            ),
            ("c", JsonValue::Array(vec![obj(vec![("y", s("z"))])])),
        ]),
    )])
}

#[test]
fn plan_finds_keyed_lists_with_their_paths() {
    let plan = plan_lists(&schema(), &"m".to_string());
    assert_eq!(plan.len(), 2);
    assert_eq!(plan[0].list, "a");
    assert_eq!(plan[0].steps.len(), 2);
    assert!(matches!(&plan[0].steps[0], Step::Member(k) if k == "m:top"));
    assert!(matches!(&plan[0].steps[1], Step::Member(k) if k == "a"));
    assert_eq!(plan[1].list, "b");
    assert_eq!(plan[1].steps.len(), 4);
    assert!(matches!(&plan[1].steps[2], Step::Descend));
    assert!(matches!(&plan[1].steps[3], Step::Member(k) if k == "b"));
    assert_eq!(plan[1].keys.len(), 2);
    assert!(plan[1].keys[1].numeric);
    assert!(!plan[1].keys[0].numeric);
}

#[test]
fn keyless_list_is_not_planned() {
    let plan = plan_lists(&schema(), &"m".to_string());
    assert!(plan.iter().all(|t| t.list != "c"));
}

#[test]
fn nested_lists_to_map() {
    let r = convert(&schema(), &"m".to_string(), Direction::ListToMap, list_style());
    assert_eq!(r, Ok(map_style()));
}

#[test]
fn nested_lists_back_to_list() {
    let r = convert(&schema(), &"m".to_string(), Direction::MapToList, map_style()).unwrap();
    let expected = obj(vec![(
        "m:top",
        obj(vec![
            (
                "a",
                JsonValue::Array(vec![obj(vec![
                    (
                        "b",
                        JsonValue::Array(vec![obj(vec![
                            ("x", s("v")),
                            ("region", s("us")),
                            ("zone", n("1")),
                        ])]),
                    ),
                    ("id", s("k")),
                ])]),
            ),
            ("c", JsonValue::Array(vec![obj(vec![("y", s("z"))])])),
        ]),
    )]);
    assert_eq!(r, expected);
}

#[test]
fn visiting_order_does_not_matter() {
    for dir in [Direction::ListToMap, Direction::MapToList] {
        let input = if dir == Direction::ListToMap { list_style() } else { map_style() };
        let mut plan = plan_lists(&schema(), &"m".to_string());
        let forward = run_plan(input, &plan, dir);
        plan.reverse();
        let input = if dir == Direction::ListToMap { list_style() } else { map_style() };
        let backward = run_plan(input, &plan, dir);
        assert_eq!(forward, backward);
    }
}

#[test]
fn absent_subtree_is_left_alone() {
    let tree = obj(vec![("m:other", obj(vec![("a", n("1"))]))]);
    let r = convert(&schema(), &"m".to_string(), Direction::ListToMap, tree);
    assert_eq!(r, Ok(obj(vec![("m:other", obj(vec![("a", n("1"))]))])));
}

#[test]
fn map_style_document_to_list_to_map_fails() {
    let r = convert(&schema(), &"m".to_string(), Direction::ListToMap, map_style());
    assert_eq!(
        r,
        Err(ConvertFailure { list: "a".to_string(), error: ReshapeError::ExpectedArray })
    );
}
