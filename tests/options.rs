use yang_nix::options::{decimal_text, leaf_option_type, render_options, OptionsError};
use yang_nix::schema::{BaseType, NodeKind, SchemaNode};

fn node(kind: NodeKind, name: &str, children: Vec<SchemaNode>) -> SchemaNode {
    SchemaNode {
        kind,
        name: name.to_string(),
        description: None,
        children,
        is_key: false,
        mandatory: false,
        base_type: None,
    }
}

fn leaf(name: &str, t: BaseType, is_key: bool, mandatory: bool) -> SchemaNode {
    SchemaNode {
        kind: NodeKind::Leaf,
        name: name.to_string(),
        description: None,
        children: vec![],
        is_key,
        mandatory,
        base_type: Some(t),
    }
}

#[test]
fn decimal_text_of_numbers() {
    assert_eq!(decimal_text(0), "0");
    assert_eq!(decimal_text(7), "7");
    assert_eq!(decimal_text(1204), "1204");
}

#[test]
fn type_table() {
    assert_eq!(leaf_option_type(Some(BaseType::Str)), Some("lib.types.str"));
    assert_eq!(leaf_option_type(Some(BaseType::Uint64)), Some("lib.types.ints.unsigned"));
    assert_eq!(leaf_option_type(Some(BaseType::Dec64)), Some("lib.types.number"));
    assert_eq!(leaf_option_type(Some(BaseType::Other)), None);
    assert_eq!(leaf_option_type(None), None);
}

#[test]
fn renders_container_list_and_leaves() {
    let mut top = node(
        NodeKind::Container,
        "top",
        vec![
            node(
                NodeKind::List,
                "a",
                vec![
                    leaf("id", BaseType::Str, true, true),
                    leaf("size", BaseType::Uint8, false, true),
                ],
            ),
            leaf("name", BaseType::Str, false, false),
            SchemaNode {
                kind: NodeKind::LeafList,
                name: "tags".to_string(),
                description: None,
                children: vec![],
                is_key: false,
                mandatory: false,
                base_type: Some(BaseType::Enumeration),
            },
        ],
    );
    top.description = Some("Top level".to_string());
    let lines = render_options(&vec![top]).unwrap();
    let expected = vec![
        "{ lib, ... }: {",
        "",
        "  # Top level",
        "  top = {",
        "",
        "    a = lib.mkOption {",
        "      description = ''",
        "        Key 1: id",
        "      '';",
        "      type = lib.types.attrsOf (lib.types.submodule {",
        "",
        "        options = {",
        "",
        "          size = lib.mkOption {",
        "            type = lib.types.ints.u8;",
        "          };",
        "",
        "        };",
        "",
        "      });",
        "",
        "      default = {};",
        "    };",
        "",
        "    name = lib.mkOption {",
        "      type = lib.types.nullOr lib.types.str;",
        "      default = null;",
        "    };",
        "",
        "    tags = lib.mkOption {",
        "      type = lib.types.listOf lib.types.str;",
        "      default = [];",
        "    };",
        "  };",
        "}",
    ];
    assert_eq!(lines, expected);
}

#[test]
fn unsupported_leaf_type_fails() {
    let roots = vec![node(
        NodeKind::Container,
        "top",
        vec![leaf("flag", BaseType::Other, false, false)],
    )];
    assert_eq!(render_options(&roots), Err(OptionsError::UnsupportedType));
}

#[test]
fn choice_renders_as_plain_group() {
    let roots = vec![node(
        NodeKind::Choice,
        "pick",
        vec![node(NodeKind::Case, "one", vec![leaf("n", BaseType::Int8, false, true)])],
    )];
    let lines = render_options(&roots).unwrap();
    let expected = vec![
        "{ lib, ... }: {",
        "",
        "  pick = {",
        "",
        "    one = {",
        "",
        "      n = lib.mkOption {",
        "        type = lib.types.ints.s8;",
        "      };",
        "    };",
        "  };",
        "}",
    ];
    assert_eq!(lines, expected);
}
