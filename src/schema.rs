//! The schema tree that drives the reshaping: each node's kind, name,
//! children, and the facts about leaves that the rewrites and the options
//! generator read.
use vstd::prelude::*;

verus! {

/// The structural kind of a schema node.
#[derive(PartialEq, Eq, Structural, Clone, Copy, Debug)]
pub enum NodeKind {
    Container,
    List,
    Choice,
    Case,
    Leaf,
    LeafList,
    /// Any other kind of node (anydata, an operation, its input or output,
    /// a notification).
    Other,
}

/// The declared base type of a leaf or leaf-list.
#[derive(PartialEq, Eq, Structural, Clone, Copy, Debug)]
pub enum BaseType {
    Enumeration,
    Union,
    Str,
    Int8,
    Int16,
    Int32,
    Int64,
    Uint8,
    Uint16,
    Uint32,
    Uint64,
    Dec64,
    /// Any other base type (boolean, binary, bits, empty, identity and
    /// instance references, leaf references).
    Other,
}

/// A node of the schema tree.
pub struct SchemaNode {
    pub kind: NodeKind,
    pub name: String,
    pub description: Option<String>,
    /// The children, in schema order; a list's key leaves are among them.
    pub children: Vec<SchemaNode>,
    /// The node is a key leaf of its parent list.
    pub is_key: bool,
    /// The node is a leaf that must be present.
    pub mandatory: bool,
    /// The declared base type of a leaf or leaf-list.
    pub base_type: Option<BaseType>,
}

/// The base type is numeric: a signed or unsigned integer, or a decimal.
pub open spec fn is_numeric_type(t: Option<BaseType>) -> bool {
    match t {
        Some(BaseType::Int8) | Some(BaseType::Int16) | Some(BaseType::Int32) | Some(
            BaseType::Int64,
        ) | Some(BaseType::Uint8) | Some(BaseType::Uint16) | Some(BaseType::Uint32) | Some(
            BaseType::Uint64,
        ) | Some(BaseType::Dec64) => true,
        _ => false,
    }
}

/// Whether a declared base type is numeric.
pub fn numeric_type(t: Option<BaseType>) -> (r: bool)
    ensures
        r == is_numeric_type(t),
{
    match t {
        Option::Some(BaseType::Int8) | Option::Some(BaseType::Int16) | Option::Some(BaseType::Int32)
        | Option::Some(BaseType::Int64) | Option::Some(BaseType::Uint8) | Option::Some(
            BaseType::Uint16,
        ) | Option::Some(BaseType::Uint32) | Option::Some(BaseType::Uint64) | Option::Some(
            BaseType::Dec64,
        ) => true,
        _ => false,
    }
}

/// The key fields among `cs`, in order: each one's name and whether its
/// type is numeric.
pub open spec fn key_fields(cs: Seq<SchemaNode>) -> Seq<(Seq<char>, bool)>
    decreases cs.len(),
{
    if cs.len() == 0 {
        Seq::empty()
    } else {
        let r = key_fields(cs.drop_last());
        if cs.last().is_key {
            r.push((cs.last().name@, is_numeric_type(cs.last().base_type)))
        } else {
            r
        }
    }
}

} // verus!
