//! Renders a configuration-module skeleton of options that mirrors the
//! schema tree: one option group per container, one attribute-set option
//! per keyed list, one typed option per leaf.
use vstd::prelude::*;
use crate::reshape::strings_view;
use crate::plan::list_keys;
use crate::reshape::keys_view;
use crate::schema::{BaseType, NodeKind, SchemaNode, key_fields};

verus! {

broadcast use vstd::std_specs::vec::group_vec_axioms;

/// Why the options could not be rendered.
#[derive(PartialEq, Eq, Structural, Clone, Copy, Debug)]
pub enum OptionsError {
    /// A leaf's declared base type has no option type.
    UnsupportedType,
    /// The schema holds a kind of node that has no option form.
    UnsupportedKind,
}

/// The option type for a leaf's declared base type, where there is one.
pub open spec fn option_type(t: Option<BaseType>) -> Option<Seq<char>> {
    match t {
        Some(BaseType::Enumeration) => Some("lib.types.str"@),
        Some(BaseType::Union) => Some("lib.types.str"@),
        Some(BaseType::Str) => Some("lib.types.str"@),
        Some(BaseType::Int8) => Some("lib.types.ints.s8"@),
        Some(BaseType::Int16) => Some("lib.types.ints.s16"@),
        Some(BaseType::Int32) => Some("lib.types.ints.s32"@),
        Some(BaseType::Int64) => Some("lib.types.int"@),
        Some(BaseType::Uint8) => Some("lib.types.ints.u8"@),
        Some(BaseType::Uint16) => Some("lib.types.ints.u16"@),
        Some(BaseType::Uint32) => Some("lib.types.ints.u32"@),
        Some(BaseType::Uint64) => Some("lib.types.ints.unsigned"@),
        Some(BaseType::Dec64) => Some("lib.types.number"@),
        _ => None,
    }
}

/// The option type for a leaf's declared base type, where there is one.
pub fn leaf_option_type(t: Option<BaseType>) -> (r: Option<&'static str>)
    ensures
        r is None <==> option_type(t) is None,
        r matches Some(s) ==> option_type(t) == Some(s@),
{
    match t {
        Option::Some(BaseType::Enumeration) => Option::Some("lib.types.str"),
        Option::Some(BaseType::Union) => Option::Some("lib.types.str"),
        Option::Some(BaseType::Str) => Option::Some("lib.types.str"),
        Option::Some(BaseType::Int8) => Option::Some("lib.types.ints.s8"),
        Option::Some(BaseType::Int16) => Option::Some("lib.types.ints.s16"),
        Option::Some(BaseType::Int32) => Option::Some("lib.types.ints.s32"),
        Option::Some(BaseType::Int64) => Option::Some("lib.types.int"),
        Option::Some(BaseType::Uint8) => Option::Some("lib.types.ints.u8"),
        Option::Some(BaseType::Uint16) => Option::Some("lib.types.ints.u16"),
        Option::Some(BaseType::Uint32) => Option::Some("lib.types.ints.u32"),
        Option::Some(BaseType::Uint64) => Option::Some("lib.types.ints.unsigned"),
        Option::Some(BaseType::Dec64) => Option::Some("lib.types.number"),
        _ => Option::None,
    }
}

/// The decimal digit for `d`.
pub open spec fn digit(d: nat) -> char {
    if d == 0 {
        '0'
    } else if d == 1 {
        '1'
    } else if d == 2 {
        '2'
    } else if d == 3 {
        '3'
    } else if d == 4 {
        '4'
    } else if d == 5 {
        '5'
    } else if d == 6 {
        '6'
    } else if d == 7 {
        '7'
    } else if d == 8 {
        '8'
    } else {
        '9'
    }
}

/// The decimal text of `n`.
pub open spec fn decimal(n: nat) -> Seq<char>
    decreases n,
{
    if n < 10 {
        seq![digit(n)]
    } else {
        decimal(n / 10) + seq![digit(n % 10)]
    }
}

fn digit_text(d: usize) -> (r: &'static str)
    requires
        d < 10,
    ensures
        r@ == seq![digit(d as nat)],
{
    proof {
        reveal_strlit("0");
        reveal_strlit("1");
        reveal_strlit("2");
        reveal_strlit("3");
        reveal_strlit("4");
        reveal_strlit("5");
        reveal_strlit("6");
        reveal_strlit("7");
        reveal_strlit("8");
        reveal_strlit("9");
    }
    if d == 0 {
        "0"
    } else if d == 1 {
        "1"
    } else if d == 2 {
        "2"
    } else if d == 3 {
        "3"
    } else if d == 4 {
        "4"
    } else if d == 5 {
        "5"
    } else if d == 6 {
        "6"
    } else if d == 7 {
        "7"
    } else if d == 8 {
        "8"
    } else {
        assert(seq!['9'] =~= "9"@);
        "9"
    }
}

/// The decimal text of `n`.
pub fn decimal_text(n: usize) -> (r: String)
    ensures
        r@ == decimal(n as nat),
    decreases n,
{
    if n < 10 {
        let mut s = String::new();
        s.append(digit_text(n));
        assert(s@ =~= decimal(n as nat));
        s
    } else {
        let mut s = decimal_text(n / 10);
        s.append(digit_text(n % 10));
        s
    }
}


/// `s` written `k` times.
pub open spec fn repeat(s: Seq<char>, k: nat) -> Seq<char>
    decreases k,
{
    if k == 0 {
        Seq::empty()
    } else {
        repeat(s, (k - 1) as nat) + s
    }
}

/// The comment lines before a group: a blank line and the description,
/// where there is one.
pub open spec fn comment_lines(description: Option<String>, ind: Seq<char>) -> Seq<Seq<char>> {
    match description {
        Some(d) => seq![Seq::empty(), ind + "# "@ + d@],
        None => Seq::empty(),
    }
}

/// The lines that name each key field of a list, counted from one.
pub open spec fn key_lines(keys: Seq<(Seq<char>, bool)>, ind: Seq<char>) -> Seq<Seq<char>> {
    Seq::new(keys.len(), |j: int| ind + "  Key "@ + decimal((j + 1) as nat) + ": "@ + keys[j].0)
}

/// The lines of a list option before its nested options.
pub open spec fn list_head(n: SchemaNode, ind: Seq<char>) -> Seq<Seq<char>> {
    let i1 = ind + "  "@;
    let keys = key_fields(n.children@);
    seq![Seq::empty(), ind + n.name@ + " = lib.mkOption {"@, i1 + "description = ''"@] + match n.description {
        Some(d) => seq![i1 + "  "@ + d@],
        None => Seq::empty(),
    } + key_lines(keys, i1) + seq![
        i1 + "'';"@,
        i1 + "type = "@ + repeat("lib.types.attrsOf ("@, keys.len()) + "lib.types.submodule {"@,
        Seq::empty(),
        i1 + "  "@ + "options = {"@,
    ]
}

/// The lines of a list option after its nested options.
pub open spec fn list_tail(n: SchemaNode, ind: Seq<char>) -> Seq<Seq<char>> {
    let i1 = ind + "  "@;
    let keys = key_fields(n.children@);
    seq![
        Seq::empty(),
        i1 + "  "@ + "};"@,
        Seq::empty(),
        i1 + "}"@ + repeat(")"@, keys.len()) + ";"@,
        Seq::empty(),
        i1 + "default = {};"@,
        ind + "};"@,
    ]
}

/// The lines of a leaf or leaf-list option of option type `t`.
pub open spec fn leaf_lines(n: SchemaNode, ind: Seq<char>, t: Seq<char>) -> Seq<Seq<char>> {
    seq![Seq::empty(), ind + n.name@ + " = lib.mkOption {"@] + match n.description {
        Some(d) => seq![ind + "  description = \""@ + d@ + "\";"@],
        None => Seq::empty(),
    } + if n.kind == NodeKind::LeafList {
        seq![ind + "  type = lib.types.listOf "@ + t + ";"@, ind + "  default = [];"@]
    } else if n.mandatory {
        seq![ind + "  type = "@ + t + ";"@]
    } else {
        seq![ind + "  type = lib.types.nullOr "@ + t + ";"@, ind + "  default = null;"@]
    } + seq![ind + "};"@]
}

/// The lines of the option for node `n`, indented by `ind`.
pub open spec fn node_lines(n: SchemaNode, ind: Seq<char>) -> Result<Seq<Seq<char>>, OptionsError>
    decreases n,
{
    match n.kind {
        NodeKind::Leaf | NodeKind::LeafList => match option_type(n.base_type) {
            Some(t) => Ok(leaf_lines(n, ind, t)),
            None => Err(OptionsError::UnsupportedType),
        },
        NodeKind::List => match children_lines(n.children@, ind + "      "@, true) {
            Ok(body) => Ok(list_head(n, ind) + body + list_tail(n, ind)),
            Err(e) => Err(e),
        },
        NodeKind::Container => match children_lines(n.children@, ind + "  "@, false) {
            Ok(body) => Ok(
                comment_lines(n.description, ind) + seq![ind + n.name@ + " = {"@] + body + seq![
                    ind + "};"@,
                ],
            ),
            Err(e) => Err(e),
        },
        NodeKind::Choice | NodeKind::Case => match children_lines(n.children@, ind + "  "@, false) {
            Ok(body) => Ok(seq![Seq::empty(), ind + n.name@ + " = {"@] + body + seq![ind + "};"@]),
            Err(e) => Err(e),
        },
        NodeKind::Other => Err(OptionsError::UnsupportedKind),
    }
}

/// The lines of the options for `cs` in order, key leaves left out where
/// `skip_keys` holds.
pub open spec fn children_lines(cs: Seq<SchemaNode>, ind: Seq<char>, skip_keys: bool) -> Result<
    Seq<Seq<char>>,
    OptionsError,
>
    decreases cs,
{
    if cs.len() == 0 {
        Ok(Seq::empty())
    } else {
        match children_lines(cs.drop_last(), ind, skip_keys) {
            Err(e) => Err(e),
            Ok(a) => if skip_keys && cs.last().is_key {
                Ok(a)
            } else {
                match node_lines(cs.last(), ind) {
                    Ok(b) => Ok(a + b),
                    Err(e) => Err(e),
                }
            },
        }
    }
}

/// The lines of the whole options module for the schema's top-level nodes.
pub open spec fn module_lines(roots: Seq<SchemaNode>) -> Result<Seq<Seq<char>>, OptionsError> {
    match children_lines(roots, "  "@, false) {
        Ok(body) => Ok(seq!["{ lib, ... }: {"@] + body + seq!["}"@]),
        Err(e) => Err(e),
    }
}


/// `a` followed by `b`.
fn joined(a: &str, b: &str) -> (r: String)
    ensures
        r@ == a@ + b@,
{
    let mut s = String::from_str(a);
    s.append(b);
    s
}

fn push_line(out: &mut Vec<String>, line: String)
    ensures
        strings_view(final(out)@) == strings_view(old(out)@).push(line@),
{
    let ghost before = strings_view(out@);
    out.push(line);
    assert(strings_view(out@) =~= before.push(line@));
}

fn push_blank(out: &mut Vec<String>)
    ensures
        strings_view(final(out)@) == strings_view(old(out)@).push(Seq::empty()),
{
    push_line(out, String::new());
}

/// Appends the lines of a leaf or leaf-list option of option type `t`.
fn render_leaf(n: &SchemaNode, ind: &String, t: &str, out: &mut Vec<String>)
    ensures
        strings_view(final(out)@) == strings_view(old(out)@) + leaf_lines(*n, ind@, t@),
{
    let ghost o0 = strings_view(out@);
    push_blank(out);
    let mut l = joined(ind.as_str(), n.name.as_str());
    l.append(" = lib.mkOption {");
    push_line(out, l);
    let ghost o1 = strings_view(out@);
    match &n.description {
        Option::Some(d) => {
            let mut l = joined(ind.as_str(), "  description = \"");
            l.append(d.as_str());
            l.append("\";");
            push_line(out, l);
        },
        Option::None => {},
    }
    let ghost o2 = strings_view(out@);
    if n.kind == NodeKind::LeafList {
        let mut l = joined(ind.as_str(), "  type = lib.types.listOf ");
        l.append(t);
        l.append(";");
        push_line(out, l);
        push_line(out, joined(ind.as_str(), "  default = [];"));
    } else if n.mandatory {
        let mut l = joined(ind.as_str(), "  type = ");
        l.append(t);
        l.append(";");
        push_line(out, l);
    } else {
        let mut l = joined(ind.as_str(), "  type = lib.types.nullOr ");
        l.append(t);
        l.append(";");
        push_line(out, l);
        push_line(out, joined(ind.as_str(), "  default = null;"));
    }
    push_line(out, joined(ind.as_str(), "};"));
    assert(strings_view(out@) =~= o0 + leaf_lines(*n, ind@, t@));
}


/// Appends the lines of a list option before its nested options.
fn render_list_head(n: &SchemaNode, ind: &String, out: &mut Vec<String>)
    ensures
        strings_view(final(out)@) == strings_view(old(out)@) + list_head(*n, ind@),
{
    let ghost o0 = strings_view(out@);
    let keys = list_keys(n);
    let ghost kv = key_fields(n.children@);
    let i1 = joined(ind.as_str(), "  ");
    push_blank(out);
    let mut l = joined(ind.as_str(), n.name.as_str());
    l.append(" = lib.mkOption {");
    push_line(out, l);
    push_line(out, joined(i1.as_str(), "description = ''"));
    match &n.description {
        Option::Some(d) => {
            let mut l = joined(i1.as_str(), "  ");
            l.append(d.as_str());
            push_line(out, l);
        },
        Option::None => {},
    }
    let ghost o1 = strings_view(out@);
    let mut j: usize = 0;
    while j < keys.len()
        invariant
            j <= keys.len(),
            keys_view(keys@) == kv,
            strings_view(out@) == o1 + key_lines(kv, i1@).take(j as int),
        decreases keys.len() - j,
    {
        let mut l = joined(i1.as_str(), "  Key ");
        let num = decimal_text(j + 1);
        l.append(num.as_str());
        l.append(": ");
        l.append(keys[j].name.as_str());
        let ghost lv = l@;
        assert(lv == key_lines(kv, i1@)[j as int]);
        push_line(out, l);
        assert(key_lines(kv, i1@).take(j + 1) =~= key_lines(kv, i1@).take(j as int).push(lv));
        j = j + 1;
    }
    assert(key_lines(kv, i1@).take(j as int) =~= key_lines(kv, i1@));
    push_line(out, joined(i1.as_str(), "'';"));
    let mut l = joined(i1.as_str(), "type = ");
    let mut j: usize = 0;
    let ghost t0 = l@;
    assert(t0 + repeat("lib.types.attrsOf ("@, 0) =~= t0);
    while j < keys.len()
        invariant
            j <= keys.len(),
            l@ == t0 + repeat("lib.types.attrsOf ("@, j as nat),
        decreases keys.len() - j,
    {
        l.append("lib.types.attrsOf (");
        assert(l@ =~= t0 + repeat("lib.types.attrsOf ("@, (j + 1) as nat));
        j = j + 1;
    }
    l.append("lib.types.submodule {");
    push_line(out, l);
    push_blank(out);
    let mut l = joined(i1.as_str(), "  ");
    l.append("options = {");
    push_line(out, l);
    assert(strings_view(out@) =~= o0 + list_head(*n, ind@));
}

/// Appends the lines of a list option after its nested options.
fn render_list_tail(n: &SchemaNode, ind: &String, out: &mut Vec<String>)
    ensures
        strings_view(final(out)@) == strings_view(old(out)@) + list_tail(*n, ind@),
{
    let ghost o0 = strings_view(out@);
    let k = list_keys(n).len();
    let i1 = joined(ind.as_str(), "  ");
    push_blank(out);
    let mut l = joined(i1.as_str(), "  ");
    l.append("};");
    push_line(out, l);
    push_blank(out);
    let mut l = joined(i1.as_str(), "}");
    let ghost t0 = l@;
    assert(t0 + repeat(")"@, 0) =~= t0);
    let mut j: usize = 0;
    while j < k
        invariant
            j <= k,
            l@ == t0 + repeat(")"@, j as nat),
        decreases k - j,
    {
        l.append(")");
        assert(l@ =~= t0 + repeat(")"@, (j + 1) as nat));
        j = j + 1;
    }
    l.append(";");
    push_line(out, l);
    push_blank(out);
    push_line(out, joined(i1.as_str(), "default = {};"));
    push_line(out, joined(ind.as_str(), "};"));
    assert(strings_view(out@) =~= o0 + list_tail(*n, ind@));
}


proof fn lemma_children_err(cs: Seq<SchemaNode>, ind: Seq<char>, skip_keys: bool, j: int)
    requires
        0 <= j <= cs.len(),
        children_lines(cs.take(j), ind, skip_keys) is Err,
    ensures
        children_lines(cs, ind, skip_keys) == children_lines(cs.take(j), ind, skip_keys),
    decreases cs.len(),
{
    if j == cs.len() {
        assert(cs.take(j) =~= cs);
    } else {
        assert(cs.drop_last().take(j) =~= cs.take(j));
        lemma_children_err(cs.drop_last(), ind, skip_keys, j);
    }
}

/// Appends the lines of the option for node `n`, indented by `ind`.
fn render_node(n: &SchemaNode, ind: &String, out: &mut Vec<String>) -> (r: Result<(), OptionsError>)
    ensures
        match node_lines(*n, ind@) {
            Ok(ls) => r is Ok && strings_view(final(out)@) == strings_view(old(out)@) + ls,
            Err(e) => r == Err::<(), OptionsError>(e),
        },
    decreases n, 0int,
{
    let ghost o0 = strings_view(out@);
    match n.kind {
        NodeKind::Leaf | NodeKind::LeafList => match leaf_option_type(n.base_type) {
            Option::Some(t) => {
                render_leaf(n, ind, t, out);
                Ok(())
            },
            Option::None => Err(OptionsError::UnsupportedType),
        },
        NodeKind::List => {
            render_list_head(n, ind, out);
            let ghost o1 = strings_view(out@);
            let inner = joined(ind.as_str(), "      ");
            match render_children(&n.children, &inner, true, out) {
                Ok(()) => {},
                Err(e) => {
                    return Err(e);
                },
            }
            let ghost o2 = strings_view(out@);
            render_list_tail(n, ind, out);
            assert(strings_view(out@) =~= o0 + (list_head(*n, ind@) + o2.subrange(
                o1.len() as int,
                o2.len() as int,
            ) + list_tail(*n, ind@)));
            Ok(())
        },
        NodeKind::Other => Err(OptionsError::UnsupportedKind),
        _ => {
            if n.kind == NodeKind::Container {
                match &n.description {
                    Option::Some(d) => {
                        push_blank(out);
                        let mut l = joined(ind.as_str(), "# ");
                        l.append(d.as_str());
                        push_line(out, l);
                    },
                    Option::None => {},
                }
            } else {
                push_blank(out);
            }
            let mut l = joined(ind.as_str(), n.name.as_str());
            l.append(" = {");
            push_line(out, l);
            let ghost o1 = strings_view(out@);
            let inner = joined(ind.as_str(), "  ");
            match render_children(&n.children, &inner, false, out) {
                Ok(()) => {},
                Err(e) => {
                    return Err(e);
                },
            }
            let ghost o2 = strings_view(out@);
            push_line(out, joined(ind.as_str(), "};"));
            assert(strings_view(out@) =~= o1 + o2.subrange(o1.len() as int, o2.len() as int) + seq![
                ind@ + "};"@,
            ]);
            Ok(())
        },
    }
}

/// Appends the lines of the options for `cs` in order, key leaves left out
/// where `skip_keys` holds.
fn render_children(cs: &Vec<SchemaNode>, ind: &String, skip_keys: bool, out: &mut Vec<String>) -> (r:
    Result<(), OptionsError>)
    ensures
        match children_lines(cs@, ind@, skip_keys) {
            Ok(ls) => r is Ok && strings_view(final(out)@) == strings_view(old(out)@) + ls,
            Err(e) => r == Err::<(), OptionsError>(e),
        },
    decreases cs, 0int,
{
    let ghost o0 = strings_view(out@);
    let mut i: usize = 0;
    assert(cs@.take(0) =~= Seq::<SchemaNode>::empty());
    assert(strings_view(out@) =~= o0 + Seq::<Seq<char>>::empty());
    while i < cs.len()
        invariant
            i <= cs.len(),
            o0 == strings_view(old(out)@),
            match children_lines(cs@.take(i as int), ind@, skip_keys) {
                Ok(ls) => strings_view(out@) == o0 + ls,
                Err(_) => false,
            },
        decreases cs.len() - i,
    {
        let ghost done = children_lines(cs@.take(i as int), ind@, skip_keys)->Ok_0;
        assert(cs@.take(i + 1).drop_last() =~= cs@.take(i as int));
        assert(cs@.take(i + 1).last() == cs@[i as int]);
        if skip_keys && cs[i].is_key {
        } else {
            let ghost before = strings_view(out@);
            match render_node(&cs[i], ind, out) {
                Ok(()) => {
                    assert(strings_view(out@) =~= o0 + (done + strings_view(out@).subrange(
                        before.len() as int,
                        strings_view(out@).len() as int,
                    )));
                },
                Err(e) => {
                    proof {
                        lemma_children_err(cs@, ind@, skip_keys, i + 1);
                    }
                    return Err(e);
                },
            }
        }
        i = i + 1;
    }
    assert(cs@.take(i as int) =~= cs@);
    Ok(())
}

/// The lines of the options module for the schema's top-level nodes: an
/// option group per container, choice and case, an attribute-set option per
/// list (one level per key field, its key leaves left out of the nested
/// options), a typed option per leaf and leaf-list. A leaf whose base type
/// has no option type, or a node of another kind, fails the whole rendering.
pub fn render_options(roots: &Vec<SchemaNode>) -> (r: Result<Vec<String>, OptionsError>)
    ensures
        match module_lines(roots@) {
            Ok(ls) => r matches Ok(out) && strings_view(out@) == ls,
            Err(e) => r == Err::<Vec<String>, OptionsError>(e),
        },
{
    let mut out: Vec<String> = Vec::new();
    push_line(&mut out, String::from_str("{ lib, ... }: {"));
    let ghost o1 = strings_view(out@);
    let ind = String::from_str("  ");
    match render_children(roots, &ind, false, &mut out) {
        Ok(()) => {},
        Err(e) => {
            return Err(e);
        },
    }
    let ghost o2 = strings_view(out@);
    push_line(&mut out, String::from_str("}"));
    assert(strings_view(out@) =~= seq!["{ lib, ... }: {"@] + o2.subrange(1, o2.len() as int) + seq![
        "}"@,
    ]);
    Ok(out)
}

} // verus!
