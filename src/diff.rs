//! Decides how a structural diff of two data trees is displayed: which tree
//! each operation is shown from, and the colour marker of each line.
use vstd::prelude::*;
use crate::reshape::strings_view;

verus! {

broadcast use vstd::std_specs::vec::group_vec_axioms;

/// One operation of a structural diff.
#[derive(PartialEq, Eq, Structural, Clone, Copy, Debug)]
pub enum DiffOp {
    Create,
    Delete,
    Replace,
}

/// Which of the two compared trees a subtree is shown from.
#[derive(PartialEq, Eq, Structural, Clone, Copy, Debug)]
pub enum Side {
    Left,
    Right,
}

/// The colour escape and sign that start each line of an operation.
pub open spec fn marker_text(op: DiffOp) -> Seq<char> {
    match op {
        DiffOp::Create => "\x1b[92m+ "@,
        DiffOp::Delete => "\x1b[91m- "@,
        DiffOp::Replace => "\x1b[93m~ "@,
    }
}

/// The colour escape and sign that start each line of an operation: green
/// for a creation, red for a deletion, yellow for a replacement.
pub fn marker(op: DiffOp) -> (r: &'static str)
    ensures
        r@ == marker_text(op),
{
    match op {
        DiffOp::Create => "\x1b[92m+ ",
        DiffOp::Delete => "\x1b[91m- ",
        DiffOp::Replace => "\x1b[93m~ ",
    }
}

/// The escape that resets the colour at the end of the output.
pub fn reset_marker() -> (r: &'static str)
    ensures
        r@ == "\x1b[0m"@,
{
    "\x1b[0m"
}

pub open spec fn op_name(op: DiffOp) -> Seq<char> {
    match op {
        DiffOp::Create => "Create"@,
        DiffOp::Delete => "Delete"@,
        DiffOp::Replace => "Replace"@,
    }
}

/// The line that announces an operation at `path`.
pub fn header_line(op: DiffOp, path: &str) -> (r: String)
    ensures
        r@ == marker_text(op) + op_name(op) + " @"@ + path@,
{
    let mut s = String::from_str(marker(op));
    let name = match op {
        DiffOp::Create => "Create",
        DiffOp::Delete => "Delete",
        DiffOp::Replace => "Replace",
    };
    s.append(name);
    s.append(" @");
    s.append(path);
    s
}

/// The sides an operation is shown as: a replacement as a deletion from
/// the left tree followed by a creation from the right one; a deletion
/// from the left tree; a creation from the right tree.
pub open spec fn sides_of(op: DiffOp) -> Seq<(DiffOp, Side)> {
    match op {
        DiffOp::Replace => seq![(DiffOp::Delete, Side::Left), (DiffOp::Create, Side::Right)],
        DiffOp::Delete => seq![(DiffOp::Delete, Side::Left)],
        DiffOp::Create => seq![(DiffOp::Create, Side::Right)],
    }
}

/// The sides an operation is shown as, in order.
pub fn shown_sides(op: DiffOp) -> (r: Vec<(DiffOp, Side)>)
    ensures
        r@ == sides_of(op),
{
    let mut r: Vec<(DiffOp, Side)> = Vec::new();
    match op {
        DiffOp::Replace => {
            r.push((DiffOp::Delete, Side::Left));
            r.push((DiffOp::Create, Side::Right));
        },
        DiffOp::Delete => {
            r.push((DiffOp::Delete, Side::Left));
        },
        DiffOp::Create => {
            r.push((DiffOp::Create, Side::Right));
        },
    }
    assert(r@ =~= sides_of(op));
    r
}

/// Each line of a shown subtree, started by the operation's marker.
pub fn marked_lines(op: DiffOp, lines: &Vec<String>) -> (r: Vec<String>)
    ensures
        strings_view(r@) == Seq::new(lines@.len(), |i: int| marker_text(op) + lines@[i]@),
{
    let mut r: Vec<String> = Vec::new();
    let mut i: usize = 0;
    while i < lines.len()
        invariant
            i <= lines.len(),
            r@.len() == i,
            forall|m: int| 0 <= m < i ==> (#[trigger] r@[m])@ == marker_text(op) + lines@[m]@,
        decreases lines.len() - i,
    {
        let mut l = String::from_str(marker(op));
        l.append(lines[i].as_str());
        r.push(l);
        i = i + 1;
    }
    assert(strings_view(r@) =~= Seq::new(lines@.len(), |i: int| marker_text(op) + lines@[i]@));
    r
}

} // verus!
