use yang_nix::diff::{header_line, marked_lines, marker, reset_marker, shown_sides, DiffOp, Side};

#[test]
fn replace_shows_left_deletion_then_right_creation() {
    assert_eq!(
        shown_sides(DiffOp::Replace),
        vec![(DiffOp::Delete, Side::Left), (DiffOp::Create, Side::Right)]
    );
    assert_eq!(shown_sides(DiffOp::Delete), vec![(DiffOp::Delete, Side::Left)]);
    assert_eq!(shown_sides(DiffOp::Create), vec![(DiffOp::Create, Side::Right)]);
}

#[test]
fn markers_are_coloured() {
    assert_eq!(marker(DiffOp::Create), "\x1b[92m+ ");
    assert_eq!(marker(DiffOp::Delete), "\x1b[91m- ");
    assert_eq!(marker(DiffOp::Replace), "\x1b[93m~ ");
    assert_eq!(reset_marker(), "\x1b[0m");
}

#[test]
fn header_and_lines() {
    assert_eq!(header_line(DiffOp::Replace, "/m:top/a"), "\x1b[93m~ Replace @/m:top/a");
    let lines = vec!["{".to_string(), "}".to_string()];
    assert_eq!(
        marked_lines(DiffOp::Delete, &lines),
        vec!["\x1b[91m- {".to_string(), "\x1b[91m- }".to_string()]
    );
}
