use procedural_generation::rtin::{bottom_left_root, top_right_root, Coord, Triangle};

fn c(x: usize, y: usize) -> Coord {
    Coord { x, y }
}

#[test]
fn coord_index_is_its_position() {
    assert_eq!(c(0, 0).idx(), [0, 0]);
    assert_eq!(c(2, 3).idx(), [2, 3]);
}

#[test]
fn manhattan_distance_sums_both_axes() {
    assert_eq!(c(1, 4).manhattan_distance(&c(3, 1)), 5);
    assert_eq!(c(3, 1).manhattan_distance(&c(1, 4)), 5);
    assert_eq!(c(2, 2).manhattan_distance(&c(2, 2)), 0);
}

#[test]
fn roots_split_the_square_along_its_diagonal() {
    let bl = bottom_left_root(4);
    assert_eq!(bl, Triangle { a: c(0, 0), b: c(4, 4), c: c(4, 0) });
    let tr = top_right_root(4);
    assert_eq!(tr, Triangle { a: c(4, 4), b: c(0, 0), c: c(0, 4) });
}

#[test]
fn ids_pick_root_then_children() {
    assert_eq!(Triangle::from_id(2, 4), top_right_root(4));
    assert_eq!(Triangle::from_id(3, 4), bottom_left_root(4));
    // 4 = 0b100: top-right root, then its right child
    assert_eq!(Triangle::from_id(4, 4), top_right_root(4).to_right_child());
    // 7 = 0b111: bottom-left root, then its left child
    assert_eq!(Triangle::from_id(7, 4), bottom_left_root(4).to_left_child());
    // 13 = 0b1101: bottom-left root, right child, then its left child
    assert_eq!(Triangle::from_id(13, 4), bottom_left_root(4).to_right_child().to_left_child());
}

#[test]
fn children_meet_at_the_midpoint() {
    let bl = bottom_left_root(4);
    assert_eq!(bl.midpoint(), c(2, 2));
    assert_eq!(bl.to_left_child(), Triangle { a: c(4, 0), b: c(0, 0), c: c(2, 2) });
    assert_eq!(bl.to_right_child(), Triangle { a: c(4, 4), b: c(4, 0), c: c(2, 2) });
    assert_eq!(bl.left_child_idx(), [2, 0]);
    assert_eq!(bl.right_child_idx(), [4, 2]);
    assert_eq!(bl.to_left_child().midpoint(), c(2, 0));
    assert_eq!(bl.to_right_child().midpoint(), c(4, 2));
}

#[test]
fn leaves_have_unit_legs() {
    let bl = bottom_left_root(1);
    assert!(!bl.not_leaf());
    let big = bottom_left_root(2);
    assert!(big.not_leaf());
    assert!(big.to_left_child().not_leaf());
    assert!(!big.to_left_child().to_left_child().not_leaf());
}
