use beap::beap::BeapCoordinate;

fn coords(row: usize, pos: usize) -> BeapCoordinate {
    BeapCoordinate::from_coords(row, pos).unwrap()
}

#[test]
fn test_coord_index() {
    assert_eq!(coords(0, 0).array_index(), 0);
    assert_eq!(coords(1, 0).array_index(), 1);
    assert_eq!(coords(1, 1).array_index(), 2);
    assert_eq!(coords(2, 0).array_index(), 3);
    assert_eq!(coords(2, 1).array_index(), 4);
    assert_eq!(coords(2, 2).array_index(), 5);
    assert_eq!(coords(3, 0).array_index(), 6);
    assert_eq!(coords(3, 1).array_index(), 7);
    assert_eq!(coords(3, 2).array_index(), 8);
    assert_eq!(coords(3, 3).array_index(), 9);
}

#[test]
fn test_coord_from_index() {
    assert_eq!(BeapCoordinate::from_index(0), coords(0, 0));
    assert_eq!(BeapCoordinate::from_index(1), coords(1, 0));
    assert_eq!(BeapCoordinate::from_index(2), coords(1, 1));
    assert_eq!(BeapCoordinate::from_index(3), coords(2, 0));
    assert_eq!(BeapCoordinate::from_index(4), coords(2, 1));
    assert_eq!(BeapCoordinate::from_index(5), coords(2, 2));
    assert_eq!(BeapCoordinate::from_index(6), coords(3, 0));
    assert_eq!(BeapCoordinate::from_index(7), coords(3, 1));
    assert_eq!(BeapCoordinate::from_index(8), coords(3, 2));
    assert_eq!(BeapCoordinate::from_index(9), coords(3, 3));
}

#[test]
fn test_invalid_step() {
    // Stepping around from root
    assert_eq!(coords(0, 0).left_parent(), None);
    assert_eq!(coords(0, 0).right_parent(), None);
    assert_eq!(coords(0, 0).left_child(), coords(1, 0));
    assert_eq!(coords(0, 0).right_child(), coords(1, 1));

    // Stepping around from second row left node
    assert_eq!(coords(1, 0).left_parent(), None);
    assert_eq!(coords(1, 0).right_parent(), Some(coords(0, 0)));
    assert_eq!(coords(1, 0).left_child(), coords(2, 0));
    assert_eq!(coords(1, 0).right_child(), coords(2, 1));

    // Stepping around from second row right node
    assert_eq!(coords(1, 1).left_parent(), Some(coords(0, 0)));
    assert_eq!(coords(1, 1).right_parent(), None);
    assert_eq!(coords(1, 1).left_child(), coords(2, 1));
    assert_eq!(coords(1, 1).right_child(), coords(2, 2));
}

#[test]
fn from_coords_rejects_a_position_beyond_the_row() {
    assert_eq!(BeapCoordinate::from_coords(0, 1), None);
    assert_eq!(BeapCoordinate::from_coords(3, 4), None);
    assert_eq!(BeapCoordinate::from_coords(3, usize::MAX), None);
    assert!(BeapCoordinate::from_coords(3, 3).is_some());
    assert!(BeapCoordinate::from_coords(usize::MAX, usize::MAX).is_some());
}

#[test]
fn zero_is_the_root() {
    let root = BeapCoordinate::zero();
    assert_eq!(root.row(), 0);
    assert_eq!(root.pos(), 0);
    assert_eq!(root.array_index(), 0);
    assert_eq!(root, coords(0, 0));
    assert_eq!(root, BeapCoordinate::from_index(0));
}

#[test]
fn row_and_pos_are_what_from_coords_was_given() {
    for row in 0..12 {
        for pos in 0..=row {
            let coord = coords(row, pos);
            assert_eq!(coord.row(), row);
            assert_eq!(coord.pos(), pos);
        }
    }
}

#[test]
fn index_of_from_index_is_the_index() {
    for index in 0..2000 {
        let coord = BeapCoordinate::from_index(index);
        assert!(coord.pos() <= coord.row());
        assert_eq!(coord.array_index(), index);
    }
}

#[test]
fn from_index_of_array_index_is_the_coordinate() {
    for row in 0..60 {
        for pos in 0..=row {
            let coord = coords(row, pos);
            assert_eq!(BeapCoordinate::from_index(coord.array_index()), coord);
        }
    }
}

#[test]
fn array_index_follows_the_triangular_formula() {
    assert_eq!(coords(4, 0).array_index(), 10);
    assert_eq!(coords(10, 7).array_index(), 62);
    assert_eq!(coords(100, 100).array_index(), 5150);
    assert_eq!(coords(65535, 65535).array_index(), 2147516415);
}

#[test]
fn from_index_named_values() {
    let coord = BeapCoordinate::from_index(7);
    assert_eq!((coord.row(), coord.pos()), (3, 1));
    let coord = BeapCoordinate::from_index(5150);
    assert_eq!((coord.row(), coord.pos()), (100, 100));
    let coord = BeapCoordinate::from_index(5151);
    assert_eq!((coord.row(), coord.pos()), (101, 0));
}

#[test]
fn checked_array_index_agrees_with_array_index() {
    for row in 0..40 {
        for pos in 0..=row {
            let coord = coords(row, pos);
            assert_eq!(coord.checked_array_index(), Some(coord.array_index()));
        }
    }
}

#[test]
fn checked_array_index_is_none_where_the_place_does_not_fit() {
    assert_eq!(coords(usize::MAX, 0).checked_array_index(), None);
    assert_eq!(coords(usize::MAX, usize::MAX).checked_array_index(), None);
    assert_eq!(coords(usize::MAX / 2, 0).checked_array_index(), None);
}

#[test]
fn a_child_has_its_node_as_the_parent_on_the_other_side() {
    for row in 0..20 {
        for pos in 0..=row {
            let coord = coords(row, pos);
            assert_eq!(coord.left_child().right_parent(), Some(coord));
            assert_eq!(coord.right_child().left_parent(), Some(coord));
        }
    }
}

#[test]
fn a_node_is_the_child_of_its_parent_on_the_other_side() {
    for row in 0..20 {
        for pos in 0..=row {
            let coord = coords(row, pos);
            if let Some(parent) = coord.left_parent() {
                assert_eq!(parent.right_child(), coord);
                assert_eq!(parent, coords(row - 1, pos - 1));
            } else {
                assert!(row == 0 || pos == 0);
            }
            if let Some(parent) = coord.right_parent() {
                assert_eq!(parent.left_child(), coord);
                assert_eq!(parent, coords(row - 1, pos));
            } else {
                assert!(row == 0 || pos == row);
            }
        }
    }
}

#[test]
fn children_stand_one_row_down() {
    let coord = coords(3, 2);
    assert_eq!(coord.left_child(), coords(4, 2));
    assert_eq!(coord.right_child(), coords(4, 3));
    assert_eq!(coord.left_child().array_index(), coord.array_index() + 4);
    assert_eq!(coord.right_child().array_index(), coord.array_index() + 5);
}

#[test]
fn coordinates_are_copied_and_compared_by_value() {
    let coord = coords(5, 2);
    let copy = coord;
    assert_eq!(coord, copy);
    assert_ne!(coord, coords(5, 3));
    assert_ne!(coord, coords(4, 2));
    assert_eq!(format!("{:?}", coord), "BeapCoordinate { row: 5, pos: 2 }");
}
