use strategy_haven::world::ms::constraint::{Constraint, ConstraintDirection};

fn all_directions() -> Vec<ConstraintDirection> {
    (0..8).map(ConstraintDirection::from_index).collect()
}

#[test]
fn reverse_swaps_opposites() {
    assert_eq!(ConstraintDirection::Top.reverse(), ConstraintDirection::Bottom);
    assert_eq!(ConstraintDirection::Right.reverse(), ConstraintDirection::Left);
    assert_eq!(ConstraintDirection::TopLeft.reverse(), ConstraintDirection::BottomRight);
    assert_eq!(ConstraintDirection::TopRight.reverse(), ConstraintDirection::BottomLeft);
}

#[test]
fn reverse_twice_is_identity() {
    for d in all_directions() {
        assert_eq!(d.reverse().reverse(), d);
    }
}

#[test]
fn flips_are_involutions_and_compose_to_reverse() {
    for d in all_directions() {
        assert_eq!(d.flip_x().flip_x(), d);
        assert_eq!(d.flip_y().flip_y(), d);
        assert_eq!(d.flip_x().flip_y(), d.reverse());
        assert_eq!(d.flip_y().flip_x(), d.reverse());
    }
}

#[test]
fn flip_x_mirrors_left_and_right() {
    assert_eq!(ConstraintDirection::Left.flip_x(), ConstraintDirection::Right);
    assert_eq!(ConstraintDirection::Top.flip_x(), ConstraintDirection::Top);
    assert_eq!(ConstraintDirection::TopLeft.flip_x(), ConstraintDirection::TopRight);
    assert_eq!(ConstraintDirection::BottomLeft.flip_y(), ConstraintDirection::TopLeft);
}

#[test]
fn four_rotations_are_identity_and_two_are_reverse() {
    for d in all_directions() {
        assert_eq!(d.rotate().rotate().rotate().rotate(), d);
        assert_eq!(d.rotate().rotate(), d.reverse());
        assert_eq!(d.reverse().rotate(), d.rotate().reverse());
    }
    assert_eq!(ConstraintDirection::Top.rotate(), ConstraintDirection::Left);
}

#[test]
fn index_and_from_index_agree() {
    for i in 0..8usize {
        assert_eq!(ConstraintDirection::from_index(i).index(), i);
    }
    assert_eq!(ConstraintDirection::Top.index(), 0);
    assert_eq!(ConstraintDirection::BottomRight.index(), 7);
}

#[test]
fn constraints_compare_by_fields() {
    let a = Constraint { pattern_a_id: 1, pattern_b_id: 2, direction: ConstraintDirection::Left };
    let b = Constraint { pattern_a_id: 1, pattern_b_id: 2, direction: ConstraintDirection::Left };
    let c = Constraint { pattern_a_id: 1, pattern_b_id: 2, direction: ConstraintDirection::Right };
    assert_eq!(a, b);
    assert_ne!(a, c);
}
