use vstd::prelude::*;

verus! {

/// Pattern `pattern_b_id` may stand next to pattern `pattern_a_id`, in
/// `direction` as seen from `pattern_a_id`.
#[derive(Debug, Clone, Copy, PartialEq, Eq, Hash, Structural)]
pub struct Constraint {
    pub pattern_a_id: usize,
    pub pattern_b_id: usize,
    pub direction: ConstraintDirection,
}

/// The eight neighbours of a cell.
#[derive(Debug, PartialEq, Eq, Clone, Copy, Hash, Structural)]
pub enum ConstraintDirection {
    Top,
    Right,
    Bottom,
    Left,
    TopLeft,
    TopRight,
    BottomLeft,
    BottomRight,
}

/// The number of directions.
pub const DIRECTION_COUNT: usize = 8;

/// The opposite direction.
pub open spec fn spec_reverse(d: ConstraintDirection) -> ConstraintDirection {
    match d {
        ConstraintDirection::Top => ConstraintDirection::Bottom,
        ConstraintDirection::Right => ConstraintDirection::Left,
        ConstraintDirection::Bottom => ConstraintDirection::Top,
        ConstraintDirection::Left => ConstraintDirection::Right,
        ConstraintDirection::TopLeft => ConstraintDirection::BottomRight,
        ConstraintDirection::TopRight => ConstraintDirection::BottomLeft,
        ConstraintDirection::BottomLeft => ConstraintDirection::TopRight,
        ConstraintDirection::BottomRight => ConstraintDirection::TopLeft,
    }
}

/// The direction mirrored left to right.
pub open spec fn spec_flip_x(d: ConstraintDirection) -> ConstraintDirection {
    match d {
        ConstraintDirection::Top => ConstraintDirection::Top,
        ConstraintDirection::Right => ConstraintDirection::Left,
        ConstraintDirection::Bottom => ConstraintDirection::Bottom,
        ConstraintDirection::Left => ConstraintDirection::Right,
        ConstraintDirection::TopLeft => ConstraintDirection::TopRight,
        ConstraintDirection::TopRight => ConstraintDirection::TopLeft,
        ConstraintDirection::BottomLeft => ConstraintDirection::BottomRight,
        ConstraintDirection::BottomRight => ConstraintDirection::BottomLeft,
    }
}

/// The direction mirrored top to bottom.
pub open spec fn spec_flip_y(d: ConstraintDirection) -> ConstraintDirection {
    match d {
        ConstraintDirection::Top => ConstraintDirection::Bottom,
        ConstraintDirection::Right => ConstraintDirection::Right,
        ConstraintDirection::Bottom => ConstraintDirection::Top,
        ConstraintDirection::Left => ConstraintDirection::Left,
        ConstraintDirection::TopLeft => ConstraintDirection::BottomLeft,
        ConstraintDirection::TopRight => ConstraintDirection::BottomRight,
        ConstraintDirection::BottomLeft => ConstraintDirection::TopLeft,
        ConstraintDirection::BottomRight => ConstraintDirection::TopRight,
    }
}

/// The direction after a quarter turn of the pattern it belongs to.
pub open spec fn spec_rotate(d: ConstraintDirection) -> ConstraintDirection {
    match d {
        ConstraintDirection::Top => ConstraintDirection::Left,
        ConstraintDirection::Right => ConstraintDirection::Top,
        ConstraintDirection::Bottom => ConstraintDirection::Right,
        ConstraintDirection::Left => ConstraintDirection::Bottom,
        ConstraintDirection::TopLeft => ConstraintDirection::BottomLeft,
        ConstraintDirection::TopRight => ConstraintDirection::TopLeft,
        ConstraintDirection::BottomLeft => ConstraintDirection::BottomRight,
        ConstraintDirection::BottomRight => ConstraintDirection::TopRight,
    }
}

/// Position of a direction in declaration order.
pub open spec fn spec_direction_index(d: ConstraintDirection) -> int {
    match d {
        ConstraintDirection::Top => 0,
        ConstraintDirection::Right => 1,
        ConstraintDirection::Bottom => 2,
        ConstraintDirection::Left => 3,
        ConstraintDirection::TopLeft => 4,
        ConstraintDirection::TopRight => 5,
        ConstraintDirection::BottomLeft => 6,
        ConstraintDirection::BottomRight => 7,
    }
}

/// The direction at a position in declaration order.
pub open spec fn spec_direction_at(i: int) -> ConstraintDirection {
    if i == 0 {
        ConstraintDirection::Top
    } else if i == 1 {
        ConstraintDirection::Right
    } else if i == 2 {
        ConstraintDirection::Bottom
    } else if i == 3 {
        ConstraintDirection::Left
    } else if i == 4 {
        ConstraintDirection::TopLeft
    } else if i == 5 {
        ConstraintDirection::TopRight
    } else if i == 6 {
        ConstraintDirection::BottomLeft
    } else {
        ConstraintDirection::BottomRight
    }
}

impl ConstraintDirection {
    pub fn reverse(&self) -> (r: ConstraintDirection)
        ensures
            r == spec_reverse(*self),
    {
        match *self {
            ConstraintDirection::Top => ConstraintDirection::Bottom,
            ConstraintDirection::Right => ConstraintDirection::Left,
            ConstraintDirection::Bottom => ConstraintDirection::Top,
            ConstraintDirection::Left => ConstraintDirection::Right,
            ConstraintDirection::TopLeft => ConstraintDirection::BottomRight,
            ConstraintDirection::TopRight => ConstraintDirection::BottomLeft,
            ConstraintDirection::BottomLeft => ConstraintDirection::TopRight,
            ConstraintDirection::BottomRight => ConstraintDirection::TopLeft,
        }
    }

    pub fn flip_x(&self) -> (r: ConstraintDirection)
        ensures
            r == spec_flip_x(*self),
    {
        match *self {
            ConstraintDirection::Top => ConstraintDirection::Top,
            ConstraintDirection::Right => ConstraintDirection::Left,
            ConstraintDirection::Bottom => ConstraintDirection::Bottom,
            ConstraintDirection::Left => ConstraintDirection::Right,
            ConstraintDirection::TopLeft => ConstraintDirection::TopRight,
            ConstraintDirection::TopRight => ConstraintDirection::TopLeft,
            ConstraintDirection::BottomLeft => ConstraintDirection::BottomRight,
            ConstraintDirection::BottomRight => ConstraintDirection::BottomLeft,
        }
    }

    pub fn flip_y(&self) -> (r: ConstraintDirection)
        ensures
            r == spec_flip_y(*self),
    {
        match *self {
            ConstraintDirection::Top => ConstraintDirection::Bottom,
            ConstraintDirection::Right => ConstraintDirection::Right,
            ConstraintDirection::Bottom => ConstraintDirection::Top,
            ConstraintDirection::Left => ConstraintDirection::Left,
            ConstraintDirection::TopLeft => ConstraintDirection::BottomLeft,
            ConstraintDirection::TopRight => ConstraintDirection::BottomRight,
            ConstraintDirection::BottomLeft => ConstraintDirection::TopLeft,
            ConstraintDirection::BottomRight => ConstraintDirection::TopRight,
        }
    }

    /// The direction after a quarter turn of the pattern it belongs to.
    pub fn rotate(&self) -> (r: ConstraintDirection)
        ensures
            r == spec_rotate(*self),
    {
        match *self {
            ConstraintDirection::Top => ConstraintDirection::Left,
            ConstraintDirection::Right => ConstraintDirection::Top,
            ConstraintDirection::Bottom => ConstraintDirection::Right,
            ConstraintDirection::Left => ConstraintDirection::Bottom,
            ConstraintDirection::TopLeft => ConstraintDirection::BottomLeft,
            ConstraintDirection::TopRight => ConstraintDirection::TopLeft,
            ConstraintDirection::BottomLeft => ConstraintDirection::BottomRight,
            ConstraintDirection::BottomRight => ConstraintDirection::TopRight,
        }
    }

    /// Position of the direction in declaration order.
    pub fn index(&self) -> (r: usize)
        ensures
            r == spec_direction_index(*self),
            r < DIRECTION_COUNT,
    {
        match *self {
            ConstraintDirection::Top => 0,
            ConstraintDirection::Right => 1,
            ConstraintDirection::Bottom => 2,
            ConstraintDirection::Left => 3,
            ConstraintDirection::TopLeft => 4,
            ConstraintDirection::TopRight => 5,
            ConstraintDirection::BottomLeft => 6,
            ConstraintDirection::BottomRight => 7,
        }
    }

    /// The direction at position `i` in declaration order.
    pub fn from_index(i: usize) -> (r: ConstraintDirection)
        requires
            i < DIRECTION_COUNT,
        ensures
            r == spec_direction_at(i as int),
            spec_direction_index(r) == i,
    {
        if i == 0 {
            ConstraintDirection::Top
        } else if i == 1 {
            ConstraintDirection::Right
        } else if i == 2 {
            ConstraintDirection::Bottom
        } else if i == 3 {
            ConstraintDirection::Left
        } else if i == 4 {
            ConstraintDirection::TopLeft
        } else if i == 5 {
            ConstraintDirection::TopRight
        } else if i == 6 {
            ConstraintDirection::BottomLeft
        } else {
            ConstraintDirection::BottomRight
        }
    }
}

/// Reversing a direction twice gives it back.
pub proof fn lemma_reverse_involutive(d: ConstraintDirection)
    ensures
        spec_reverse(spec_reverse(d)) == d,
{
}

/// Mirroring left to right twice gives the direction back.
pub proof fn lemma_flip_x_involutive(d: ConstraintDirection)
    ensures
        spec_flip_x(spec_flip_x(d)) == d,
{
}

/// Mirroring top to bottom twice gives the direction back.
pub proof fn lemma_flip_y_involutive(d: ConstraintDirection)
    ensures
        spec_flip_y(spec_flip_y(d)) == d,
{
}

/// Mirroring in both axes, in either order, is reversing.
pub proof fn lemma_flips_compose_to_reverse(d: ConstraintDirection)
    ensures
        spec_flip_x(spec_flip_y(d)) == spec_reverse(d),
        spec_flip_y(spec_flip_x(d)) == spec_reverse(d),
{
}

/// Four quarter turns give the direction back, and a quarter turn commutes
/// with reversing.
pub proof fn lemma_rotate_laws(d: ConstraintDirection)
    ensures
        spec_rotate(spec_rotate(spec_rotate(spec_rotate(d)))) == d,
        spec_rotate(spec_rotate(d)) == spec_reverse(d),
        spec_rotate(spec_reverse(d)) == spec_reverse(spec_rotate(d)),
{
}

/// Every index below eight is that of a direction.
pub proof fn lemma_direction_at_index(i: int)
    requires
        0 <= i < 8,
    ensures
        spec_direction_index(spec_direction_at(i)) == i,
{
}

/// The index of a direction identifies it.
pub proof fn lemma_direction_index_bijective(d: ConstraintDirection, e: ConstraintDirection)
    ensures
        0 <= spec_direction_index(d) < 8,
        spec_direction_at(spec_direction_index(d)) == d,
        spec_direction_index(d) == spec_direction_index(e) ==> d == e,
{
}

} // verus!
