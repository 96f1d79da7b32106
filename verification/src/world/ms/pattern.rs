use vstd::prelude::*;

use crate::game::world_tile_type::WorldTileType;
use crate::world::grid::{
    copy_grid, flip_grid_x, flip_grid_y, flipped_x, flipped_y, grid_view, is_rect,
    lemma_transforms_rect, rotate_grid, rotated,
};
use crate::world::tile_grid::TileGrid;

verus! {

/// A rectangle of tiles cut out of a reference grid, stored column by column.
#[derive(Debug, Clone)]
pub struct Pattern {
    pub tiles: Vec<Vec<WorldTileType>>,
    pub size: [usize; 2],
}

/// What two patterns are compared by: their tiles and their size.
pub type PatternValue = (Seq<Seq<WorldTileType>>, [usize; 2]);

/// A quarter turn of a pattern value.
pub open spec fn rotated_value(v: PatternValue) -> PatternValue {
    (rotated(v.0, v.1[0] as int, v.1[1] as int), [v.1[1], v.1[0]])
}

/// A pattern value mirrored along the first axis.
pub open spec fn flipped_x_value(v: PatternValue) -> PatternValue {
    (flipped_x(v.0, v.1[0] as int, v.1[1] as int), v.1)
}

/// A pattern value mirrored along the second axis.
pub open spec fn flipped_y_value(v: PatternValue) -> PatternValue {
    (flipped_y(v.0, v.1[0] as int, v.1[1] as int), v.1)
}

/// The tiles of `v` fill a rectangle of its size.
pub open spec fn value_well_formed(v: PatternValue) -> bool {
    is_rect(v.0, v.1[0] as int, v.1[1] as int)
}

/// The transforms keep a value well formed.
pub proof fn lemma_value_transforms_well_formed(v: PatternValue)
    requires
        value_well_formed(v),
    ensures
        value_well_formed(rotated_value(v)),
        value_well_formed(flipped_x_value(v)),
        value_well_formed(flipped_y_value(v)),
{
    lemma_transforms_rect(v.0, v.1[0] as int, v.1[1] as int);
}

/// The symmetries under which constraints between patterns carry over.
#[derive(Debug, Clone, Copy, PartialEq, Eq, Structural)]
pub enum PatternTransform {
    Rotation,
    FlipX,
    FlipY,
    FlipXY,
}

/// A pattern value under a transform; the double flip mirrors along the
/// first axis, then the second.
pub open spec fn transform_value(t: PatternTransform, v: PatternValue) -> PatternValue {
    match t {
        PatternTransform::Rotation => rotated_value(v),
        PatternTransform::FlipX => flipped_x_value(v),
        PatternTransform::FlipY => flipped_y_value(v),
        PatternTransform::FlipXY => flipped_y_value(flipped_x_value(v)),
    }
}

/// A direction under a transform.
pub open spec fn transform_direction(
    t: PatternTransform,
    d: crate::world::ms::constraint::ConstraintDirection,
) -> crate::world::ms::constraint::ConstraintDirection {
    match t {
        PatternTransform::Rotation => crate::world::ms::constraint::spec_rotate(d),
        PatternTransform::FlipX => crate::world::ms::constraint::spec_flip_x(d),
        PatternTransform::FlipY => crate::world::ms::constraint::spec_flip_y(d),
        PatternTransform::FlipXY => crate::world::ms::constraint::spec_reverse(d),
    }
}

/// The transforms keep a value well formed.
pub proof fn lemma_transform_well_formed(t: PatternTransform, v: PatternValue)
    requires
        value_well_formed(v),
    ensures
        value_well_formed(transform_value(t, v)),
{
    lemma_value_transforms_well_formed(v);
    lemma_value_transforms_well_formed(flipped_x_value(v));
}

impl PatternTransform {
    /// The direction under the transform.
    pub fn direction(
        &self,
        d: crate::world::ms::constraint::ConstraintDirection,
    ) -> (r: crate::world::ms::constraint::ConstraintDirection)
        ensures
            r == transform_direction(*self, d),
    {
        match *self {
            PatternTransform::Rotation => d.rotate(),
            PatternTransform::FlipX => d.flip_x(),
            PatternTransform::FlipY => d.flip_y(),
            PatternTransform::FlipXY => d.reverse(),
        }
    }
}

impl Pattern {
    /// The pattern under a transform.
    pub fn transformed(&self, t: PatternTransform) -> (r: Self)
        requires
            self.well_formed(),
        ensures
            r.value() == transform_value(t, self.value()),
            r.well_formed(),
    {
        match t {
            PatternTransform::Rotation => self.get_rotation(),
            PatternTransform::FlipX => self.flip_x(),
            PatternTransform::FlipY => self.flip_y(),
            PatternTransform::FlipXY => self.flip_x().flip_y(),
        }
    }

    /// The tiles and size of the pattern.
    pub open spec fn value(&self) -> PatternValue {
        (grid_view(self.tiles@), self.size)
    }

    /// The tiles fill a rectangle of the pattern's size.
    pub open spec fn well_formed(&self) -> bool {
        value_well_formed(self.value())
    }

    /// The pattern as a tile grid sized by its columns.
    pub fn get_grid(&self) -> (r: TileGrid)
        requires
            self.tiles.len() > 0,
        ensures
            r.tiles() == grid_view(self.tiles@),
            r.grid_size == [self.tiles.len(), self.tiles@[0].len()],
    {
        TileGrid { data: copy_grid(&self.tiles), grid_size: [self.tiles.len(), self.tiles[0].len()] }
    }

    /// The pattern turned a quarter.
    pub fn get_rotation(&self) -> (r: Self)
        requires
            self.well_formed(),
        ensures
            r.value() == rotated_value(self.value()),
            r.well_formed(),
    {
        proof {
            lemma_value_transforms_well_formed(self.value());
        }
        let tiles = rotate_grid(&self.tiles, self.size[0], self.size[1]);
        Pattern { tiles, size: [self.size[1], self.size[0]] }
    }

    /// The pattern mirrored along its first axis.
    pub fn flip_x(&self) -> (r: Self)
        requires
            self.well_formed(),
        ensures
            r.value() == flipped_x_value(self.value()),
            r.well_formed(),
    {
        proof {
            lemma_value_transforms_well_formed(self.value());
        }
        let tiles = flip_grid_x(&self.tiles, self.size[0], self.size[1]);
        Pattern { tiles, size: self.size }
    }

    /// The pattern mirrored along its second axis.
    pub fn flip_y(&self) -> (r: Self)
        requires
            self.well_formed(),
        ensures
            r.value() == flipped_y_value(self.value()),
            r.well_formed(),
    {
        proof {
            lemma_value_transforms_well_formed(self.value());
        }
        let tiles = flip_grid_y(&self.tiles, self.size[0], self.size[1]);
        Pattern { tiles, size: self.size }
    }

    /// A copy of the pattern.
    pub fn copy(&self) -> (r: Self)
        ensures
            r.value() == self.value(),
    {
        Pattern { tiles: copy_grid(&self.tiles), size: self.size }
    }

    /// Whether two patterns have the same tiles and size.
    pub fn same_as(&self, other: &Self) -> (r: bool)
        ensures
            r == (self.value() == other.value()),
    {
        if self.size[0] != other.size[0] || self.size[1] != other.size[1] {
            proof {
                assert(self.value().1[0] != other.value().1[0] || self.value().1[1]
                    != other.value().1[1]);
            }
            return false;
        }
        assert(self.size =~= other.size);
        if self.tiles.len() != other.tiles.len() {
            assert(grid_view(self.tiles@).len() != grid_view(other.tiles@).len());
            return false;
        }
        let mut x: usize = 0;
        while x < self.tiles.len()
            invariant
                x <= self.tiles.len(),
                self.tiles.len() == other.tiles.len(),
                forall|i: int| 0 <= i < x ==> #[trigger] self.tiles@[i]@ == other.tiles@[i]@,
            decreases self.tiles.len() - x,
        {
            if !same_column(&self.tiles[x], &other.tiles[x]) {
                assert(grid_view(self.tiles@)[x as int] != grid_view(other.tiles@)[x as int]);
                return false;
            }
            x += 1;
        }
        assert(grid_view(self.tiles@) =~= grid_view(other.tiles@));
        true
    }
}

/// Whether two columns hold the same tiles.
fn same_column(a: &Vec<WorldTileType>, b: &Vec<WorldTileType>) -> (r: bool)
    ensures
        r == (a@ == b@),
{
    if a.len() != b.len() {
        return false;
    }
    let mut y: usize = 0;
    while y < a.len()
        invariant
            y <= a.len(),
            a.len() == b.len(),
            forall|i: int| 0 <= i < y ==> a@[i] == b@[i],
        decreases a.len() - y,
    {
        if a[y] != b[y] {
            return false;
        }
        y += 1;
    }
    assert(a@ =~= b@);
    true
}

} // verus!
