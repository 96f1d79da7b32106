use vstd::prelude::*;

use crate::world::grid::{copy_grid, flip_grid_x, flipped_x, grid_view, is_rect, lemma_transforms_rect, rotate_grid, rotated};
use crate::world::wfc::tile_grid::TileGrid;
use crate::world::world_tile_type::WorldTileType;
use crate::world::world_tile_type_flags::WorldTileTypeFlags;

verus! {

/// A pattern of tiles cut out of a reference grid, with how often it was
/// seen there.
#[derive(Debug)]
pub struct PatternData {
    pub size: [usize; 2],
    pub tiles: Vec<Vec<WorldTileType>>,
    pub occurrence_count: u32,
}

/// The positions `[x][y]` of a `w` by `h` pattern, `x` before `y`, whose
/// tile is in `flags`.
pub open spec fn occurrences(tiles: Seq<Seq<WorldTileType>>, w: int, h: int, flags: WorldTileTypeFlags) -> Seq<[usize; 2]>
    decreases w,
{
    if w <= 0 {
        Seq::empty()
    } else {
        occurrences(tiles, w - 1, h, flags) + column_occurrences(tiles, w - 1, h, flags)
    }
}

/// The positions `[x][y]` of column `x`, top to bottom, whose tile is in
/// `flags`.
pub open spec fn column_occurrences(tiles: Seq<Seq<WorldTileType>>, x: int, h: int, flags: WorldTileTypeFlags) -> Seq<[usize; 2]>
    decreases h,
{
    if h <= 0 {
        Seq::empty()
    } else {
        let before = column_occurrences(tiles, x, h - 1, flags);
        if flags.has(tiles[x][h - 1]) {
            before.push([x as usize, (h - 1) as usize])
        } else {
            before
        }
    }
}

/// The positions listed by `column_occurrences` lie in column `x` above row
/// `h`, and hold a tile of a type in `flags`.
pub proof fn lemma_column_occurrences_in_range(tiles: Seq<Seq<WorldTileType>>, x: int, h: int, flags: WorldTileTypeFlags)
    requires
        0 <= x <= usize::MAX,
        h <= usize::MAX,
    ensures
        forall|i: int|
            0 <= i < column_occurrences(tiles, x, h, flags).len() ==> (#[trigger] column_occurrences(tiles, x, h, flags)[i])[0] == x
                && column_occurrences(tiles, x, h, flags)[i][1] < h
                && flags.has(tiles[x][column_occurrences(tiles, x, h, flags)[i][1] as int]),
    decreases h,
{
    if h > 0 {
        lemma_column_occurrences_in_range(tiles, x, h - 1, flags);
        let e: [usize; 2] = [x as usize, (h - 1) as usize];
        assert(e[0] == x && e[1] == h - 1);
        let before = column_occurrences(tiles, x, h - 1, flags);
        if flags.has(tiles[x][h - 1]) {
            assert(column_occurrences(tiles, x, h, flags) == before.push(e));
        }
    }
}

/// The positions listed by `occurrences` lie inside the `w` by `h`
/// rectangle, and hold a tile of a type in `flags`.
pub proof fn lemma_occurrences_in_range(tiles: Seq<Seq<WorldTileType>>, w: int, h: int, flags: WorldTileTypeFlags)
    requires
        w <= usize::MAX,
        0 <= h <= usize::MAX,
    ensures
        forall|i: int|
            0 <= i < occurrences(tiles, w, h, flags).len() ==> (#[trigger] occurrences(tiles, w, h, flags)[i])[0] < w
                && occurrences(tiles, w, h, flags)[i][1] < h
                && flags.has(tiles[occurrences(tiles, w, h, flags)[i][0] as int][occurrences(tiles, w, h, flags)[i][1] as int]),
    decreases w,
{
    if w > 0 {
        lemma_occurrences_in_range(tiles, w - 1, h, flags);
        lemma_column_occurrences_in_range(tiles, w - 1, h, flags);
        let a = occurrences(tiles, w - 1, h, flags);
        let b = column_occurrences(tiles, w - 1, h, flags);
        assert forall|i: int| 0 <= i < (a + b).len() implies (#[trigger] (a + b)[i])[0] < w && (a + b)[i][1] < h
            && flags.has(tiles[(a + b)[i][0] as int][(a + b)[i][1] as int]) by {
            if i >= a.len() {
                assert((a + b)[i] == b[i - a.len()]);
            }
        }
    }
}

/// Every position of column `x` above row `h` that holds a tile of a type
/// in `flags` is listed by `column_occurrences`.
pub proof fn lemma_column_occurrences_complete(tiles: Seq<Seq<WorldTileType>>, x: int, h: int, flags: WorldTileTypeFlags, y: int)
    requires
        0 <= x <= usize::MAX,
        0 <= y < h <= usize::MAX + 1,
        flags.has(tiles[x][y]),
    ensures
        exists|j: int|
            0 <= j < column_occurrences(tiles, x, h, flags).len() && (#[trigger] column_occurrences(tiles, x, h, flags)[j])[0]
                == x && column_occurrences(tiles, x, h, flags)[j][1] == y,
    decreases h,
{
    let before = column_occurrences(tiles, x, h - 1, flags);
    if y < h - 1 {
        lemma_column_occurrences_complete(tiles, x, h - 1, flags, y);
        let j = choose|j: int| 0 <= j < before.len() && (#[trigger] before[j])[0] == x && before[j][1] == y;
        assert(column_occurrences(tiles, x, h, flags)[j] == before[j]);
    } else {
        let e: [usize; 2] = [x as usize, (h - 1) as usize];
        assert(column_occurrences(tiles, x, h, flags) == before.push(e));
        assert(column_occurrences(tiles, x, h, flags)[before.len() as int] == e);
    }
}

/// Every position inside the `w` by `h` rectangle that holds a tile of a
/// type in `flags` is listed by `occurrences`.
pub proof fn lemma_occurrences_complete(tiles: Seq<Seq<WorldTileType>>, w: int, h: int, flags: WorldTileTypeFlags, x: int, y: int)
    requires
        0 <= x < w <= usize::MAX + 1,
        0 <= y < h <= usize::MAX + 1,
        flags.has(tiles[x][y]),
    ensures
        exists|j: int|
            0 <= j < occurrences(tiles, w, h, flags).len() && (#[trigger] occurrences(tiles, w, h, flags)[j])[0] == x
                && occurrences(tiles, w, h, flags)[j][1] == y,
    decreases w,
{
    let a = occurrences(tiles, w - 1, h, flags);
    let b = column_occurrences(tiles, w - 1, h, flags);
    assert(occurrences(tiles, w, h, flags) == a + b);
    if x < w - 1 {
        lemma_occurrences_complete(tiles, w - 1, h, flags, x, y);
        let j = choose|j: int| 0 <= j < a.len() && (#[trigger] a[j])[0] == x && a[j][1] == y;
        assert((a + b)[j] == a[j]);
    } else {
        lemma_column_occurrences_complete(tiles, x, h, flags, y);
        let j = choose|j: int| 0 <= j < b.len() && (#[trigger] b[j])[0] == x && b[j][1] == y;
        assert((a + b)[a.len() + j] == b[j]);
    }
}

impl PatternData {
    /// The size of the pattern, `[columns, rows]`.
    pub open spec fn size(&self) -> [usize; 2] {
        self.size
    }

    /// How often the pattern was seen.
    pub open spec fn count(&self) -> u32 {
        self.occurrence_count
    }

    /// The tiles of the pattern.
    pub open spec fn tile_view(&self) -> Seq<Seq<WorldTileType>> {
        grid_view(self.tiles@)
    }

    /// The tiles fill a rectangle of the pattern's size.
    pub open spec fn well_formed(&self) -> bool {
        is_rect(self.tile_view(), self.size()[0] as int, self.size()[1] as int)
    }

    pub fn new(tiles: Vec<Vec<WorldTileType>>, size: [usize; 2], occurrence_count: u32) -> (r: Self)
        ensures
            r.tile_view() == grid_view(tiles@),
            r.size() == size,
            r.count() == occurrence_count,
    {
        PatternData { tiles, size, occurrence_count }
    }

    /// The pattern turned a quarter, with the same count.
    pub fn rotation(&self) -> (r: PatternData)
        requires
            self.well_formed(),
        ensures
            r.tile_view() == rotated(self.tile_view(), self.size()[0] as int, self.size()[1] as int),
            r.size() == [self.size()[1], self.size()[0]],
            r.count() == self.count(),
            r.well_formed(),
    {
        proof {
            lemma_transforms_rect(self.tile_view(), self.size[0] as int, self.size[1] as int);
        }
        PatternData {
            tiles: rotate_grid(&self.tiles, self.size[0], self.size[1]),
            size: [self.size[1], self.size[0]],
            occurrence_count: self.occurrence_count,
        }
    }

    /// The pattern mirrored along its first axis, with the same count.
    pub fn flip_x(&self) -> (r: PatternData)
        requires
            self.well_formed(),
        ensures
            r.tile_view() == flipped_x(self.tile_view(), self.size()[0] as int, self.size()[1] as int),
            r.size() == self.size(),
            r.count() == self.count(),
            r.well_formed(),
    {
        proof {
            lemma_transforms_rect(self.tile_view(), self.size[0] as int, self.size[1] as int);
        }
        PatternData {
            tiles: flip_grid_x(&self.tiles, self.size[0], self.size[1]),
            size: self.size,
            occurrence_count: self.occurrence_count,
        }
    }

    /// The pattern as a tile grid of its size.
    pub fn to_grid(&self) -> (r: TileGrid)
        ensures
            r.tiles() == self.tile_view(),
            r.grid_size == self.size(),
    {
        TileGrid { data: copy_grid(&self.tiles), grid_size: self.size }
    }

    pub fn get_size(&self) -> (r: [usize; 2])
        ensures
            r == self.size(),
    {
        self.size
    }

    pub fn get_tile_type(&self, position: [usize; 2]) -> (r: WorldTileType)
        requires
            position[0] < self.tile_view().len(),
            position[1] < self.tile_view()[position[0] as int].len(),
        ensures
            r == self.tile_view()[position[0] as int][position[1] as int],
    {
        self.tiles[position[0]][position[1]]
    }

    /// The positions in the pattern, column by column and top to bottom
    /// within a column, whose tile is in `type_flags`.
    pub fn get_tile_occurances(&self, type_flags: WorldTileTypeFlags) -> (r: Vec<[usize; 2]>)
        requires
            self.well_formed(),
        ensures
            r@ == occurrences(self.tile_view(), self.size()[0] as int, self.size()[1] as int, type_flags),
    {
        let size = self.size;
        let mut r: Vec<[usize; 2]> = Vec::new();
        let mut x: usize = 0;
        while x < size[0]
            invariant
                self.well_formed(),
                size == self.size(),
                x <= size[0],
                r@ == occurrences(self.tile_view(), x as int, size[1] as int, type_flags),
            decreases size[0] - x,
        {
            let ghost front = r@;
            let mut y: usize = 0;
            while y < size[1]
                invariant
                    self.well_formed(),
                    size == self.size(),
                    x < size[0],
                    y <= size[1],
                    r@ == front + column_occurrences(self.tile_view(), x as int, y as int, type_flags),
                decreases size[1] - y,
            {
                assert(self.tile_view()[x as int].len() == size[1]);
                let tile = self.tiles[x][y];
                if type_flags.contains(WorldTileTypeFlags::from_tile_type(tile)) {
                    r.push([x, y]);
                }
                y += 1;
                proof {
                    crate::world::world_tile_type_flags::lemma_contains_bit(type_flags@);
                }
                assert(r@ =~= front + column_occurrences(self.tile_view(), x as int, y as int, type_flags));
            }
            x += 1;
        }
        r
    }
}

} // verus!
