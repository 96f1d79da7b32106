use vstd::prelude::*;

use crate::world::world_tile_type::WorldTileType;
use crate::world::world_tile_type_flags::WorldTileTypeFlags;

verus! {

/// A three by three pattern of tiles, stored row by row: the tile at
/// `[x][y]` is `tiles[x + 3 * y]`.
pub struct WfcPattern {
    tiles: [WorldTileType; 9],
}

impl WfcPattern {
    /// The tiles, row by row.
    pub closed spec fn tile_seq(&self) -> Seq<WorldTileType> {
        self.tiles@
    }

    /// The pattern whose columns are the first three tiles of the three
    /// slices.
    pub fn new_from_slices(
        x_slice_1: &[WorldTileType],
        x_slice_2: &[WorldTileType],
        x_slice_3: &[WorldTileType],
    ) -> (r: Self)
        requires
            x_slice_1@.len() >= 3,
            x_slice_2@.len() >= 3,
            x_slice_3@.len() >= 3,
        ensures
            r.tile_seq() == seq![
                x_slice_1@[0],
                x_slice_2@[0],
                x_slice_3@[0],
                x_slice_1@[1],
                x_slice_2@[1],
                x_slice_3@[1],
                x_slice_1@[2],
                x_slice_2@[2],
                x_slice_3@[2],
            ],
    {
        let r = WfcPattern {
            tiles: [
                x_slice_1[0],
                x_slice_2[0],
                x_slice_3[0],
                x_slice_1[1],
                x_slice_2[1],
                x_slice_3[1],
                x_slice_1[2],
                x_slice_2[2],
                x_slice_3[2],
            ],
        };
        assert(r.tile_seq() =~= seq![
            x_slice_1@[0],
            x_slice_2@[0],
            x_slice_3@[0],
            x_slice_1@[1],
            x_slice_2@[1],
            x_slice_3@[1],
            x_slice_1@[2],
            x_slice_2@[2],
            x_slice_3@[2],
        ]);
        r
    }

    /// The pattern mirrored along its diagonal: the tile at `[x][y]` moves
    /// to `[y][x]`.
    pub fn rotation(&self) -> (r: Self)
        ensures
            forall|x: int, y: int|
                0 <= x < 3 && 0 <= y < 3 ==> #[trigger] r.tile_seq()[x + 3 * y] == self.tile_seq()[y + 3 * x],
    {
        WfcPattern {
            tiles: [
                self.tiles[0],
                self.tiles[3],
                self.tiles[6],
                self.tiles[1],
                self.tiles[4],
                self.tiles[7],
                self.tiles[2],
                self.tiles[5],
                self.tiles[8],
            ],
        }
    }

    /// The tile at `[x][y]`.
    pub fn get_type_at(&self, x: usize, y: usize) -> (r: WorldTileType)
        requires
            x + y * 3 < 9,
        ensures
            r == self.tile_seq()[x + y * 3],
    {
        self.tiles[x + y * 3]
    }

    /// Whether every tile of the pattern lies in the flags given for its
    /// position, where `slices` gives flags for it.
    pub fn pattern_fits(&self, slices: &[&[WorldTileTypeFlags]]) -> (r: bool)
        ensures
            r == (forall|x: int, y: int|
                0 <= x < 3 && 0 <= y < 3 && x < slices@.len() && y < slices@[x]@.len() ==> #[trigger] slices@[x]@[y].has(
                    self.tile_seq()[x + y * 3],
                )),
    {
        let mut x: usize = 0;
        while x < 3
            invariant
                x <= 3,
                forall|x1: int, y: int|
                    0 <= x1 < x && 0 <= y < 3 && x1 < slices@.len() && y < slices@[x1]@.len() ==> #[trigger] slices@[x1]@[y].has(
                        self.tile_seq()[x1 + y * 3],
                    ),
            decreases 3 - x,
        {
            let mut y: usize = 0;
            while y < 3
                invariant
                    x < 3,
                    y <= 3,
                    forall|x1: int, y1: int|
                        0 <= x1 < x && 0 <= y1 < 3 && x1 < slices@.len() && y1 < slices@[x1]@.len()
                            ==> #[trigger] slices@[x1]@[y1].has(self.tile_seq()[x1 + y1 * 3]),
                    forall|y1: int|
                        0 <= y1 < y && x < slices@.len() && y1 < slices@[x as int]@.len()
                            ==> #[trigger] slices@[x as int]@[y1].has(self.tile_seq()[x + y1 * 3]),
                decreases 3 - y,
            {
                if x < slices.len() && y < slices[x].len() {
                    let tile_type_flags = slices[x][y];
                    let tile_type = self.tiles[x + y * 3];
                    proof {
                        crate::world::world_tile_type_flags::lemma_contains_bit(tile_type_flags@);
                    }
                    assert(tile_type == self.tile_seq()[x + y * 3]);
                    assert(tile_type_flags == slices@[x as int]@[y as int]);
                    if !tile_type_flags.contains(WorldTileTypeFlags::from_tile_type(tile_type)) {
                        assert(!slices@[x as int]@[y as int].has(self.tile_seq()[x + y * 3]));
                        return false;
                    }
                }
                y += 1;
            }
            x += 1;
        }
        true
    }
}

} // verus!
