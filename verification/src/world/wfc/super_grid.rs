use vstd::prelude::*;

use crate::world::grid::{grid_view, is_rect};
use crate::world::sums::{lemma_sum_nonneg, lemma_sum_update, sum_int};
use crate::world::tile_grid::{filled_grid, filled_rows};
use crate::world::wfc::pattern_palette::{palette_occurrences, PatternId, PatternPalette};
use crate::world::wfc::pattern_store::{all_square_patterns, store_capacity, PatternStore};
use crate::world::wfc::tile_grid::TileGrid;
use crate::world::world_tile_type::WorldTileType;
use crate::world::world_tile_type_flags::{all_bits, tile_bit, tile_type_of_bits, WorldTileTypeFlags};

verus! {

/// The number of tile types still possible, summed over a column of cells.
pub open spec fn column_types(c: Seq<WorldTileTypeFlags>) -> int {
    sum_int(Seq::new(c.len(), |y: int| c[y].type_count() as int))
}

/// The number of tile types still possible, summed over a grid of cells.
pub open spec fn type_total(g: Seq<Seq<WorldTileTypeFlags>>) -> int {
    sum_int(Seq::new(g.len(), |x: int| column_types(g[x])))
}

/// Changing one cell changes the total by the difference of its counts.
pub proof fn lemma_type_total_update(g1: Seq<Seq<WorldTileTypeFlags>>, x: int, y: int, v: WorldTileTypeFlags)
    requires
        0 <= x < g1.len(),
        0 <= y < g1[x].len(),
    ensures
        type_total(g1.update(x, g1[x].update(y, v))) == type_total(g1) - g1[x][y].type_count() + v.type_count(),
{
    let g2 = g1.update(x, g1[x].update(y, v));
    let c1 = g1[x];
    let s0 = Seq::new(c1.len(), |j: int| c1[j].type_count() as int);
    lemma_sum_update(s0, y, v.type_count() as int);
    assert(Seq::new(g2[x].len(), |j: int| g2[x][j].type_count() as int) =~= s0.update(y, v.type_count() as int));
    let s1 = Seq::new(g1.len(), |i: int| column_types(g1[i]));
    lemma_sum_update(s1, x, column_types(g2[x]));
    assert(Seq::new(g2.len(), |i: int| column_types(g2[i])) =~= s1.update(x, column_types(g2[x])));
}

/// The total is never negative.
pub proof fn lemma_type_total_nonneg(g: Seq<Seq<WorldTileTypeFlags>>)
    ensures
        type_total(g) >= 0,
{
    assert forall|x: int| 0 <= x < g.len() implies #[trigger] column_types(g[x]) >= 0 by {
        lemma_sum_nonneg(Seq::new(g[x].len(), |y: int| g[x][y].type_count() as int));
    }
    lemma_sum_nonneg(Seq::new(g.len(), |x: int| column_types(g[x])));
}

/// Keeping only some of the types of a well-formed set, and losing at least
/// one, lowers its count.
pub proof fn lemma_narrowing_lowers_count(a: WorldTileTypeFlags, b: WorldTileTypeFlags)
    requires
        a.well_formed(),
        b.well_formed(),
        b@ & a@ == b@,
        a@ != b@,
    ensures
        b.type_count() < a.type_count(),
{
    lemma_strict_subset_bits(a@, b@);
}

/// A strict subset of the type bits misses one of them.
proof fn lemma_strict_subset_bits(a: u8, b: u8)
    by (bit_vector)
    requires
        a & 131 == 0,
        b & 131 == 0,
        b & a == b,
        a != b,
    ensures
        b & 4 != 0 ==> a & 4 != 0,
        b & 8 != 0 ==> a & 8 != 0,
        b & 16 != 0 ==> a & 16 != 0,
        b & 32 != 0 ==> a & 32 != 0,
        b & 64 != 0 ==> a & 64 != 0,
        (a & 4 != 0 && b & 4 == 0) || (a & 8 != 0 && b & 8 == 0) || (a & 16 != 0 && b & 16 == 0)
            || (a & 32 != 0 && b & 32 == 0) || (a & 64 != 0 && b & 64 == 0),
{
}

/// A grid of cells, each with the tile types it may still take, over which
/// the patterns of a palette are placed.
pub struct SuperGrid {
    grid: Vec<Vec<WorldTileTypeFlags>>,
    pattern_palette: PatternPalette,
    pattern_store: PatternStore,
    size: [usize; 2],
}

impl SuperGrid {
    /// The tile types each cell may still take.
    pub closed spec fn cells(&self) -> Seq<Seq<WorldTileTypeFlags>> {
        grid_view(self.grid@)
    }

    /// The size of the grid.
    pub closed spec fn grid_size(&self) -> [usize; 2] {
        self.size
    }

    /// The palette.
    pub closed spec fn palette(&self) -> &PatternPalette {
        &self.pattern_palette
    }

    /// The placement store.
    pub closed spec fn store(&self) -> &PatternStore {
        &self.pattern_store
    }

    /// The grid has the size it was made with, every cell holds a well formed
    /// set of types, and the store fits the palette and the grid.
    pub closed spec fn well_formed(&self) -> bool {
        &&& is_rect(self.cells(), self.size[0] as int, self.size[1] as int)
        &&& forall|x: int, y: int|
            0 <= x < self.size[0] && 0 <= y < self.size[1] ==> (#[trigger] self.cells()[x][y]).well_formed()
        &&& self.pattern_store.well_formed(&self.pattern_palette)
        &&& self.pattern_store.grid_size() == self.size
    }

    /// A grid of `size` cells that may take every tile type, with every
    /// placement of every pattern possible.
    pub fn new_empty(pattern_palette: PatternPalette, size: [usize; 2]) -> (r: Self)
        requires
            pattern_palette.well_formed(),
            forall|i: int| 0 <= i < pattern_palette.pattern_count() ==> 1 <= size[0] + (#[trigger] pattern_palette.size_of(i))[0] <= usize::MAX,
            forall|i: int| 0 <= i < pattern_palette.pattern_count() ==> 1 <= size[1] + (#[trigger] pattern_palette.size_of(i))[1] <= usize::MAX,
            store_capacity(&pattern_palette, size) <= usize::MAX,
        ensures
            r.well_formed(),
            r.grid_size() == size,
            r.cells() == filled_grid(WorldTileTypeFlags::spec_all(), size[0] as int, size[1] as int),
            *r.palette() == pattern_palette,
            placements_agree(r.store().tables(), r.cells(), r.palette(), r.grid_size()),
    {
        let grid = filled_rows(WorldTileTypeFlags::all(), size[0], size[1]);
        let pattern_store = PatternStore::new(&pattern_palette, size);
        let r = SuperGrid { grid, pattern_store, pattern_palette, size };
        proof {
            crate::world::world_tile_type_flags::lemma_flag_bits(124, 0);
            assert forall|x: int, y: int| 0 <= x < size[0] && 0 <= y < size[1] implies (#[trigger] r.cells()[x][y]).well_formed() by {
                assert(r.cells()[x][y] == WorldTileTypeFlags::spec_all());
            }
            WorldTileTypeFlags::lemma_spec_all();
            let t = r.pattern_store.tables();
            let cells = r.cells();
            let palette = &r.pattern_palette;
            assert forall|i: int, px: int, py: int, cx: int, cy: int|
                #![trigger t[i][px][py], cells[cx][cy]]
                0 <= i < t.len() && 0 <= px < t[i].len() && 0 <= py < t[i][px].len() && t[i][px][py] && 0 <= cx < size[0]
                    && 0 <= cy < size[1] && px - palette.size_of(i)[0] + 1 <= cx <= px && py - palette.size_of(i)[1] + 1 <= cy
                    <= py implies cells[cx][cy].has(tile_on(palette, i, px, py, cx, cy)) by {
                assert(cells[cx][cy] == WorldTileTypeFlags::spec_all());
                lemma_all_has(tile_bit(tile_on(palette, i, px, py, cx, cy)));
            }
        }
        r
    }

    /// The grid of the tile types the cells stand for.
    pub fn to_tile_grid(&self) -> (r: TileGrid)
        requires
            self.well_formed(),
        ensures
            r.grid_size == self.grid_size(),
            r.tiles() == Seq::new(
                self.grid_size()[0] as nat,
                |x: int| Seq::new(self.grid_size()[1] as nat, |y: int| tile_type_of_bits(self.cells()[x][y]@)),
            ),
    {
        let mut data: Vec<Vec<WorldTileType>> = Vec::new();
        let mut x: usize = 0;
        while x < self.grid.len()
            invariant
                self.well_formed(),
                x <= self.grid_size()[0],
                data.len() == x,
                forall|i: int| 0 <= i < x ==> #[trigger] data@[i]@ == Seq::new(self.grid_size()[1] as nat, |y: int| tile_type_of_bits(self.cells()[i][y]@)),
            decreases self.grid_size()[0] - x,
        {
            assert(self.cells()[x as int] == self.grid@[x as int]@);
            let mut column: Vec<WorldTileType> = Vec::new();
            let mut y: usize = 0;
            while y < self.grid[x].len()
                invariant
                    self.well_formed(),
                    x < self.grid_size()[0],
                    self.cells()[x as int] == self.grid@[x as int]@,
                    y <= self.grid_size()[1],
                    column@ == Seq::new(y as nat, |j: int| tile_type_of_bits(self.cells()[x as int][j]@)),
                decreases self.grid_size()[1] - y,
            {
                column.push(self.grid[x][y].get_tile_type());
                y += 1;
                assert(column@ =~= Seq::new(y as nat, |j: int| tile_type_of_bits(self.cells()[x as int][j]@)));
            }
            data.push(column);
            x += 1;
        }
        let r = TileGrid { data, grid_size: self.size };
        assert(r.tiles() =~= Seq::new(
            self.grid_size()[0] as nat,
            |x: int| Seq::new(self.grid_size()[1] as nat, |y: int| tile_type_of_bits(self.cells()[x][y]@)),
        ));
        r
    }
}


/// Every entry of `t` is an entry of `u` of the same shape, and none is set
/// that is not set in `u`.
pub open spec fn tables_within(t: Seq<Seq<Seq<bool>>>, u: Seq<Seq<Seq<bool>>>) -> bool {
    &&& t.len() == u.len()
    &&& forall|i: int| 0 <= i < t.len() ==> (#[trigger] t[i]).len() == u[i].len()
    &&& forall|i: int, x: int| 0 <= i < t.len() && 0 <= x < t[i].len() ==> (#[trigger] t[i][x]).len() == u[i][x].len()
    &&& forall|i: int, x: int, y: int|
        0 <= i < t.len() && 0 <= x < t[i].len() && 0 <= y < t[i][x].len() && #[trigger] t[i][x][y] ==> u[i][x][y]
}

/// Clearing one entry keeps the tables within.
pub proof fn lemma_clear_within(t: Seq<Seq<Seq<bool>>>, u: Seq<Seq<Seq<bool>>>, i: int, x: int, y: int)
    requires
        tables_within(t, u),
        0 <= i < t.len(),
        0 <= x < t[i].len(),
        0 <= y < t[i][x].len(),
    ensures
        tables_within(t.update(i, t[i].update(x, t[i][x].update(y, false))), u),
{
    let t2 = t.update(i, t[i].update(x, t[i][x].update(y, false)));
    assert forall|j: int, a: int, b: int|
        0 <= j < t2.len() && 0 <= a < t2[j].len() && 0 <= b < t2[j][a].len() && #[trigger] t2[j][a][b] implies u[j][a][b] by {
        assert(t[j][a][b]);
    }
}

/// Narrowing is transitive.
proof fn lemma_subset_trans(a: u8, b: u8, c: u8)
    by (bit_vector)
    requires
        c & b == c,
        b & a == b,
    ensures
        c & a == c,
{
}

/// Every set of bits is within itself, and an intersection is within both
/// sides.
proof fn lemma_intersection_within(a: u8, b: u8)
    by (bit_vector)
    ensures
        a & a == a,
        (a & b) & a == a & b,
        (a & b) & b == a & b,
        a & (a & b) == a & b,
        a ^ a == 0,
{
}

/// Placement `[px][py]` of pattern `i`, indexed as in the store's tables by
/// the cell of its last tile, puts on some cell of a `size` grid a tile of a
/// type that the cell does not allow.
pub open spec fn placement_conflicts(
    cells: Seq<Seq<WorldTileTypeFlags>>,
    palette: &PatternPalette,
    size: [usize; 2],
    i: int,
    px: int,
    py: int,
) -> bool {
    let s = palette.size_of(i);
    let ox = px - s[0] + 1;
    let oy = py - s[1] + 1;
    exists|cx: int, cy: int|
        0 <= cx < size[0] && 0 <= cy < size[1] && ox <= cx < ox + s[0] && oy <= cy < oy + s[1] && !(
        #[trigger] cells[cx][cy]).has(palette.tiles_of(i)[cx - ox][cy - oy])
}

/// Every placement ruled out in `t` but not in `u` conflicts with `cells`.
pub open spec fn ruled_out_conflict(
    t: Seq<Seq<Seq<bool>>>,
    u: Seq<Seq<Seq<bool>>>,
    cells: Seq<Seq<WorldTileTypeFlags>>,
    palette: &PatternPalette,
    size: [usize; 2],
) -> bool {
    forall|i: int, px: int, py: int|
        0 <= i < u.len() && 0 <= px < u[i].len() && 0 <= py < u[i][px].len() && u[i][px][py]
            && !#[trigger] t[i][px][py] ==> placement_conflicts(cells, palette, size, i, px, py)
}

/// A type left out of a set is left out of every subset.
proof fn lemma_subset_lacks(c2: u8, c1: u8, b: u8)
    by (bit_vector)
    requires
        c2 & c1 == c2,
        c1 & b == 0,
    ensures
        c2 & b == 0,
{
}

/// A set that shares nothing with `r` lacks every single type of `r`.
proof fn lemma_disjoint_lacks(c: u8, r: u8, b: u8)
    by (bit_vector)
    requires
        c & r == 0,
        r & b != 0,
        b == 4 || b == 8 || b == 16 || b == 32 || b == 64,
    ensures
        c & b == 0,
{
}

/// What narrowing a set to its part in `a` removes is disjoint from what is
/// left.
proof fn lemma_removed_disjoint(c: u8, a: u8)
    by (bit_vector)
    ensures
        (c & (c & a)) & (c ^ (c & a)) == 0,
        c & (c & a) == c & a,
{
}

/// A subset shares nothing with what separates it from its superset.
proof fn lemma_narrowed_disjoint(f: u8, c: u8)
    by (bit_vector)
    requires
        f & c == f,
    ensures
        f & (c ^ f) == 0,
{
}

/// Conflicts survive narrowing the cells.
proof fn lemma_conflicts_narrowed(
    t: Seq<Seq<Seq<bool>>>,
    u: Seq<Seq<Seq<bool>>>,
    c1: Seq<Seq<WorldTileTypeFlags>>,
    c2: Seq<Seq<WorldTileTypeFlags>>,
    palette: &PatternPalette,
    size: [usize; 2],
)
    requires
        ruled_out_conflict(t, u, c1, palette, size),
        forall|x: int, y: int|
            0 <= x < size[0] && 0 <= y < size[1] ==> #[trigger] c2[x][y]@ & c1[x][y]@ == c2[x][y]@,
    ensures
        ruled_out_conflict(t, u, c2, palette, size),
{
    assert forall|i: int, px: int, py: int|
        0 <= i < u.len() && 0 <= px < u[i].len() && 0 <= py < u[i][px].len() && u[i][px][py]
            && !#[trigger] t[i][px][py] implies placement_conflicts(c2, palette, size, i, px, py) by {
        let s = palette.size_of(i);
        let ox = px - s[0] + 1;
        let oy = py - s[1] + 1;
        assert(placement_conflicts(c1, palette, size, i, px, py));
        let (cx, cy) = choose|cx: int, cy: int|
            0 <= cx < size[0] && 0 <= cy < size[1] && ox <= cx < ox + s[0] && oy <= cy < oy + s[1] && !(
            #[trigger] c1[cx][cy]).has(palette.tiles_of(i)[cx - ox][cy - oy]);
        lemma_subset_lacks(c2[cx][cy]@, c1[cx][cy]@, tile_bit(palette.tiles_of(i)[cx - ox][cy - oy]));
        assert(!c2[cx][cy].has(palette.tiles_of(i)[cx - ox][cy - oy]));
    }
}

/// The tile types the store still offers at cell `p`, as
/// `get_possible_flags` computes them.
pub open spec fn offered(store: &PatternStore, palette: &PatternPalette, p: [usize; 2]) -> u8 {
    store.possible_through(palette, p, palette.max_size()[1] as int, palette.max_size()[0] as int, 0)
}

/// Cell `p` takes only tile types the store still offers there.
pub open spec fn settled(
    cells: Seq<Seq<WorldTileTypeFlags>>,
    store: &PatternStore,
    palette: &PatternPalette,
    p: [usize; 2],
) -> bool {
    cells[p[0] as int][p[1] as int]@ & offered(store, palette, p) == cells[p[0] as int][p[1] as int]@
}

/// Placement `[px][py]` of pattern `i`, indexed by the cell of its last
/// tile, lies over cell `p`.
pub open spec fn covers(palette: &PatternPalette, i: int, px: int, py: int, p: [usize; 2]) -> bool {
    let s = palette.size_of(i);
    px - s[0] + 1 <= p[0] <= px && py - s[1] + 1 <= p[1] <= py
}

/// Some placement ruled out in `t` but not in `u` lies over cell `p`.
pub open spec fn touched(t: Seq<Seq<Seq<bool>>>, u: Seq<Seq<Seq<bool>>>, palette: &PatternPalette, p: [usize; 2]) -> bool {
    exists|i: int, px: int, py: int|
        0 <= i < u.len() && 0 <= px < u[i].len() && 0 <= py < u[i][px].len() && u[i][px][py] && !t[i][px][py]
            && #[trigger] covers(palette, i, px, py, p)
}

/// Cell `p` is one of `v`.
pub open spec fn listed(v: Seq<[usize; 2]>, p: [usize; 2]) -> bool {
    exists|k: int| 0 <= k < v.len() && (#[trigger] v[k])[0] == p[0] && v[k][1] == p[1]
}

/// Every cell of a `size` grid under a placement ruled out in the store but
/// not in `u` takes only the types offered there, or is listed in `v`.
pub open spec fn settled_or_listed(
    u: Seq<Seq<Seq<bool>>>,
    cells: Seq<Seq<WorldTileTypeFlags>>,
    store: &PatternStore,
    palette: &PatternPalette,
    size: [usize; 2],
    v: Seq<[usize; 2]>,
) -> bool {
    forall|p: [usize; 2]|
        p[0] < size[0] && p[1] < size[1] && #[trigger] touched(store.tables(), u, palette, p) ==> settled(
            cells,
            store,
            palette,
            p,
        ) || listed(v, p)
}

/// A set that loses nothing to an intersection lies within the other side.
proof fn lemma_unchanged_within(c: u8, a: u8)
    by (bit_vector)
    requires
        c ^ (c & a) == 0,
    ensures
        c & a == c,
{
}

/// Ruling out one placement leaves every cell it does not lie over as
/// settled as it was, and touches no other cell.
proof fn lemma_disable_frame(
    s1: &PatternStore,
    s2: &PatternStore,
    palette: &PatternPalette,
    u: Seq<Seq<Seq<bool>>>,
    cells: Seq<Seq<WorldTileTypeFlags>>,
    i0: int,
    px0: int,
    py0: int,
    p: [usize; 2],
)
    requires
        s1.well_formed(palette),
        s2.well_formed(palette),
        s1.grid_size() == s2.grid_size(),
        p[0] < s1.grid_size()[0],
        p[1] < s1.grid_size()[1],
        0 <= i0 < s1.tables().len(),
        0 <= px0 < s1.tables()[i0].len(),
        0 <= py0 < s1.tables()[i0][px0].len(),
        s2.tables() == s1.tables().update(i0, s1.tables()[i0].update(px0, s1.tables()[i0][px0].update(py0, false))),
        tables_within(s1.tables(), u),
    ensures
        !covers(palette, i0, px0, py0, p) ==> settled(cells, s2, palette, p) == settled(cells, s1, palette, p),
        touched(s2.tables(), u, palette, p) ==> touched(s1.tables(), u, palette, p) || covers(palette, i0, px0, py0, p),
        !s1.tables()[i0][px0][py0] ==> settled(cells, s2, palette, p) == settled(cells, s1, palette, p) && touched(
            s2.tables(),
            u,
            palette,
            p,
        ) == touched(s1.tables(), u, palette, p),
{
    s1.lemma_tables_enabled(palette);
    s2.lemma_tables_enabled(palette);
    s1.lemma_bounds(palette);
    if !covers(palette, i0, px0, py0, p) {
        assert forall|i: int, a: int, b: int|
            0 <= i < palette.pattern_count() && 0 <= a < palette.size_of(i)[0] && 0 <= b < palette.size_of(i)[1]
                implies #[trigger] s1.enabled(i, p[0] + a, p[1] + b) == s2.enabled(i, p[0] + a, p[1] + b) by {
            assert(s1.tables()[i][p[0] + a][p[1] + b] == s2.tables()[i][p[0] + a][p[1] + b]);
        }
        PatternStore::lemma_possible_frame(
            s1,
            s2,
            palette,
            p,
            p,
            palette.max_size()[1] as int,
            palette.max_size()[0] as int,
            0,
        );
    }
    if touched(s2.tables(), u, palette, p) {
        let (i, px, py) = choose|i: int, px: int, py: int|
            0 <= i < u.len() && 0 <= px < u[i].len() && 0 <= py < u[i][px].len() && u[i][px][py]
                && !s2.tables()[i][px][py] && #[trigger] covers(palette, i, px, py, p);
        if (i, px, py) != (i0, px0, py0) {
            assert(s2.tables()[i][px][py] == s1.tables()[i][px][py]);
        }
    }
    if !s1.tables()[i0][px0][py0] {
        let t1 = s1.tables();
        assert(t1[i0][px0].update(py0, false) =~= t1[i0][px0]);
        assert(t1[i0].update(px0, t1[i0][px0]) =~= t1[i0]);
        assert(t1.update(i0, t1[i0]) =~= t1);
        assert(s2.tables() == s1.tables());
        assert forall|i: int, a: int, b: int|
            0 <= i < palette.pattern_count() && 0 <= a < palette.size_of(i)[0] && 0 <= b < palette.size_of(i)[1]
                implies #[trigger] s1.enabled(i, p[0] + a, p[1] + b) == s2.enabled(i, p[0] + a, p[1] + b) by {
            assert(s1.tables()[i][p[0] + a][p[1] + b] == s2.tables()[i][p[0] + a][p[1] + b]);
        }
        PatternStore::lemma_possible_frame(
            s1,
            s2,
            palette,
            p,
            p,
            palette.max_size()[1] as int,
            palette.max_size()[0] as int,
            0,
        );
    }
}

/// The tile that placement `[px][py]` of pattern `i`, indexed by the cell of
/// its last tile, puts on cell `[cx][cy]`.
pub open spec fn tile_on(palette: &PatternPalette, i: int, px: int, py: int, cx: int, cy: int) -> WorldTileType {
    let s = palette.size_of(i);
    palette.tiles_of(i)[cx - (px - s[0] + 1)][cy - (py - s[1] + 1)]
}

/// A removal of type `tt` from cell `[cx][cy]` is still queued on `q`.
pub open spec fn owed(q: Seq<([usize; 2], WorldTileTypeFlags)>, cx: int, cy: int, tt: WorldTileType) -> bool {
    exists|j: int| 0 <= j < q.len() && (#[trigger] q[j]).0[0] == cx && q[j].0[1] == cy && q[j].1.has(tt)
}

/// Pattern `i` at position `[a][b]` is among the occurrences `occ` from the
/// `k`-th on.
pub open spec fn occurs_from(occ: Seq<(PatternId, [usize; 2])>, k: int, i: int, a: int, b: int) -> bool {
    exists|j: int| k <= j < occ.len() && (#[trigger] occ[j]).0.0 == i && occ[j].1[0] == a && occ[j].1[1] == b
}

/// Every placement still possible in `t` puts on each cell of a `size` grid
/// that it lies over a type the cell holds, a type whose removal from that
/// cell is still queued on `q`, or, at cell `pos`, a type still to be ruled
/// out through the occurrences `occ` from the `k`-th on.
pub open spec fn agrees_but(
    t: Seq<Seq<Seq<bool>>>,
    cells: Seq<Seq<WorldTileTypeFlags>>,
    palette: &PatternPalette,
    size: [usize; 2],
    q: Seq<([usize; 2], WorldTileTypeFlags)>,
    pos: [usize; 2],
    occ: Seq<(PatternId, [usize; 2])>,
    k: int,
) -> bool {
    forall|i: int, px: int, py: int, cx: int, cy: int|
        #![trigger t[i][px][py], cells[cx][cy]]
        0 <= i < t.len() && 0 <= px < t[i].len() && 0 <= py < t[i][px].len() && t[i][px][py] && 0 <= cx < size[0] && 0
            <= cy < size[1] && px - palette.size_of(i)[0] + 1 <= cx <= px && py - palette.size_of(i)[1] + 1 <= cy <= py
            ==> cells[cx][cy].has(tile_on(palette, i, px, py, cx, cy)) || owed(q, cx, cy, tile_on(palette, i, px, py, cx, cy))
            || (cx == pos[0] && cy == pos[1] && occurs_from(
            occ,
            k,
            i,
            cx - (px - palette.size_of(i)[0] + 1),
            cy - (py - palette.size_of(i)[1] + 1),
        ))
}

/// Every placement still possible in `t` puts on each cell of a `size` grid
/// that it lies over a type the cell holds.
pub open spec fn placements_agree(
    t: Seq<Seq<Seq<bool>>>,
    cells: Seq<Seq<WorldTileTypeFlags>>,
    palette: &PatternPalette,
    size: [usize; 2],
) -> bool {
    forall|i: int, px: int, py: int, cx: int, cy: int|
        #![trigger t[i][px][py], cells[cx][cy]]
        0 <= i < t.len() && 0 <= px < t[i].len() && 0 <= py < t[i][px].len() && t[i][px][py] && 0 <= cx < size[0] && 0
            <= cy < size[1] && px - palette.size_of(i)[0] + 1 <= cx <= px && py - palette.size_of(i)[1] + 1 <= cy <= py
            ==> cells[cx][cy].has(tile_on(palette, i, px, py, cx, cy))
}

/// With nothing queued and nothing left to rule out, agreeing but for the
/// queue is agreeing.
proof fn lemma_agrees_nothing_owed(
    t: Seq<Seq<Seq<bool>>>,
    cells: Seq<Seq<WorldTileTypeFlags>>,
    palette: &PatternPalette,
    size: [usize; 2],
    pos: [usize; 2],
    occ: Seq<(PatternId, [usize; 2])>,
)
    ensures
        agrees_but(t, cells, palette, size, Seq::empty(), pos, occ, occ.len() as int) == placements_agree(t, cells, palette, size),
        agrees_but(t, cells, palette, size, Seq::empty(), pos, Seq::empty(), 0) == placements_agree(t, cells, palette, size),
{
}

/// With nothing left to rule out at the cell in hand, the cell named does
/// not matter.
proof fn lemma_agrees_done(
    t: Seq<Seq<Seq<bool>>>,
    cells: Seq<Seq<WorldTileTypeFlags>>,
    palette: &PatternPalette,
    size: [usize; 2],
    q: Seq<([usize; 2], WorldTileTypeFlags)>,
    pos: [usize; 2],
    pos2: [usize; 2],
    occ: Seq<(PatternId, [usize; 2])>,
)
    requires
        agrees_but(t, cells, palette, size, q, pos, occ, occ.len() as int),
    ensures
        agrees_but(t, cells, palette, size, q, pos2, Seq::empty(), 0),
{
}

/// A type a set held and its replacement lacks is in what separates them.
proof fn lemma_lost_bit(c: u8, v: u8, b: u8)
    by (bit_vector)
    requires
        c & b != 0,
        v & b == 0,
    ensures
        (c ^ v) & b != 0,
{
}

/// Replacing the types of cell `g` by `v` and queueing the removal of what
/// separates the two keeps the placements agreeing but for the queue.
proof fn lemma_agrees_replace(
    t: Seq<Seq<Seq<bool>>>,
    cells: Seq<Seq<WorldTileTypeFlags>>,
    cells2: Seq<Seq<WorldTileTypeFlags>>,
    palette: &PatternPalette,
    size: [usize; 2],
    q: Seq<([usize; 2], WorldTileTypeFlags)>,
    pos: [usize; 2],
    g: [usize; 2],
    v: WorldTileTypeFlags,
    removed: WorldTileTypeFlags,
)
    requires
        agrees_but(t, cells, palette, size, q, pos, Seq::empty(), 0),
        g[0] < size[0],
        g[1] < size[1],
        removed@ == cells[g[0] as int][g[1] as int]@ ^ v@,
        cells2[g[0] as int][g[1] as int] == v,
        forall|x: int, y: int|
            0 <= x < size[0] && 0 <= y < size[1] && !(x == g[0] && y == g[1]) ==> #[trigger] cells2[x][y] == cells[x][y],
    ensures
        agrees_but(t, cells2, palette, size, q.push((g, removed)), pos, Seq::empty(), 0),
{
    let q2 = q.push((g, removed));
    assert forall|i: int, px: int, py: int, cx: int, cy: int|
        #![trigger t[i][px][py], cells2[cx][cy]]
        0 <= i < t.len() && 0 <= px < t[i].len() && 0 <= py < t[i][px].len() && t[i][px][py] && 0 <= cx < size[0] && 0
            <= cy < size[1] && px - palette.size_of(i)[0] + 1 <= cx <= px && py - palette.size_of(i)[1] + 1 <= cy <= py
            implies cells2[cx][cy].has(tile_on(palette, i, px, py, cx, cy)) || owed(q2, cx, cy, tile_on(palette, i, px, py, cx, cy))
            || (cx == pos[0] && cy == pos[1] && occurs_from(
            Seq::empty(),
            0,
            i,
            cx - (px - palette.size_of(i)[0] + 1),
            cy - (py - palette.size_of(i)[1] + 1),
        )) by {
        let tt = tile_on(palette, i, px, py, cx, cy);
        assert(cells[cx][cy].has(tt) || owed(q, cx, cy, tt));
        if owed(q, cx, cy, tt) {
            let j = choose|j: int| 0 <= j < q.len() && (#[trigger] q[j]).0[0] == cx && q[j].0[1] == cy && q[j].1.has(tt);
            assert(q2[j] == q[j]);
        } else if cx == g[0] && cy == g[1] {
            if !v.has(tt) {
                lemma_lost_bit(cells[cx][cy]@, v@, tile_bit(tt));
                assert(q2[q.len() as int] == (g, removed));
            }
        } else {
            assert(cells2[cx][cy] == cells[cx][cy]);
        }
    }
}

/// Taking the last removal off the queue to rule out its placements through
/// the occurrences `occ` of its types keeps the placements agreeing but for
/// the rest of the queue and those occurrences.
proof fn lemma_agrees_pop(
    t: Seq<Seq<Seq<bool>>>,
    cells: Seq<Seq<WorldTileTypeFlags>>,
    palette: &PatternPalette,
    size: [usize; 2],
    q: Seq<([usize; 2], WorldTileTypeFlags)>,
    pos0: [usize; 2],
    occ: Seq<(PatternId, [usize; 2])>,
)
    requires
        agrees_but(t, cells, palette, size, q, pos0, Seq::empty(), 0),
        q.len() > 0,
        palette.well_formed(),
        t.len() == palette.pattern_count(),
        occ == palette_occurrences(|i: int| palette.tiles_of(i), palette.sizes(), palette.pattern_count() as int, q.last().1),
    ensures
        agrees_but(t, cells, palette, size, q.drop_last(), q.last().0, occ, 0),
{
    palette.lemma_well_formed();
    let q1 = q.drop_last();
    let e = q.last();
    assert forall|i: int, px: int, py: int, cx: int, cy: int|
        #![trigger t[i][px][py], cells[cx][cy]]
        0 <= i < t.len() && 0 <= px < t[i].len() && 0 <= py < t[i][px].len() && t[i][px][py] && 0 <= cx < size[0] && 0
            <= cy < size[1] && px - palette.size_of(i)[0] + 1 <= cx <= px && py - palette.size_of(i)[1] + 1 <= cy <= py
            implies cells[cx][cy].has(tile_on(palette, i, px, py, cx, cy)) || owed(q1, cx, cy, tile_on(palette, i, px, py, cx, cy))
            || (cx == e.0[0] && cy == e.0[1] && occurs_from(
            occ,
            0,
            i,
            cx - (px - palette.size_of(i)[0] + 1),
            cy - (py - palette.size_of(i)[1] + 1),
        )) by {
        let tt = tile_on(palette, i, px, py, cx, cy);
        if !cells[cx][cy].has(tt) {
            assert(owed(q, cx, cy, tt));
            let j = choose|j: int| 0 <= j < q.len() && (#[trigger] q[j]).0[0] == cx && q[j].0[1] == cy && q[j].1.has(tt);
            if j < q.len() - 1 {
                assert(q1[j] == q[j]);
            } else {
                let a = cx - (px - palette.size_of(i)[0] + 1);
                let b = cy - (py - palette.size_of(i)[1] + 1);
                assert(palette.sizes()[i] == palette.size_of(i));
                crate::world::wfc::pattern_palette::lemma_palette_occurrences_complete(
                    |i: int| palette.tiles_of(i),
                    palette.sizes(),
                    palette.pattern_count() as int,
                    e.1,
                    i,
                    a,
                    b,
                );
            }
        }
    }
}

/// Ruling out the placement that the `k`-th occurrence names at cell `pos`
/// moves past it.
proof fn lemma_agrees_step(
    t: Seq<Seq<Seq<bool>>>,
    t2: Seq<Seq<Seq<bool>>>,
    cells: Seq<Seq<WorldTileTypeFlags>>,
    palette: &PatternPalette,
    size: [usize; 2],
    q: Seq<([usize; 2], WorldTileTypeFlags)>,
    pos: [usize; 2],
    occ: Seq<(PatternId, [usize; 2])>,
    k: int,
)
    requires
        agrees_but(t, cells, palette, size, q, pos, occ, k),
        0 <= k < occ.len(),
        0 <= occ[k].0.0 < t.len(),
        0 <= pos[0] + palette.size_of(occ[k].0.0 as int)[0] - occ[k].1[0] - 1 < t[occ[k].0.0 as int].len(),
        0 <= pos[1] + palette.size_of(occ[k].0.0 as int)[1] - occ[k].1[1] - 1 < t[occ[k].0.0 as int][pos[0]
            + palette.size_of(occ[k].0.0 as int)[0] - occ[k].1[0] - 1].len(),
        t2 == t.update(
            occ[k].0.0 as int,
            t[occ[k].0.0 as int].update(
                pos[0] + palette.size_of(occ[k].0.0 as int)[0] - occ[k].1[0] - 1,
                t[occ[k].0.0 as int][pos[0] + palette.size_of(occ[k].0.0 as int)[0] - occ[k].1[0] - 1].update(
                    pos[1] + palette.size_of(occ[k].0.0 as int)[1] - occ[k].1[1] - 1,
                    false,
                ),
            ),
        ),
    ensures
        agrees_but(t2, cells, palette, size, q, pos, occ, k + 1),
{
    let i0 = occ[k].0.0 as int;
    let px0 = pos[0] + palette.size_of(i0)[0] - occ[k].1[0] - 1;
    let py0 = pos[1] + palette.size_of(i0)[1] - occ[k].1[1] - 1;
    assert forall|i: int, px: int, py: int, cx: int, cy: int|
        #![trigger t2[i][px][py], cells[cx][cy]]
        0 <= i < t2.len() && 0 <= px < t2[i].len() && 0 <= py < t2[i][px].len() && t2[i][px][py] && 0 <= cx < size[0] && 0
            <= cy < size[1] && px - palette.size_of(i)[0] + 1 <= cx <= px && py - palette.size_of(i)[1] + 1 <= cy <= py
            implies cells[cx][cy].has(tile_on(palette, i, px, py, cx, cy)) || owed(q, cx, cy, tile_on(palette, i, px, py, cx, cy))
            || (cx == pos[0] && cy == pos[1] && occurs_from(
            occ,
            k + 1,
            i,
            cx - (px - palette.size_of(i)[0] + 1),
            cy - (py - palette.size_of(i)[1] + 1),
        )) by {
        if (i, px, py) != (i0, px0, py0) {
            assert(t2[i][px][py] == t[i][px][py]);
        }
        assert(t[i][px][py]);
        let a = cx - (px - palette.size_of(i)[0] + 1);
        let b = cy - (py - palette.size_of(i)[1] + 1);
        if cx == pos[0] && cy == pos[1] && occurs_from(occ, k, i, a, b) && !cells[cx][cy].has(tile_on(palette, i, px, py, cx, cy))
            && !owed(q, cx, cy, tile_on(palette, i, px, py, cx, cy)) {
            let j = choose|j: int| k <= j < occ.len() && (#[trigger] occ[j]).0.0 == i && occ[j].1[0] == a && occ[j].1[1] == b;
            if j == k {
                assert((i, px, py) == (i0, px0, py0));
                assert(!t2[i][px][py]);
            }
        }
    }
}

/// A cell stays touched when one more placement is ruled out.
proof fn lemma_touched_cleared(
    t: Seq<Seq<Seq<bool>>>,
    u: Seq<Seq<Seq<bool>>>,
    palette: &PatternPalette,
    p: [usize; 2],
    i0: int,
    px0: int,
    py0: int,
)
    requires
        touched(t, u, palette, p),
        tables_within(t, u),
        0 <= i0 < t.len(),
        0 <= px0 < t[i0].len(),
        0 <= py0 < t[i0][px0].len(),
    ensures
        touched(t.update(i0, t[i0].update(px0, t[i0][px0].update(py0, false))), u, palette, p),
{
    let t2 = t.update(i0, t[i0].update(px0, t[i0][px0].update(py0, false)));
    let (i, px, py) = choose|i: int, px: int, py: int|
        0 <= i < u.len() && 0 <= px < u[i].len() && 0 <= py < u[i][px].len() && u[i][px][py] && !t[i][px][py]
            && #[trigger] covers(palette, i, px, py, p);
    if (i, px, py) != (i0, px0, py0) {
        assert(t2[i][px][py] == t[i][px][py]);
    }
    assert(!t2[i][px][py]);
}

/// Whether `p` is in `v`.
fn holds_position(v: &Vec<[usize; 2]>, p: [usize; 2]) -> (r: bool)
    ensures
        r == exists|i: int| 0 <= i < v.len() && (#[trigger] v@[i])[0] == p[0] && v@[i][1] == p[1],
{
    let mut i: usize = 0;
    while i < v.len()
        invariant
            i <= v.len(),
            forall|k: int| 0 <= k < i ==> !((#[trigger] v@[k])[0] == p[0] && v@[k][1] == p[1]),
        decreases v.len() - i,
    {
        if v[i][0] == p[0] && v[i][1] == p[1] {
            return true;
        }
        i += 1;
    }
    false
}

impl SuperGrid {
    /// Propagates the removal of `removed_flags` from the cell at `position`:
    /// every placement that puts a removed type on a changed cell is ruled
    /// out, every cell such a placement covered is narrowed to the types the
    /// remaining placements allow, and the types this removes are propagated
    /// in turn, until nothing changes.
    pub fn update_patterns_around(&mut self, position: [usize; 2], removed_flags: WorldTileTypeFlags)
        requires
            old(self).well_formed(),
            position[0] < old(self).grid_size()[0],
            position[1] < old(self).grid_size()[1],
        ensures
            final(self).well_formed(),
            final(self).grid_size() == old(self).grid_size(),
            final(self).palette() == old(self).palette(),
            forall|x: int, y: int|
                0 <= x < old(self).grid_size()[0] && 0 <= y < old(self).grid_size()[1] ==> #[trigger] final(self).cells()[x][y]@
                    & old(self).cells()[x][y]@ == final(self).cells()[x][y]@,
            tables_within(final(self).store().tables(), old(self).store().tables()),
            old(self).cells()[position[0] as int][position[1] as int]@ & removed_flags@ == 0 ==> ruled_out_conflict(
                final(self).store().tables(),
                old(self).store().tables(),
                final(self).cells(),
                final(self).palette(),
                final(self).grid_size(),
            ),
            forall|p: [usize; 2]|
                p[0] < final(self).grid_size()[0] && p[1] < final(self).grid_size()[1] && #[trigger] touched(
                    final(self).store().tables(),
                    old(self).store().tables(),
                    final(self).palette(),
                    p,
                ) ==> settled(final(self).cells(), final(self).store(), final(self).palette(), p),
            agrees_but(
                old(self).store().tables(),
                old(self).cells(),
                old(self).palette(),
                old(self).grid_size(),
                seq![(position, removed_flags)],
                position,
                Seq::empty(),
                0,
            ) ==> placements_agree(final(self).store().tables(), final(self).cells(), final(self).palette(), final(self).grid_size()),
            forall|x: int, y: int|
                0 <= x < old(self).grid_size()[0] && 0 <= y < old(self).grid_size()[1] && (#[trigger] final(self).cells()[x][y])@
                    != old(self).cells()[x][y]@ ==> settled(final(self).cells(), final(self).store(), final(self).palette(), [x as usize, y as usize]),
    {
        let ghost h = old(self).cells()[position[0] as int][position[1] as int]@ & removed_flags@ == 0;
        let ghost hc = agrees_but(old(self).pattern_store.tables(), old(self).cells(), &old(self).pattern_palette, old(self).size, seq![(position, removed_flags)], position, Seq::empty(), 0);
        let mut positions_to_recalculate: Vec<([usize; 2], WorldTileTypeFlags)> = Vec::new();
        positions_to_recalculate.push((position, removed_flags));
        assert(positions_to_recalculate@ =~= seq![(position, removed_flags)]);
        let mut updated_positions: Vec<[usize; 2]> = Vec::new();
        let ghost n = self.pattern_palette.pattern_count();
        proof {
            self.pattern_store.lemma_bounds(&self.pattern_palette);
            assert forall|x: int, y: int|
                0 <= x < self.size[0] && 0 <= y < self.size[1] implies #[trigger] self.cells()[x][y]@ & old(self).cells()[x][y]@ == self.cells()[x][y]@ by {
                lemma_intersection_within(self.cells()[x][y]@, self.cells()[x][y]@);
            }
        }
        loop
            invariant
                self.well_formed(),
                self.size == old(self).size,
                self.pattern_palette == old(self).pattern_palette,
                n == self.pattern_palette.pattern_count(),
                forall|x: int, y: int|
                    0 <= x < self.size[0] && 0 <= y < self.size[1] ==> #[trigger] self.cells()[x][y]@ & old(self).cells()[x][y]@ == self.cells()[x][y]@,
                tables_within(self.pattern_store.tables(), old(self).pattern_store.tables()),
                forall|k: int| 0 <= k < positions_to_recalculate.len() ==> (#[trigger] positions_to_recalculate@[k]).0[0] < self.size[0]
                    && positions_to_recalculate@[k].0[1] < self.size[1],
                forall|k: int| 0 <= k < updated_positions.len() ==> (#[trigger] updated_positions@[k])[0] < self.size[0]
                    && updated_positions@[k][1] < self.size[1],
                h == (old(self).cells()[position[0] as int][position[1] as int]@ & removed_flags@ == 0),
                h ==> forall|k: int| 0 <= k < positions_to_recalculate.len() ==> self.cells()[(#[trigger] positions_to_recalculate@[k]).0[0] as int][positions_to_recalculate@[k].0[1] as int]@ & positions_to_recalculate@[k].1@ == 0,
                h ==> ruled_out_conflict(self.pattern_store.tables(), old(self).pattern_store.tables(), self.cells(), &self.pattern_palette, self.size),
                settled_or_listed(old(self).pattern_store.tables(), self.cells(), &self.pattern_store, &self.pattern_palette, self.size, updated_positions@),
                hc == agrees_but(old(self).pattern_store.tables(), old(self).cells(), &old(self).pattern_palette, old(self).size, seq![(position, removed_flags)], position, Seq::empty(), 0),
                hc ==> agrees_but(self.pattern_store.tables(), self.cells(), &self.pattern_palette, self.size, positions_to_recalculate@, position, Seq::empty(), 0),
                forall|k: int| 0 <= k < updated_positions.len() ==> touched(self.pattern_store.tables(), old(self).pattern_store.tables(), &self.pattern_palette, #[trigger] updated_positions@[k]),
                forall|x: int, y: int| 0 <= x < self.size[0] && 0 <= y < self.size[1] && (#[trigger] self.cells()[x][y])@ != old(self).cells()[x][y]@ ==> touched(self.pattern_store.tables(), old(self).pattern_store.tables(), &self.pattern_palette, [x as usize, y as usize]),
            ensures
                self.well_formed(),
                self.size == old(self).size,
                self.pattern_palette == old(self).pattern_palette,
                forall|x: int, y: int|
                    0 <= x < self.size[0] && 0 <= y < self.size[1] ==> #[trigger] self.cells()[x][y]@ & old(self).cells()[x][y]@ == self.cells()[x][y]@,
                tables_within(self.pattern_store.tables(), old(self).pattern_store.tables()),
                h == (old(self).cells()[position[0] as int][position[1] as int]@ & removed_flags@ == 0),
                h ==> ruled_out_conflict(self.pattern_store.tables(), old(self).pattern_store.tables(), self.cells(), &self.pattern_palette, self.size),
                forall|p: [usize; 2]|
                    p[0] < self.size[0] && p[1] < self.size[1] && #[trigger] touched(
                        self.pattern_store.tables(),
                        old(self).pattern_store.tables(),
                        &self.pattern_palette,
                        p,
                    ) ==> settled(self.cells(), &self.pattern_store, &self.pattern_palette, p),
                hc == agrees_but(old(self).pattern_store.tables(), old(self).cells(), &old(self).pattern_palette, old(self).size, seq![(position, removed_flags)], position, Seq::empty(), 0),
                hc ==> placements_agree(self.pattern_store.tables(), self.cells(), &self.pattern_palette, self.size),
                forall|x: int, y: int| 0 <= x < self.size[0] && 0 <= y < self.size[1] && (#[trigger] self.cells()[x][y])@ != old(self).cells()[x][y]@ ==> touched(self.pattern_store.tables(), old(self).pattern_store.tables(), &self.pattern_palette, [x as usize, y as usize]),
            decreases type_total(self.cells()),
        {
            let ghost grid0 = self.grid@;
            while positions_to_recalculate.len() > 0
                invariant
                    self.well_formed(),
                    self.size == old(self).size,
                    self.pattern_palette == old(self).pattern_palette,
                    n == self.pattern_palette.pattern_count(),
                    forall|x: int, y: int|
                        0 <= x < self.size[0] && 0 <= y < self.size[1] ==> #[trigger] self.cells()[x][y]@ & old(self).cells()[x][y]@ == self.cells()[x][y]@,
                    tables_within(self.pattern_store.tables(), old(self).pattern_store.tables()),
                    forall|k: int| 0 <= k < positions_to_recalculate.len() ==> (#[trigger] positions_to_recalculate@[k]).0[0] < self.size[0]
                        && positions_to_recalculate@[k].0[1] < self.size[1],
                    forall|k: int| 0 <= k < updated_positions.len() ==> (#[trigger] updated_positions@[k])[0] < self.size[0]
                        && updated_positions@[k][1] < self.size[1],
                self.grid@ == grid0,
                    h == (old(self).cells()[position[0] as int][position[1] as int]@ & removed_flags@ == 0),
                    h ==> forall|k: int| 0 <= k < positions_to_recalculate.len() ==> self.cells()[(#[trigger] positions_to_recalculate@[k]).0[0] as int][positions_to_recalculate@[k].0[1] as int]@ & positions_to_recalculate@[k].1@ == 0,
                    h ==> ruled_out_conflict(self.pattern_store.tables(), old(self).pattern_store.tables(), self.cells(), &self.pattern_palette, self.size),
                    settled_or_listed(old(self).pattern_store.tables(), self.cells(), &self.pattern_store, &self.pattern_palette, self.size, updated_positions@),
                    hc == agrees_but(old(self).pattern_store.tables(), old(self).cells(), &old(self).pattern_palette, old(self).size, seq![(position, removed_flags)], position, Seq::empty(), 0),
                    hc ==> agrees_but(self.pattern_store.tables(), self.cells(), &self.pattern_palette, self.size, positions_to_recalculate@, position, Seq::empty(), 0),
                    forall|k: int| 0 <= k < updated_positions.len() ==> touched(self.pattern_store.tables(), old(self).pattern_store.tables(), &self.pattern_palette, #[trigger] updated_positions@[k]),
                    forall|x: int, y: int| 0 <= x < self.size[0] && 0 <= y < self.size[1] && (#[trigger] self.cells()[x][y])@ != old(self).cells()[x][y]@ ==> touched(self.pattern_store.tables(), old(self).pattern_store.tables(), &self.pattern_palette, [x as usize, y as usize]),
                decreases positions_to_recalculate.len(),
            {
                let ghost ptr0 = positions_to_recalculate@;
                let entry = positions_to_recalculate.pop().unwrap();
                let pos = entry.0;
                let removed = entry.1;
                proof {
                    assert(entry == ptr0[ptr0.len() - 1]);
                    assert forall|k: int| 0 <= k < positions_to_recalculate.len() implies (#[trigger] positions_to_recalculate@[k]) == ptr0[k] by {
                    }
                }
                proof {
                    self.pattern_store.lemma_bounds(&self.pattern_palette);
                    self.pattern_palette.lemma_well_formed();
                }
                let occurances = self.pattern_palette.get_type_occurances_in_patterns(removed);
                proof {
                    if hc {
                        assert(positions_to_recalculate@ =~= ptr0.drop_last());
                        assert((|i: int| self.pattern_palette.tiles_of(i)) =~= (|i: int| self.pattern_palette.tiles_of(i)));
                        lemma_agrees_pop(
                            self.pattern_store.tables(),
                            self.cells(),
                            &self.pattern_palette,
                            self.size,
                            ptr0,
                            position,
                            occurances@,
                        );
                    }
                }
                proof {
                    crate::world::wfc::pattern_palette::lemma_palette_occurrences_in_range(
                        |i: int| self.pattern_palette.tiles_of(i),
                        self.pattern_palette.sizes(),
                        n as int,
                        removed,
                    );
                }
                let mut k: usize = 0;
                while k < occurances.len()
                    invariant
                        self.well_formed(),
                        self.size == old(self).size,
                        self.pattern_palette == old(self).pattern_palette,
                        n == self.pattern_palette.pattern_count(),
                        pos[0] < self.size[0],
                        pos[1] < self.size[1],
                        forall|x: int, y: int|
                            0 <= x < self.size[0] && 0 <= y < self.size[1] ==> #[trigger] self.cells()[x][y]@ & old(self).cells()[x][y]@ == self.cells()[x][y]@,
                        tables_within(self.pattern_store.tables(), old(self).pattern_store.tables()),
                        forall|k: int| 0 <= k < positions_to_recalculate.len() ==> (#[trigger] positions_to_recalculate@[k]).0[0] < self.size[0]
                            && positions_to_recalculate@[k].0[1] < self.size[1],
                        forall|k: int| 0 <= k < updated_positions.len() ==> (#[trigger] updated_positions@[k])[0] < self.size[0]
                            && updated_positions@[k][1] < self.size[1],
                        self.grid@ == grid0,
                        forall|i: int| 0 <= i < occurances.len() ==> (#[trigger] occurances@[i]).0.0 < n
                            && occurances@[i].1[0] < self.pattern_palette.size_of(occurances@[i].0.0 as int)[0]
                            && occurances@[i].1[1] < self.pattern_palette.size_of(occurances@[i].0.0 as int)[1]
                            && removed.has(self.pattern_palette.tiles_of(occurances@[i].0.0 as int)[occurances@[i].1[0] as int][occurances@[i].1[1] as int]),
                        h == (old(self).cells()[position[0] as int][position[1] as int]@ & removed_flags@ == 0),
                        h ==> self.cells()[pos[0] as int][pos[1] as int]@ & removed@ == 0,
                        h ==> forall|k: int| 0 <= k < positions_to_recalculate.len() ==> self.cells()[(#[trigger] positions_to_recalculate@[k]).0[0] as int][positions_to_recalculate@[k].0[1] as int]@ & positions_to_recalculate@[k].1@ == 0,
                        h ==> ruled_out_conflict(self.pattern_store.tables(), old(self).pattern_store.tables(), self.cells(), &self.pattern_palette, self.size),
                        settled_or_listed(old(self).pattern_store.tables(), self.cells(), &self.pattern_store, &self.pattern_palette, self.size, updated_positions@),
                        hc == agrees_but(old(self).pattern_store.tables(), old(self).cells(), &old(self).pattern_palette, old(self).size, seq![(position, removed_flags)], position, Seq::empty(), 0),
                        hc ==> agrees_but(self.pattern_store.tables(), self.cells(), &self.pattern_palette, self.size, positions_to_recalculate@, pos, occurances@, k as int),
                        forall|k: int| 0 <= k < updated_positions.len() ==> touched(self.pattern_store.tables(), old(self).pattern_store.tables(), &self.pattern_palette, #[trigger] updated_positions@[k]),
                        forall|x: int, y: int| 0 <= x < self.size[0] && 0 <= y < self.size[1] && (#[trigger] self.cells()[x][y])@ != old(self).cells()[x][y]@ ==> touched(self.pattern_store.tables(), old(self).pattern_store.tables(), &self.pattern_palette, [x as usize, y as usize]),
                    decreases occurances.len() - k,
                {
                    let pattern_id = occurances[k].0;
                    let flag_pos = occurances[k].1;
                    proof {
                        self.pattern_store.lemma_bounds(&self.pattern_palette);
                        assert(self.pattern_palette.sizes()[pattern_id.0 as int] == self.pattern_palette.size_of(pattern_id.0 as int));
                    }
                    let ghost t_before = self.pattern_store.tables();
                    let ghost store_before = self.pattern_store;
                    let ghost ui = updated_positions@;
                    let disabled = self.pattern_store.disable_pattern(&self.pattern_palette, pattern_id, pos, flag_pos);
                    let ghost i0 = pattern_id.0 as int;
                    let ghost px0 = pos[0] + self.pattern_palette.size_of(i0)[0] - flag_pos[0] - 1;
                    let ghost py0 = pos[1] + self.pattern_palette.size_of(i0)[1] - flag_pos[1] - 1;
                    proof {
                        store_before.lemma_bounds(&self.pattern_palette);
                        assert(is_rect(
                            t_before[i0],
                            self.size[0] + self.pattern_palette.size_of(i0)[0] - 1,
                            self.size[1] + self.pattern_palette.size_of(i0)[1] - 1,
                        ));
                        assert(occurances@[k as int].0 == pattern_id && occurances@[k as int].1 == flag_pos);
                        if hc {
                            lemma_agrees_step(
                                t_before,
                                self.pattern_store.tables(),
                                self.cells(),
                                &self.pattern_palette,
                                self.size,
                                positions_to_recalculate@,
                                pos,
                                occurances@,
                                k as int,
                            );
                        }
                        assert forall|k2: int| 0 <= k2 < updated_positions.len() implies touched(
                            self.pattern_store.tables(),
                            old(self).pattern_store.tables(),
                            &self.pattern_palette,
                            #[trigger] updated_positions@[k2],
                        ) by {
                            lemma_touched_cleared(t_before, old(self).pattern_store.tables(), &self.pattern_palette, updated_positions@[k2], i0, px0, py0);
                        }
                        assert forall|x: int, y: int|
                            0 <= x < self.size[0] && 0 <= y < self.size[1] && (#[trigger] self.cells()[x][y])@ != old(self).cells()[x][y]@
                                implies touched(self.pattern_store.tables(), old(self).pattern_store.tables(), &self.pattern_palette, [x as usize, y as usize]) by {
                            lemma_touched_cleared(t_before, old(self).pattern_store.tables(), &self.pattern_palette, [x as usize, y as usize], i0, px0, py0);
                        }
                        store_before.lemma_tables_enabled(&self.pattern_palette);
                    }
                    proof {
                        store_before.lemma_bounds(&self.pattern_palette);
                        assert forall|p: [usize; 2]|
                            p[0] < self.size[0] && p[1] < self.size[1] && #[trigger] touched(
                                self.pattern_store.tables(),
                                old(self).pattern_store.tables(),
                                &self.pattern_palette,
                                p,
                            ) implies settled(self.cells(), &self.pattern_store, &self.pattern_palette, p) || listed(ui, p)
                            || (disabled && covers(&self.pattern_palette, i0, px0, py0, p)) by {
                            lemma_disable_frame(
                                &store_before,
                                &self.pattern_store,
                                &self.pattern_palette,
                                old(self).pattern_store.tables(),
                                self.cells(),
                                i0,
                                px0,
                                py0,
                                p,
                            );
                            store_before.lemma_tables_enabled(&self.pattern_palette);
                        }
                    }
                    proof {
                        let size = self.pattern_palette.size_of(pattern_id.0 as int);
                        lemma_clear_within(
                            t_before,
                            old(self).pattern_store.tables(),
                            pattern_id.0 as int,
                            pos[0] + size[0] - flag_pos[0] - 1,
                            pos[1] + size[1] - flag_pos[1] - 1,
                        );
                        if h {
                            let i0 = pattern_id.0 as int;
                            let px0 = pos[0] + size[0] - flag_pos[0] - 1;
                            let py0 = pos[1] + size[1] - flag_pos[1] - 1;
                            let t = self.pattern_palette.tiles_of(i0)[flag_pos[0] as int][flag_pos[1] as int];
                            assert(removed.has(t));
                            lemma_disjoint_lacks(self.cells()[pos[0] as int][pos[1] as int]@, removed@, tile_bit(t));
                            assert(!self.cells()[pos[0] as int][pos[1] as int].has(t));
                            assert(placement_conflicts(self.cells(), &self.pattern_palette, self.size, i0, px0, py0)) by {
                                assert(pos[0] - (px0 - size[0] + 1) == flag_pos[0]);
                                assert(pos[1] - (py0 - size[1] + 1) == flag_pos[1]);
                            }
                            let u = old(self).pattern_store.tables();
                            let tn = self.pattern_store.tables();
                            assert forall|i: int, qx: int, qy: int|
                                0 <= i < u.len() && 0 <= qx < u[i].len() && 0 <= qy < u[i][qx].len() && u[i][qx][qy]
                                    && !#[trigger] tn[i][qx][qy] implies placement_conflicts(self.cells(), &self.pattern_palette, self.size, i, qx, qy) by {
                                if (i, qx, qy) != (i0, px0, py0) {
                                    assert(tn[i][qx][qy] == t_before[i][qx][qy]);
                                }
                            }
                        }
                    }
                    if disabled {
                        let pattern_size = self.pattern_palette.get_size(&pattern_id);
                        let min_x = (if pos[0] >= flag_pos[0] { pos[0] } else { flag_pos[0] }) - flag_pos[0];
                        let reach_x = pos[0] + pattern_size[0] - flag_pos[0];
                        let max_x = if reach_x <= self.size[0] { reach_x } else { self.size[0] };
                        let min_y = (if pos[1] >= flag_pos[1] { pos[1] } else { flag_pos[1] }) - flag_pos[1];
                        let reach_y = pos[1] + pattern_size[1] - flag_pos[1];
                        let max_y = if reach_y <= self.size[1] { reach_y } else { self.size[1] };
                        let mut x = min_x;
                        proof {
                            assert(pattern_size == self.pattern_palette.size_of(i0));
                            assert(t_before[i0][px0][py0]);
                            assert(!self.pattern_store.tables()[i0][px0][py0]);
                        }
                        while x < max_x
                            invariant
                                max_x <= self.size[0],
                                max_y <= self.size[1],
                                forall|k: int| 0 <= k < updated_positions.len() ==> (#[trigger] updated_positions@[k])[0] < self.size[0]
                                    && updated_positions@[k][1] < self.size[1],
                                min_y == (if py0 - pattern_size[1] + 1 >= 0 { py0 - pattern_size[1] + 1 } else { 0 }),
                                max_y == (if py0 + 1 <= self.size[1] { py0 + 1 } else { self.size[1] as int }),
                                max_x == (if px0 + 1 <= self.size[0] { px0 + 1 } else { self.size[0] as int }),
                                pattern_size == self.pattern_palette.size_of(i0),
                                forall|k: int| 0 <= k < updated_positions.len() ==> touched(self.pattern_store.tables(), old(self).pattern_store.tables(), &self.pattern_palette, #[trigger] updated_positions@[k]),
                                0 <= i0 < old(self).pattern_store.tables().len(),
                                0 <= px0 < old(self).pattern_store.tables()[i0].len(),
                                0 <= py0 < old(self).pattern_store.tables()[i0][px0].len(),
                                old(self).pattern_store.tables()[i0][px0][py0],
                                !self.pattern_store.tables()[i0][px0][py0],
                                px0 - pattern_size[0] + 1 <= x,
                                forall|p: [usize; 2]|
                                    p[0] < self.size[0] && p[1] < self.size[1] && #[trigger] touched(
                                        self.pattern_store.tables(),
                                        old(self).pattern_store.tables(),
                                        &self.pattern_palette,
                                        p,
                                    ) ==> settled(self.cells(), &self.pattern_store, &self.pattern_palette, p) || listed(updated_positions@, p)
                                    || (covers(&self.pattern_palette, i0, px0, py0, p) && p[0] >= x),
                            decreases max_x - x,
                        {
                            let mut y = min_y;
                            while y < max_y
                                invariant
                                    x < max_x,
                                    max_x <= self.size[0],
                                    max_y <= self.size[1],
                                    forall|k: int| 0 <= k < updated_positions.len() ==> (#[trigger] updated_positions@[k])[0] < self.size[0]
                                        && updated_positions@[k][1] < self.size[1],
                                    min_y == (if py0 - pattern_size[1] + 1 >= 0 { py0 - pattern_size[1] + 1 } else { 0 }),
                                    max_y == (if py0 + 1 <= self.size[1] { py0 + 1 } else { self.size[1] as int }),
                                    max_x == (if px0 + 1 <= self.size[0] { px0 + 1 } else { self.size[0] as int }),
                                    pattern_size == self.pattern_palette.size_of(i0),
                                    forall|k: int| 0 <= k < updated_positions.len() ==> touched(self.pattern_store.tables(), old(self).pattern_store.tables(), &self.pattern_palette, #[trigger] updated_positions@[k]),
                                    0 <= i0 < old(self).pattern_store.tables().len(),
                                    0 <= px0 < old(self).pattern_store.tables()[i0].len(),
                                    0 <= py0 < old(self).pattern_store.tables()[i0][px0].len(),
                                    old(self).pattern_store.tables()[i0][px0][py0],
                                    !self.pattern_store.tables()[i0][px0][py0],
                                    px0 - pattern_size[0] + 1 <= x,
                                    py0 - pattern_size[1] + 1 <= y,
                                    min_y <= y,
                                    forall|p: [usize; 2]|
                                        p[0] < self.size[0] && p[1] < self.size[1] && #[trigger] touched(
                                            self.pattern_store.tables(),
                                            old(self).pattern_store.tables(),
                                            &self.pattern_palette,
                                            p,
                                        ) ==> settled(self.cells(), &self.pattern_store, &self.pattern_palette, p) || listed(updated_positions@, p)
                                        || (covers(&self.pattern_palette, i0, px0, py0, p) && (p[0] > x || (p[0] == x && p[1] >= y))),
                                decreases max_y - y,
                            {
                                let ghost u0 = updated_positions@;
                                if !holds_position(&updated_positions, [x, y]) {
                                    updated_positions.push([x, y]);
                                }
                                proof {
                                    assert(listed(updated_positions@, [x, y])) by {
                                        if updated_positions@.len() > u0.len() {
                                            assert(updated_positions@[u0.len() as int] == [x, y]);
                                        } else {
                                            let k = choose|k: int| 0 <= k < u0.len() && (#[trigger] u0[k])[0] == x && u0[k][1] == y;
                                            assert(updated_positions@[k] == u0[k]);
                                        }
                                    }
                                    assert forall|p: [usize; 2]| listed(u0, p) implies listed(updated_positions@, p) by {
                                        let k = choose|k: int| 0 <= k < u0.len() && (#[trigger] u0[k])[0] == p[0] && u0[k][1] == p[1];
                                        assert(updated_positions@[k] == u0[k]);
                                    }
                                    assert forall|p: [usize; 2]|
                                        p[0] < self.size[0] && p[1] < self.size[1] && #[trigger] touched(
                                            self.pattern_store.tables(),
                                            old(self).pattern_store.tables(),
                                            &self.pattern_palette,
                                            p,
                                        ) implies settled(self.cells(), &self.pattern_store, &self.pattern_palette, p) || listed(updated_positions@, p)
                                        || (covers(&self.pattern_palette, i0, px0, py0, p) && (p[0] > x || (p[0] == x && p[1] >= y + 1))) by {
                                        if p[0] == x && p[1] == y {
                                            assert(listed(updated_positions@, [x, y]));
                                            let k = choose|k: int| 0 <= k < updated_positions@.len() && (#[trigger] updated_positions@[k])[0] == x && updated_positions@[k][1] == y;
                                        }
                                    }
                                }
                                proof {
                                    assert(covers(&self.pattern_palette, i0, px0, py0, [x, y]));
                                    assert(touched(self.pattern_store.tables(), old(self).pattern_store.tables(), &self.pattern_palette, [x, y]));
                                    assert forall|k: int| 0 <= k < updated_positions.len() implies touched(
                                        self.pattern_store.tables(),
                                        old(self).pattern_store.tables(),
                                        &self.pattern_palette,
                                        #[trigger] updated_positions@[k],
                                    ) by {
                                        if k < u0.len() {
                                            assert(updated_positions@[k] == u0[k]);
                                        } else {
                                            assert(updated_positions@[k] == [x, y]);
                                        }
                                    }
                                }
                                y += 1;
                            }
                            x += 1;
                        }
                    }
                    k += 1;
                }
                proof {
                    if hc {
                        lemma_agrees_done(
                            self.pattern_store.tables(),
                            self.cells(),
                            &self.pattern_palette,
                            self.size,
                            positions_to_recalculate@,
                            pos,
                            position,
                            occurances@,
                        );
                    }
                }
            }
            let ghost total0 = type_total(self.cells());
            let mut done = true;
            let mut i: usize = 0;
            assert(updated_positions@.subrange(0, updated_positions.len() as int) =~= updated_positions@);
            while i < updated_positions.len()
                invariant
                    self.well_formed(),
                    self.size == old(self).size,
                    self.pattern_palette == old(self).pattern_palette,
                    n == self.pattern_palette.pattern_count(),
                    forall|x: int, y: int|
                        0 <= x < self.size[0] && 0 <= y < self.size[1] ==> #[trigger] self.cells()[x][y]@ & old(self).cells()[x][y]@ == self.cells()[x][y]@,
                    tables_within(self.pattern_store.tables(), old(self).pattern_store.tables()),
                    forall|k: int| 0 <= k < positions_to_recalculate.len() ==> (#[trigger] positions_to_recalculate@[k]).0[0] < self.size[0]
                        && positions_to_recalculate@[k].0[1] < self.size[1],
                    forall|k: int| 0 <= k < updated_positions.len() ==> (#[trigger] updated_positions@[k])[0] < self.size[0]
                        && updated_positions@[k][1] < self.size[1],
                    i <= updated_positions.len(),
                    type_total(self.cells()) <= total0,
                    !done ==> type_total(self.cells()) < total0,
                    h == (old(self).cells()[position[0] as int][position[1] as int]@ & removed_flags@ == 0),
                    h ==> forall|k: int| 0 <= k < positions_to_recalculate.len() ==> self.cells()[(#[trigger] positions_to_recalculate@[k]).0[0] as int][positions_to_recalculate@[k].0[1] as int]@ & positions_to_recalculate@[k].1@ == 0,
                    h ==> ruled_out_conflict(self.pattern_store.tables(), old(self).pattern_store.tables(), self.cells(), &self.pattern_palette, self.size),
                    settled_or_listed(old(self).pattern_store.tables(), self.cells(), &self.pattern_store, &self.pattern_palette, self.size, updated_positions@.subrange(i as int, updated_positions.len() as int)),
                    hc == agrees_but(old(self).pattern_store.tables(), old(self).cells(), &old(self).pattern_palette, old(self).size, seq![(position, removed_flags)], position, Seq::empty(), 0),
                    hc ==> agrees_but(self.pattern_store.tables(), self.cells(), &self.pattern_palette, self.size, positions_to_recalculate@, position, Seq::empty(), 0),
                    forall|k: int| 0 <= k < updated_positions.len() ==> touched(self.pattern_store.tables(), old(self).pattern_store.tables(), &self.pattern_palette, #[trigger] updated_positions@[k]),
                    forall|x: int, y: int| 0 <= x < self.size[0] && 0 <= y < self.size[1] && (#[trigger] self.cells()[x][y])@ != old(self).cells()[x][y]@ ==> touched(self.pattern_store.tables(), old(self).pattern_store.tables(), &self.pattern_palette, [x as usize, y as usize]),
                    done ==> positions_to_recalculate.len() == 0,
                decreases updated_positions.len() - i,
            {
                let grid_pos = updated_positions[i];
                let ghost cells_i = self.cells();
                assert(self.cells()[grid_pos[0] as int] == self.grid@[grid_pos[0] as int]@);
                let current = self.grid[grid_pos[0]][grid_pos[1]];
                let allowed = self.pattern_store.get_possible_flags(&self.pattern_palette, grid_pos);
                let possible_flags = current.intersection(allowed);
                let removed = current.symmetric_difference(possible_flags);
                if !removed.is_empty() {
                    let narrowed = current.intersection(possible_flags);
                    let ghost g1 = self.grid@;
                    let ghost cells1 = self.cells();
                    let ghost ptr1 = positions_to_recalculate@;
                    self.grid[grid_pos[0]][grid_pos[1]] = narrowed;
                    proof {
                        crate::world::world_tile_type_flags::lemma_flag_bits(current@, allowed@);
                        crate::world::world_tile_type_flags::lemma_flag_bits(current@, possible_flags@);
                        lemma_intersection_within(current@, allowed@);
                        assert(narrowed@ == possible_flags@);
                        lemma_intersection_within(current@, current@);
                        assert(current@ != possible_flags@);
                        lemma_narrowing_lowers_count(current, narrowed);
                        lemma_type_total_update(grid_view(g1), grid_pos[0] as int, grid_pos[1] as int, narrowed);
                        assert(self.cells() =~= grid_view(g1).update(
                            grid_pos[0] as int,
                            grid_view(g1)[grid_pos[0] as int].update(grid_pos[1] as int, narrowed),
                        ));
                        assert forall|x: int, y: int|
                            0 <= x < self.size[0] && 0 <= y < self.size[1] implies #[trigger] self.cells()[x][y]@ & old(self).cells()[x][y]@ == self.cells()[x][y]@ by {
                            if x == grid_pos[0] && y == grid_pos[1] {
                                lemma_subset_trans(old(self).cells()[x][y]@, current@, narrowed@);
                            } else {
                                assert(self.cells()[x][y] == grid_view(g1)[x][y]);
                            }
                        }
                        assert forall|x: int, y: int| 0 <= x < self.size[0] && 0 <= y < self.size[1] implies (#[trigger] self.cells()[x][y]).well_formed() by {
                            if !(x == grid_pos[0] && y == grid_pos[1]) {
                                assert(self.cells()[x][y] == grid_view(g1)[x][y]);
                            }
                        }
                        assert(is_rect(self.cells(), self.size[0] as int, self.size[1] as int)) by {
                            assert forall|x: int| 0 <= x < self.size[0] implies #[trigger] self.cells()[x].len() == self.size[1] by {
                                assert(grid_view(g1)[x].len() == self.size[1]);
                            }
                        }
                    }
                    proof {
                        lemma_removed_disjoint(current@, allowed@);
                        assert forall|x: int, y: int|
                            0 <= x < self.size[0] && 0 <= y < self.size[1] implies #[trigger] self.cells()[x][y]@ & cells1[x][y]@ == self.cells()[x][y]@ by {
                            if x == grid_pos[0] && y == grid_pos[1] {
                                lemma_intersection_within(current@, allowed@);
                            } else {
                                assert(self.cells()[x][y] == cells1[x][y]);
                                lemma_intersection_within(cells1[x][y]@, cells1[x][y]@);
                            }
                        }
                        if h {
                            lemma_conflicts_narrowed(
                                self.pattern_store.tables(),
                                old(self).pattern_store.tables(),
                                cells1,
                                self.cells(),
                                &self.pattern_palette,
                                self.size,
                            );
                            assert forall|k: int| 0 <= k < ptr1.len() implies self.cells()[(#[trigger] ptr1[k]).0[0] as int][ptr1[k].0[1] as int]@ & ptr1[k].1@ == 0 by {
                                let c = ptr1[k].0;
                                lemma_subset_lacks(self.cells()[c[0] as int][c[1] as int]@, cells1[c[0] as int][c[1] as int]@, ptr1[k].1@);
                            }
                        }
                    }
                    proof {
                        lemma_intersection_within(current@, allowed@);
                        assert(settled(self.cells(), &self.pattern_store, &self.pattern_palette, grid_pos));
                        assert forall|x: int, y: int|
                            0 <= x < self.size[0] && 0 <= y < self.size[1] && !(x == grid_pos[0] && y == grid_pos[1])
                                implies #[trigger] self.cells()[x][y] == cells_i[x][y] by {
                        }
                    }
                    proof {
                        if hc {
                            assert forall|x: int, y: int|
                                0 <= x < self.size[0] && 0 <= y < self.size[1] && !(x == grid_pos[0] && y == grid_pos[1])
                                    implies #[trigger] self.cells()[x][y] == cells1[x][y] by {
                            }
                            lemma_agrees_replace(
                                self.pattern_store.tables(),
                                cells1,
                                self.cells(),
                                &self.pattern_palette,
                                self.size,
                                ptr1,
                                position,
                                grid_pos,
                                narrowed,
                                removed,
                            );
                        }
                        assert(touched(self.pattern_store.tables(), old(self).pattern_store.tables(), &self.pattern_palette, updated_positions@[i as int]));
                        assert forall|x: int, y: int|
                            0 <= x < self.size[0] && 0 <= y < self.size[1] && (#[trigger] self.cells()[x][y])@ != old(self).cells()[x][y]@
                                implies touched(self.pattern_store.tables(), old(self).pattern_store.tables(), &self.pattern_palette, [x as usize, y as usize]) by {
                            if x == grid_pos[0] && y == grid_pos[1] {
                                assert([x as usize, y as usize] == grid_pos);
                            } else {
                                assert(self.cells()[x][y] == cells1[x][y]);
                            }
                        }
                    }
                    done = false;
                    positions_to_recalculate.push((grid_pos, removed));
                    proof {
                        if h {
                            assert forall|k: int| 0 <= k < positions_to_recalculate.len() implies self.cells()[(#[trigger] positions_to_recalculate@[k]).0[0] as int][positions_to_recalculate@[k].0[1] as int]@ & positions_to_recalculate@[k].1@ == 0 by {
                                if k < ptr1.len() {
                                    assert(positions_to_recalculate@[k] == ptr1[k]);
                                }
                            }
                        }
                    }
                }
                proof {
                    if removed@ == 0 {
                        lemma_unchanged_within(current@, allowed@);
                        assert(settled(self.cells(), &self.pattern_store, &self.pattern_palette, grid_pos));
                    }
                    let rest = updated_positions@.subrange(i as int, updated_positions.len() as int);
                    let rest1 = updated_positions@.subrange(i + 1, updated_positions.len() as int);
                    assert forall|p: [usize; 2]|
                        p[0] < self.size[0] && p[1] < self.size[1] && #[trigger] touched(
                            self.pattern_store.tables(),
                            old(self).pattern_store.tables(),
                            &self.pattern_palette,
                            p,
                        ) implies settled(self.cells(), &self.pattern_store, &self.pattern_palette, p) || listed(rest1, p) by {
                        if p[0] == grid_pos[0] && p[1] == grid_pos[1] {
                            self.pattern_store.lemma_bounds(&self.pattern_palette);
                            PatternStore::lemma_possible_frame(
                                &self.pattern_store,
                                &self.pattern_store,
                                &self.pattern_palette,
                                grid_pos,
                                p,
                                self.pattern_palette.max_size()[1] as int,
                                self.pattern_palette.max_size()[0] as int,
                                0,
                            );
                        } else {
                            assert(self.cells()[p[0] as int][p[1] as int] == cells_i[p[0] as int][p[1] as int]);
                            if listed(rest, p) {
                                let k = choose|k: int| 0 <= k < rest.len() && (#[trigger] rest[k])[0] == p[0] && rest[k][1] == p[1];
                                assert(k != 0);
                                assert(rest1[k - 1] == rest[k]);
                            }
                        }
                    }
                }
                i += 1;
            }
            proof {
                let none = updated_positions@.subrange(updated_positions.len() as int, updated_positions.len() as int);
                assert forall|p: [usize; 2]| !listed(none, p) by {}
            }
            proof {
                if done && hc {
                    assert(positions_to_recalculate@ =~= Seq::<([usize; 2], WorldTileTypeFlags)>::empty());
                    lemma_agrees_nothing_owed(
                        self.pattern_store.tables(),
                        self.cells(),
                        &self.pattern_palette,
                        self.size,
                        position,
                        Seq::empty(),
                    );
                }
            }
            if done {
                break;
            }
            updated_positions.clear();
            proof {
                lemma_type_total_nonneg(self.cells());
            }
        }
        proof {
            assert forall|x: int, y: int|
                0 <= x < self.size[0] && 0 <= y < self.size[1] && (#[trigger] self.cells()[x][y])@ != old(self).cells()[x][y]@
                    implies settled(self.cells(), &self.pattern_store, &self.pattern_palette, [x as usize, y as usize]) by {
                assert(touched(self.pattern_store.tables(), old(self).pattern_store.tables(), &self.pattern_palette, [x as usize, y as usize]));
            }
        }
    }
}


/// The set of all types holds each single type.
proof fn lemma_all_has(b: u8)
    by (bit_vector)
    requires
        b == 4 || b == 8 || b == 16 || b == 32 || b == 64,
    ensures
        124u8 & b != 0,
{
}

/// A single type bit is a well-formed set of one type.
proof fn lemma_single_bit(x: u8)
    by (bit_vector)
    requires
        x == 4 || x == 8 || x == 16 || x == 32 || x == 64,
    ensures
        x & 131 == 0,
        (x & 4 != 0 && x & 8 == 0 && x & 16 == 0 && x & 32 == 0 && x & 64 == 0) || (x & 4 == 0 && x & 8 != 0
            && x & 16 == 0 && x & 32 == 0 && x & 64 == 0) || (x & 4 == 0 && x & 8 == 0 && x & 16 != 0 && x
            & 32 == 0 && x & 64 == 0) || (x & 4 == 0 && x & 8 == 0 && x & 16 == 0 && x & 32 != 0 && x & 64
            == 0) || (x & 4 == 0 && x & 8 == 0 && x & 16 == 0 && x & 32 == 0 && x & 64 != 0),
{
}

/// The flag of one tile type is a well-formed set of one type.
pub proof fn lemma_tile_flag(f: WorldTileTypeFlags, t: WorldTileType)
    requires
        f@ == tile_bit(t),
    ensures
        f.well_formed(),
        f.type_count() == 1,
{
    lemma_single_bit(f@);
}

/// A subset has at most as many types.
pub proof fn lemma_subset_count(a: WorldTileTypeFlags, b: WorldTileTypeFlags)
    requires
        b@ & a@ == b@,
    ensures
        b.type_count() <= a.type_count(),
{
    crate::world::world_tile_type_flags::lemma_flag_bits(b@, a@);
    lemma_subset_bits(a@, b@);
}

proof fn lemma_subset_bits(a: u8, b: u8)
    by (bit_vector)
    requires
        b & a == b,
    ensures
        b & 4 != 0 ==> a & 4 != 0,
        b & 8 != 0 ==> a & 8 != 0,
        b & 16 != 0 ==> a & 16 != 0,
        b & 32 != 0 ==> a & 32 != 0,
        b & 64 != 0 ==> a & 64 != 0,
{
}

/// Narrowing every cell does not raise the total.
pub proof fn lemma_type_total_le(g1: Seq<Seq<WorldTileTypeFlags>>, g2: Seq<Seq<WorldTileTypeFlags>>)
    requires
        g1.len() == g2.len(),
        forall|x: int| 0 <= x < g1.len() ==> (#[trigger] g1[x]).len() == g2[x].len(),
        forall|x: int, y: int| 0 <= x < g1.len() && 0 <= y < g1[x].len() ==> #[trigger] g2[x][y]@ & g1[x][y]@ == g2[x][y]@,
    ensures
        type_total(g2) <= type_total(g1),
{
    assert forall|x: int| 0 <= x < g1.len() implies column_types(g2[x]) <= #[trigger] column_types(g1[x]) by {
        assert forall|y: int| 0 <= y < g1[x].len() implies (#[trigger] g2[x][y]).type_count() <= g1[x][y].type_count() by {
            lemma_subset_count(g1[x][y], g2[x][y]);
        }
        crate::world::sums::lemma_sum_le(
            Seq::new(g2[x].len(), |y: int| g2[x][y].type_count() as int),
            Seq::new(g1[x].len(), |y: int| g1[x][y].type_count() as int),
        );
    }
    crate::world::sums::lemma_sum_le(
        Seq::new(g2.len(), |x: int| column_types(g2[x])),
        Seq::new(g1.len(), |x: int| column_types(g1[x])),
    );
}

impl SuperGrid {
    /// Sets the tile types of cell `[x][y]` to `flags` and propagates the
    /// types this removed.
    pub fn set(&mut self, x: usize, y: usize, flags: WorldTileTypeFlags)
        requires
            old(self).well_formed(),
            x < old(self).grid_size()[0],
            y < old(self).grid_size()[1],
            flags.well_formed(),
        ensures
            final(self).well_formed(),
            final(self).grid_size() == old(self).grid_size(),
            final(self).palette() == old(self).palette(),
            final(self).cells()[x as int][y as int]@ & flags@ == final(self).cells()[x as int][y as int]@,
            forall|x1: int, y1: int|
                0 <= x1 < old(self).grid_size()[0] && 0 <= y1 < old(self).grid_size()[1] && (x1, y1) != (x as int, y as int)
                    ==> #[trigger] final(self).cells()[x1][y1]@ & old(self).cells()[x1][y1]@ == final(self).cells()[x1][y1]@,
            tables_within(final(self).store().tables(), old(self).store().tables()),
            flags@ & old(self).cells()[x as int][y as int]@ == flags@ ==> ruled_out_conflict(
                final(self).store().tables(),
                old(self).store().tables(),
                final(self).cells(),
                final(self).palette(),
                final(self).grid_size(),
            ),
            forall|p: [usize; 2]|
                p[0] < final(self).grid_size()[0] && p[1] < final(self).grid_size()[1] && #[trigger] touched(
                    final(self).store().tables(),
                    old(self).store().tables(),
                    final(self).palette(),
                    p,
                ) ==> settled(final(self).cells(), final(self).store(), final(self).palette(), p),
            placements_agree(old(self).store().tables(), old(self).cells(), old(self).palette(), old(self).grid_size())
                ==> placements_agree(final(self).store().tables(), final(self).cells(), final(self).palette(), final(self).grid_size()),
    {
        assert(self.cells()[x as int] == self.grid@[x as int]@);
        let removed_flags = self.grid[x][y].symmetric_difference(flags);
        let ghost g1 = self.grid@;
        self.grid[x][y] = flags;
        proof {
            assert forall|x1: int, y1: int| 0 <= x1 < self.size[0] && 0 <= y1 < self.size[1] implies (#[trigger] self.cells()[x1][y1]).well_formed() by {
                if !(x1 == x && y1 == y) {
                    assert(self.cells()[x1][y1] == grid_view(g1)[x1][y1]);
                }
            }
            assert(is_rect(self.cells(), self.size[0] as int, self.size[1] as int)) by {
                assert forall|x1: int| 0 <= x1 < self.size[0] implies #[trigger] self.cells()[x1].len() == self.size[1] by {
                    assert(grid_view(g1)[x1].len() == self.size[1]);
                }
            }
        }
        let ghost mid = *self;
        proof {
            if placements_agree(old(self).pattern_store.tables(), old(self).cells(), &old(self).pattern_palette, old(self).size) {
                lemma_agrees_nothing_owed(
                    old(self).pattern_store.tables(),
                    old(self).cells(),
                    &old(self).pattern_palette,
                    old(self).size,
                    [x, y],
                    Seq::empty(),
                );
                assert forall|x1: int, y1: int|
                    0 <= x1 < self.size[0] && 0 <= y1 < self.size[1] && !(x1 == x && y1 == y) implies #[trigger] self.cells()[x1][y1]
                        == old(self).cells()[x1][y1] by {
                    assert(self.cells()[x1][y1] == grid_view(g1)[x1][y1]);
                }
                lemma_agrees_replace(
                    self.pattern_store.tables(),
                    old(self).cells(),
                    self.cells(),
                    &self.pattern_palette,
                    self.size,
                    Seq::empty(),
                    [x, y],
                    [x, y],
                    flags,
                    removed_flags,
                );
                assert(Seq::<([usize; 2], WorldTileTypeFlags)>::empty().push(([x, y], removed_flags)) =~= seq![([x, y], removed_flags)]);
            }
        }
        self.update_patterns_around([x, y], removed_flags);
        proof {
            assert(mid.cells()[x as int][y as int] == flags);
            if flags@ & old(self).cells()[x as int][y as int]@ == flags@ {
                lemma_narrowed_disjoint(flags@, old(self).cells()[x as int][y as int]@);
            }
            assert forall|x1: int, y1: int|
                0 <= x1 < old(self).grid_size()[0] && 0 <= y1 < old(self).grid_size()[1] && (x1, y1) != (x as int, y as int)
                    implies #[trigger] self.cells()[x1][y1]@ & old(self).cells()[x1][y1]@ == self.cells()[x1][y1]@ by {
                assert(mid.cells()[x1][y1] == grid_view(g1)[x1][y1]);
                assert(self.cells()[x1][y1]@ & mid.cells()[x1][y1]@ == self.cells()[x1][y1]@);
            }
        }
    }

    /// The tile type that the `i`-th placement still possible over the
    /// cell `[x][y]` puts there.
    pub open spec fn placement_tile(&self, x: usize, y: usize, i: int) -> WorldTileType {
        let ps = self.store().placements(self.palette(), [x, y], self.palette().pattern_count() as int);
        self.palette().tiles_of(ps[i].0.0 as int)[ps[i].1[0] as int][ps[i].1[1] as int]
    }

    /// Decides cell `[x][y]`: sets it to `flag`, the tile type of one of the
    /// placements still possible over it, and propagates the change.
    pub fn collapse_cell(&mut self, x: usize, y: usize, flag: WorldTileTypeFlags)
        requires
            old(self).well_formed(),
            x < old(self).grid_size()[0],
            y < old(self).grid_size()[1],
            exists|i: int|
                0 <= i < old(self).store().placements(
                    old(self).palette(),
                    [x, y],
                    old(self).palette().pattern_count() as int,
                ).len() && flag@ == tile_bit(#[trigger] old(self).placement_tile(x, y, i)),
        ensures
            final(self).well_formed(),
            final(self).grid_size() == old(self).grid_size(),
            final(self).palette() == old(self).palette(),
            final(self).cells()[x as int][y as int]@ & flag@ == final(self).cells()[x as int][y as int]@,
            forall|x1: int, y1: int|
                0 <= x1 < old(self).grid_size()[0] && 0 <= y1 < old(self).grid_size()[1] && (x1, y1) != (x as int, y as int)
                    ==> #[trigger] final(self).cells()[x1][y1]@ & old(self).cells()[x1][y1]@ == final(self).cells()[x1][y1]@,
            tables_within(final(self).store().tables(), old(self).store().tables()),
            flag@ & old(self).cells()[x as int][y as int]@ == flag@ ==> ruled_out_conflict(
                final(self).store().tables(),
                old(self).store().tables(),
                final(self).cells(),
                final(self).palette(),
                final(self).grid_size(),
            ),
            forall|p: [usize; 2]|
                p[0] < final(self).grid_size()[0] && p[1] < final(self).grid_size()[1] && #[trigger] touched(
                    final(self).store().tables(),
                    old(self).store().tables(),
                    final(self).palette(),
                    p,
                ) ==> settled(final(self).cells(), final(self).store(), final(self).palette(), p),
            placements_agree(old(self).store().tables(), old(self).cells(), old(self).palette(), old(self).grid_size())
                ==> placements_agree(final(self).store().tables(), final(self).cells(), final(self).palette(), final(self).grid_size()),
    {
        proof {
            let i = choose|i: int|
                0 <= i < self.store().placements(self.palette(), [x, y], self.palette().pattern_count() as int).len()
                    && flag@ == tile_bit(#[trigger] self.placement_tile(x, y, i));
            lemma_tile_flag(flag, self.placement_tile(x, y, i));
        }
        self.set(x, y, flag);
    }

    /// Cell `[x][y]` is the cell `collapse_grid` picks: among the cells that
    /// may still take more than one type, one with the most ruled-out
    /// placements over it, and the last such one, column by column.
    pub open spec fn picked(&self, x: int, y: int) -> bool {
        &&& 0 <= x < self.grid_size()[0]
        &&& 0 <= y < self.grid_size()[1]
        &&& self.cells()[x][y].type_count() > 1
        &&& forall|x2: int, y2: int|
            0 <= x2 < self.grid_size()[0] && 0 <= y2 < self.grid_size()[1] && (#[trigger] self.cells()[x2][y2]).type_count()
                > 1 ==> self.store().cache()[x2][y2] <= self.store().cache()[x][y] && ((x2 > x || (x2 == x && y2 > y))
                ==> self.store().cache()[x2][y2] < self.store().cache()[x][y])
    }

    /// Collapses the grid: again and again, among the cells that may still
    /// take more than one tile type, the one with the most ruled-out
    /// placements covering it (the last such one, column by column) is set
    /// to the type of one of the placements still possible over it, drawn
    /// evenly at random, and the change is propagated. It stops when every
    /// cell holds at most one type, or when the chosen cell has no possible
    /// placement left to draw from.
    pub fn collapse_grid(&mut self)
        requires
            old(self).well_formed(),
            all_square_patterns(old(self).palette()),
        ensures
            final(self).well_formed(),
            final(self).grid_size() == old(self).grid_size(),
            final(self).palette() == old(self).palette(),
            tables_within(final(self).store().tables(), old(self).store().tables()),
            (forall|x: int, y: int|
                0 <= x < final(self).grid_size()[0] && 0 <= y < final(self).grid_size()[1]
                    ==> #[trigger] final(self).cells()[x][y].type_count() <= 1) || (exists|x: int, y: int|
                #[trigger] final(self).picked(x, y) && final(self).store().placements(
                    final(self).palette(),
                    [x as usize, y as usize],
                    final(self).palette().pattern_count() as int,
                ).len() == 0),
            placements_agree(old(self).store().tables(), old(self).cells(), old(self).palette(), old(self).grid_size())
                ==> placements_agree(final(self).store().tables(), final(self).cells(), final(self).palette(), final(self).grid_size()),
    {
        let ghost hc = placements_agree(old(self).pattern_store.tables(), old(self).cells(), &old(self).pattern_palette, old(self).size);
        loop
            invariant
                self.well_formed(),
                self.size == old(self).size,
                self.pattern_palette == old(self).pattern_palette,
                all_square_patterns(&self.pattern_palette),
                tables_within(self.pattern_store.tables(), old(self).pattern_store.tables()),
                hc == placements_agree(old(self).pattern_store.tables(), old(self).cells(), &old(self).pattern_palette, old(self).size),
                hc ==> placements_agree(self.pattern_store.tables(), self.cells(), &self.pattern_palette, self.size),
            ensures
                self.well_formed(),
                self.size == old(self).size,
                self.pattern_palette == old(self).pattern_palette,
                tables_within(self.pattern_store.tables(), old(self).pattern_store.tables()),
                (forall|x: int, y: int|
                    0 <= x < self.size[0] && 0 <= y < self.size[1] ==> #[trigger] self.cells()[x][y].type_count()
                        <= 1) || (exists|x: int, y: int|
                    #[trigger] self.picked(x, y) && self.pattern_store.placements(
                        &self.pattern_palette,
                        [x as usize, y as usize],
                        self.pattern_palette.pattern_count() as int,
                    ).len() == 0),
                hc ==> placements_agree(self.pattern_store.tables(), self.cells(), &self.pattern_palette, self.size),
            decreases type_total(self.cells()),
        {
            let mut found = false;
            let mut best_x: usize = 0;
            let mut best_y: usize = 0;
            let mut best_value: usize = 0;
            let mut x: usize = 0;
            while x < self.size[0]
                invariant
                    self.well_formed(),
                    x <= self.size[0],
                    found ==> best_x < self.size[0] && best_y < self.size[1] && self.cells()[best_x as int][best_y as int].type_count() > 1,
                    !found ==> forall|x1: int, y1: int|
                        0 <= x1 < x && 0 <= y1 < self.size[1] ==> #[trigger] self.cells()[x1][y1].type_count() <= 1,
                    found ==> best_x < x,
                    found ==> best_value == self.pattern_store.cache()[best_x as int][best_y as int],
                    found ==> forall|x2: int, y2: int|
                        0 <= x2 < x && 0 <= y2 < self.size[1] && (#[trigger] self.cells()[x2][y2]).type_count() > 1
                            ==> self.pattern_store.cache()[x2][y2] <= best_value && ((x2 > best_x || (x2 == best_x && y2 > best_y))
                            ==> self.pattern_store.cache()[x2][y2] < best_value),
                decreases self.size[0] - x,
            {
                let mut y: usize = 0;
                assert(self.cells()[x as int] == self.grid@[x as int]@);
                while y < self.size[1]
                    invariant
                        self.well_formed(),
                        x < self.size[0],
                        y <= self.size[1],
                        self.cells()[x as int] == self.grid@[x as int]@,
                        found ==> best_x < self.size[0] && best_y < self.size[1] && self.cells()[best_x as int][best_y as int].type_count() > 1,
                        !found ==> forall|x1: int, y1: int|
                            (0 <= x1 < x && 0 <= y1 < self.size[1]) || (x1 == x && 0 <= y1 < y) ==> #[trigger] self.cells()[x1][y1].type_count() <= 1,
                        found ==> best_x <= x,
                        found ==> best_value == self.pattern_store.cache()[best_x as int][best_y as int],
                        found ==> forall|x2: int, y2: int|
                            ((0 <= x2 < x && 0 <= y2 < self.size[1]) || (x2 == x && 0 <= y2 < y)) && (#[trigger] self.cells()[x2][y2]).type_count() > 1
                                ==> self.pattern_store.cache()[x2][y2] <= best_value && ((x2 > best_x || (x2 == best_x && y2 > best_y))
                                ==> self.pattern_store.cache()[x2][y2] < best_value),
                    decreases self.size[1] - y,
                {
                    assert(self.cells()[x as int][y as int] == self.grid@[x as int]@[y as int]);
                    if self.grid[x][y].count() > 1 {
                        let value = self.pattern_store.inverse_entropy(&self.pattern_palette, x, y);
                        if !found || value >= best_value {
                            found = true;
                            best_x = x;
                            best_y = y;
                            best_value = value;
                        }
                    }
                    y += 1;
                }
                x += 1;
            }
            if !found {
                break;
            }
            let placements = self.pattern_store.allowed_placements([best_x, best_y], &self.pattern_palette);
            if placements.len() == 0 {
                assert(self.cells()[best_x as int][best_y as int].type_count() > 1);
                assert(self.picked(best_x as int, best_y as int));
                break;
            }
            let random_flag = self.pattern_store.get_random_allowed_flag([best_x, best_y], &self.pattern_palette);
            proof {
                let ps = self.pattern_store.placements(&self.pattern_palette, [best_x, best_y], self.pattern_palette.pattern_count() as int);
                let i = choose|i: int|
                    0 <= i < ps.len() && random_flag@ == tile_bit(
                        self.pattern_palette.tiles_of(ps[i].0.0 as int)[ps[i].1[0] as int][ps[i].1[1] as int],
                    );
                assert(random_flag@ == tile_bit(self.placement_tile(best_x, best_y, i)));
                lemma_tile_flag(random_flag, self.pattern_palette.tiles_of(ps[i].0.0 as int)[ps[i].1[0] as int][ps[i].1[1] as int]);
            }
            let ghost before = *self;
            self.collapse_cell(best_x, best_y, random_flag);
            proof {
                let c0 = before.cells();
                let g1 = c0.update(best_x as int, c0[best_x as int].update(best_y as int, random_flag));
                lemma_type_total_update(c0, best_x as int, best_y as int, random_flag);
                assert forall|x1: int, y1: int|
                    0 <= x1 < g1.len() && 0 <= y1 < g1[x1].len() implies #[trigger] self.cells()[x1][y1]@ & g1[x1][y1]@ == self.cells()[x1][y1]@ by {
                    if x1 == best_x && y1 == best_y {
                    } else {
                        assert(g1[x1][y1] == c0[x1][y1]);
                    }
                }
                assert forall|x1: int| 0 <= x1 < g1.len() implies (#[trigger] g1[x1]).len() == self.cells()[x1].len() by {}
                lemma_type_total_le(g1, self.cells());
                lemma_type_total_nonneg(self.cells());
            }
        }
    }
}

} // verus!
