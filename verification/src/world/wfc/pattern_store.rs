use vstd::prelude::*;

use crate::world::grid::{grid_view, is_rect};
use crate::world::sums::{lemma_sum_constant, lemma_sum_nonneg, lemma_sum_update, sum_int};
use crate::world::tile_grid::{filled_grid, filled_rows};
use crate::world::wfc::pattern_palette::{max_size_of, PatternArray, PatternId, PatternPalette};
use crate::world::world_tile_type_flags::{all_bits, tile_bit, WorldTileTypeFlags};

verus! {

/// The number of `true` entries of a column.
pub open spec fn count_column(c: Seq<bool>) -> int {
    sum_int(Seq::new(c.len(), |y: int| if c[y] { 1int } else { 0int }))
}

/// The number of `true` entries of a grid.
pub open spec fn count_grid(g: Seq<Vec<bool>>) -> int {
    sum_int(Seq::new(g.len(), |x: int| count_column(g[x]@)))
}

/// The number of `true` entries of a table of grids.
pub open spec fn count_table(t: Seq<Vec<Vec<bool>>>) -> int {
    sum_int(Seq::new(t.len(), |i: int| count_grid(t[i]@)))
}

/// Switching one `true` entry off lowers the count by one.
pub proof fn lemma_count_switch_off(t1: Seq<Vec<Vec<bool>>>, t2: Seq<Vec<Vec<bool>>>, i: int, x: int, y: int)
    requires
        0 <= i < t1.len(),
        0 <= x < t1[i]@.len(),
        0 <= y < t1[i]@[x]@.len(),
        t1[i]@[x]@[y],
        t2.len() == t1.len(),
        forall|j: int| 0 <= j < t1.len() && j != i ==> #[trigger] t2[j]@ == t1[j]@,
        t2[i]@.len() == t1[i]@.len(),
        forall|k: int| 0 <= k < t1[i]@.len() && k != x ==> #[trigger] t2[i]@[k]@ == t1[i]@[k]@,
        t2[i]@[x]@ == t1[i]@[x]@.update(y, false),
    ensures
        count_table(t2) == count_table(t1) - 1,
{
    let c1 = t1[i]@[x]@;
    let s0 = Seq::new(c1.len(), |e: int| if c1[e] { 1int } else { 0int });
    lemma_sum_update(s0, y, 0);
    assert(Seq::new(c1.len(), |e: int| if t2[i]@[x]@[e] { 1int } else { 0int }) =~= s0.update(y, 0));
    let g1 = t1[i]@;
    let s1 = Seq::new(g1.len(), |k: int| count_column(g1[k]@));
    lemma_sum_update(s1, x, count_column(t2[i]@[x]@));
    assert(Seq::new(t2[i]@.len(), |k: int| count_column(t2[i]@[k]@)) =~= s1.update(x, count_column(t2[i]@[x]@)));
    let s2 = Seq::new(t1.len(), |j: int| count_grid(t1[j]@));
    lemma_sum_update(s2, i, count_grid(t2[i]@));
    assert(Seq::new(t2.len(), |j: int| count_grid(t2[j]@)) =~= s2.update(i, count_grid(t2[i]@)));
}

/// A count is never negative.
pub proof fn lemma_count_nonneg(t: Seq<Vec<Vec<bool>>>)
    ensures
        count_table(t) >= 0,
{
    assert forall|i: int| 0 <= i < t.len() implies #[trigger] count_grid(t[i]@) >= 0 by {
        let g = t[i]@;
        assert forall|x: int| 0 <= x < g.len() implies #[trigger] count_column(g[x]@) >= 0 by {
            lemma_sum_nonneg(Seq::new(g[x]@.len(), |y: int| if g[x]@[y] { 1int } else { 0int }));
        }
        lemma_sum_nonneg(Seq::new(g.len(), |x: int| count_column(g[x]@)));
    }
    lemma_sum_nonneg(Seq::new(t.len(), |i: int| count_grid(t[i]@)));
}

/// The number of positions at which pattern `i` can be placed over a
/// `grid_size` grid, counting placements that stick out past the edges.
pub open spec fn placement_count(palette: &PatternPalette, grid_size: [usize; 2], i: int) -> int {
    (grid_size[0] + palette.size_of(i)[0] - 1) * (grid_size[1] + palette.size_of(i)[1] - 1)
}

/// The number of placements of all patterns.
pub open spec fn store_capacity(palette: &PatternPalette, grid_size: [usize; 2]) -> int {
    sum_int(Seq::new(palette.pattern_count(), |i: int| placement_count(palette, grid_size, i)))
}

/// Pattern `id` is in the palette and its placement table fits in memory.
pub open spec fn placeable(palette: &PatternPalette, grid_size: [usize; 2], id: PatternId) -> bool {
    &&& palette.well_formed()
    &&& id.0 < palette.pattern_count()
    &&& 1 <= grid_size[0] + palette.size_of(id.0 as int)[0] <= usize::MAX
    &&& 1 <= grid_size[1] + palette.size_of(id.0 as int)[1] <= usize::MAX
}

/// `t` is the placement table of pattern `id` with every placement possible.
pub open spec fn filled_placements(palette: &PatternPalette, grid_size: [usize; 2], id: PatternId, t: Vec<Vec<bool>>) -> bool {
    let w = grid_size[0] + palette.size_of(id.0 as int)[0] - 1;
    let h = grid_size[1] + palette.size_of(id.0 as int)[1] - 1;
    &&& grid_view(t@) == filled_grid(true, w, h)
    &&& is_rect(grid_view(t@), w, h)
}

/// For every pattern and every position at which it can be placed over the
/// grid, whether that placement is still possible; and for every cell of the
/// grid how many placements covering it have been ruled out.
pub struct PatternStore {
    patterns: PatternArray<Vec<Vec<bool>>>,
    pub inverse_entropy_cache: Vec<Vec<usize>>,
    capacity: Ghost<nat>,
    size: Ghost<[usize; 2]>,
}

impl PatternStore {
    /// Whether placement `[x][y]` of pattern `id` is still possible.
    pub closed spec fn enabled(&self, id: int, x: int, y: int) -> bool {
        self.patterns.0@[id]@[x]@[y]
    }

    /// The size of the grid the store was made for.
    pub closed spec fn grid_size(&self) -> [usize; 2] {
        self.size@
    }

    /// The ruled-out counts, by cell.
    pub closed spec fn cache(&self) -> Seq<Seq<usize>> {
        grid_view(self.inverse_entropy_cache@)
    }

    /// The placement tables, by pattern.
    pub closed spec fn tables(&self) -> Seq<Seq<Seq<bool>>> {
        Seq::new(self.patterns.0@.len(), |i: int| grid_view(self.patterns.0@[i]@))
    }

    /// The tables fit the palette and a `grid_size` grid, and no count can
    /// overflow.
    pub closed spec fn well_formed(&self, palette: &PatternPalette) -> bool {
        let grid_size = self.size@;
        &&& palette.well_formed()
        &&& self.patterns.0.len() == palette.pattern_count()
        &&& forall|i: int|
            0 <= i < palette.pattern_count() ==> is_rect(
                #[trigger] grid_view(self.patterns.0@[i]@),
                grid_size[0] + palette.size_of(i)[0] - 1,
                grid_size[1] + palette.size_of(i)[1] - 1,
            )
        &&& is_rect(self.cache(), grid_size[0] as int, grid_size[1] as int)
        &&& self.capacity@ <= usize::MAX
        &&& forall|i: int|
            0 <= i < palette.pattern_count() ==> 1 <= grid_size[0] + (#[trigger] palette.size_of(i))[0] <= usize::MAX
                && 1 <= grid_size[1] + palette.size_of(i)[1] <= usize::MAX
        &&& forall|x: int, y: int|
            0 <= x < grid_size[0] && 0 <= y < grid_size[1] ==> #[trigger] self.cache()[x][y] + count_table(
                self.patterns.0@,
            ) <= self.capacity@
    }

    /// The facts about a well-formed store that its users rely on.
    pub proof fn lemma_bounds(&self, palette: &PatternPalette)
        requires
            self.well_formed(palette),
        ensures
            palette.well_formed(),
            forall|i: int|
                0 <= i < palette.pattern_count() ==> 1 <= self.grid_size()[0] + (#[trigger] palette.size_of(i))[0] <= usize::MAX
                    && 1 <= self.grid_size()[1] + palette.size_of(i)[1] <= usize::MAX,
            self.tables().len() == palette.pattern_count(),
            forall|i: int|
                0 <= i < palette.pattern_count() ==> is_rect(
                    #[trigger] self.tables()[i],
                    self.grid_size()[0] + palette.size_of(i)[0] - 1,
                    self.grid_size()[1] + palette.size_of(i)[1] - 1,
                ),
    {
        assert forall|i: int|
            0 <= i < palette.pattern_count() implies is_rect(
                #[trigger] self.tables()[i],
                self.grid_size()[0] + palette.size_of(i)[0] - 1,
                self.grid_size()[1] + palette.size_of(i)[1] - 1,
            ) by {
            assert(self.tables()[i] == grid_view(self.patterns.0@[i]@));
        }
    }

    /// The number of ruled-out placements covering cell `[x][y]`.
    pub fn inverse_entropy(&self, palette: &PatternPalette, x: usize, y: usize) -> (r: usize)
        requires
            self.well_formed(palette),
            x < self.grid_size()[0],
            y < self.grid_size()[1],
        ensures
            r == self.cache()[x as int][y as int],
    {
        assert(self.cache()[x as int] == self.inverse_entropy_cache@[x as int]@);
        self.inverse_entropy_cache[x][y]
    }

    /// A store for a `grid_size` grid in which every placement of every
    /// pattern is possible and nothing has been ruled out.
    pub fn new(pattern_palette: &PatternPalette, grid_size: [usize; 2]) -> (r: Self)
        requires
            pattern_palette.well_formed(),
            forall|i: int| 0 <= i < pattern_palette.pattern_count() ==> 1 <= grid_size[0] + (#[trigger] pattern_palette.size_of(i))[0] <= usize::MAX,
            forall|i: int| 0 <= i < pattern_palette.pattern_count() ==> 1 <= grid_size[1] + (#[trigger] pattern_palette.size_of(i))[1] <= usize::MAX,
            store_capacity(pattern_palette, grid_size) <= usize::MAX,
        ensures
            r.well_formed(pattern_palette),
            r.grid_size() == grid_size,
            r.tables().len() == pattern_palette.pattern_count(),
            forall|i: int|
                0 <= i < pattern_palette.pattern_count() ==> #[trigger] r.tables()[i] == filled_grid(
                    true,
                    grid_size[0] + pattern_palette.size_of(i)[0] - 1,
                    grid_size[1] + pattern_palette.size_of(i)[1] - 1,
                ),
            r.cache() == filled_grid(0usize, grid_size[0] as int, grid_size[1] as int),
    {
        let table_for = (|pattern_id: PatternId| -> (t: Vec<Vec<bool>>)
            requires
                placeable(pattern_palette, grid_size, pattern_id),
            ensures
                filled_placements(pattern_palette, grid_size, pattern_id, t),
            {
                let size = pattern_palette.get_size(&pattern_id);
                let w = grid_size[0] + size[0] - 1;
                let h = grid_size[1] + size[1] - 1;
                filled_rows(true, w, h)
            });
        let patterns = pattern_palette.get_pattern_array(table_for);
        let inverse_entropy_cache = filled_rows(0usize, grid_size[0], grid_size[1]);
        let ghost cap = store_capacity(pattern_palette, grid_size);
        let r = PatternStore {
            patterns,
            inverse_entropy_cache,
            capacity: Ghost(cap as nat),
            size: Ghost(grid_size),
        };
        proof {
            let t = r.patterns.0@;
            let n = pattern_palette.pattern_count();
            assert forall|i: int| 0 <= i < n implies #[trigger] count_grid(t[i]@) == placement_count(pattern_palette, grid_size, i) by {
                let w = grid_size[0] + pattern_palette.size_of(i)[0] - 1;
                let h = grid_size[1] + pattern_palette.size_of(i)[1] - 1;
                let g = t[i]@;
                assert(grid_view(g) == filled_grid(true, w, h));
                assert forall|x: int| 0 <= x < w implies #[trigger] count_column(g[x]@) == h by {
                    assert(g[x]@ == grid_view(g)[x]);
                    assert(Seq::new(g[x]@.len(), |y: int| if g[x]@[y] { 1int } else { 0int }) =~= Seq::new(h as nat, |_y: int| 1int));
                    lemma_sum_constant(h as nat, 1);
                }
                assert(Seq::new(g.len(), |x: int| count_column(g[x]@)) =~= Seq::new(w as nat, |_x: int| h));
                lemma_sum_constant(w as nat, h);
            }
            assert(Seq::new(t.len(), |i: int| count_grid(t[i]@)) =~= Seq::new(n, |i: int| placement_count(pattern_palette, grid_size, i)));
            assert(count_table(t) == cap);
            assert forall|i: int| 0 <= i < n implies #[trigger] placement_count(pattern_palette, grid_size, i) >= 0 by {
                let w = grid_size[0] + pattern_palette.size_of(i)[0] - 1;
                let h = grid_size[1] + pattern_palette.size_of(i)[1] - 1;
                assert(w * h >= 0) by (nonlinear_arith)
                    requires
                        w >= 0,
                        h >= 0,
                ;
            }
            lemma_sum_nonneg(Seq::new(n, |i: int| placement_count(pattern_palette, grid_size, i)));
            assert(r.capacity@ == cap);
            assert forall|i: int| 0 <= i < n implies is_rect(
                #[trigger] grid_view(r.patterns.0@[i]@),
                grid_size[0] + pattern_palette.size_of(i)[0] - 1,
                grid_size[1] + pattern_palette.size_of(i)[1] - 1,
            ) by {
                assert(filled_placements(pattern_palette, grid_size, PatternId(i as usize), r.patterns.0@[i]));
            }
            assert forall|x: int, y: int| 0 <= x < grid_size[0] && 0 <= y < grid_size[1] implies #[trigger] r.cache()[x][y] + count_table(t) <= r.capacity@ by {
                assert(r.cache()[x][y] == 0);
            }
            assert(r.tables() =~= Seq::new(n, |i: int| filled_grid(true, grid_size[0] + pattern_palette.size_of(i)[0] - 1, grid_size[1] + pattern_palette.size_of(i)[1] - 1)));
        }
        r
    }
}


/// The cell range `lo..=hi` along one axis covered by a placement whose last
/// cell is at `p`, for a pattern of extent `size` and a grid of extent `n`.
pub open spec fn covered_range(p: int, size: int, n: int) -> (int, int) {
    let lo = (if p >= size - 1 { p } else { size - 1 }) - (size - 1);
    let hi = if p <= n - 1 { p } else { n - 1 };
    (lo, hi)
}

/// The ruled-out counts after one more placement was ruled out, covering
/// cells `xs` by `ys`.
pub open spec fn bumped(c: Seq<Seq<usize>>, w: int, h: int, xs: (int, int), ys: (int, int)) -> Seq<Seq<usize>> {
    Seq::new(
        w as nat,
        |x: int|
            Seq::new(
                h as nat,
                |y: int| (c[x][y] + (if xs.0 <= x <= xs.1 && ys.0 <= y <= ys.1 { 1int } else { 0int })) as usize,
            ),
    )
}

impl PatternStore {
    /// Rules out the placement of `pattern_id` whose cell at `offset` lies
    /// at `grid_pos`. If it was still possible, every grid cell that the
    /// placement covers counts one more ruled-out placement, and the result
    /// is `true`; otherwise nothing changes and the result is `false`.
    pub fn disable_pattern(
        &mut self,
        palette: &PatternPalette,
        pattern_id: PatternId,
        grid_pos: [usize; 2],
        offset: [usize; 2],
    ) -> (r: bool)
        requires
            old(self).well_formed(palette),
            pattern_id.0 < palette.pattern_count(),
            offset[0] < palette.size_of(pattern_id.0 as int)[0],
            offset[1] < palette.size_of(pattern_id.0 as int)[1],
            grid_pos[0] + palette.size_of(pattern_id.0 as int)[0] - offset[0] - 1 < old(self).grid_size()[0] + palette.size_of(pattern_id.0 as int)[0] - 1,
            grid_pos[1] + palette.size_of(pattern_id.0 as int)[1] - offset[1] - 1 < old(self).grid_size()[1] + palette.size_of(pattern_id.0 as int)[1] - 1,
            old(self).grid_size()[0] >= 1,
            old(self).grid_size()[1] >= 1,
        ensures
            ({
                let size = palette.size_of(pattern_id.0 as int);
                let gs = old(self).grid_size();
                let px = grid_pos[0] + size[0] - offset[0] - 1;
                let py = grid_pos[1] + size[1] - offset[1] - 1;
                &&& r == old(self).enabled(pattern_id.0 as int, px, py)
                &&& final(self).grid_size() == gs
                &&& final(self).well_formed(palette)
                &&& final(self).tables() == old(self).tables().update(
                    pattern_id.0 as int,
                    old(self).tables()[pattern_id.0 as int].update(
                        px,
                        old(self).tables()[pattern_id.0 as int][px].update(py, false),
                    ),
                )
                &&& r ==> final(self).cache() == bumped(
                    old(self).cache(),
                    gs[0] as int,
                    gs[1] as int,
                    covered_range(px, size[0] as int, gs[0] as int),
                    covered_range(py, size[1] as int, gs[1] as int),
                )
                &&& !r ==> final(self).cache() == old(self).cache()
            }),
    {
        let size = palette.get_size(&pattern_id);
        assert(is_rect(
            grid_view(self.patterns.0@[pattern_id.0 as int]@),
            self.grid_size()[0] + palette.size_of(pattern_id.0 as int)[0] - 1,
            self.grid_size()[1] + palette.size_of(pattern_id.0 as int)[1] - 1,
        ));
        let table_w = self.patterns.0[pattern_id.0].len();
        assert(grid_view(self.patterns.0@[pattern_id.0 as int]@)[0] == self.patterns.0@[pattern_id.0 as int]@[0]@);
        let table_h = self.patterns.0[pattern_id.0][0].len();
        let pattern_x = grid_pos[0] + (size[0] - offset[0] - 1);
        let pattern_y = grid_pos[1] + (size[1] - offset[1] - 1);
        let ghost gs = self.grid_size();
        let ghost id = pattern_id.0 as int;
        assert(grid_view(self.patterns.0@[id]@)[pattern_x as int] == self.patterns.0@[id]@[pattern_x as int]@);
        if self.patterns.0[pattern_id.0][pattern_x][pattern_y] {
            let ghost t1 = self.patterns.0@;
            self.patterns.0[pattern_id.0][pattern_x][pattern_y] = false;
            let ghost t2 = self.patterns.0@;
            let ghost c0 = self.cache();
            proof {
                lemma_count_switch_off(t1, self.patterns.0@, id, pattern_x as int, pattern_y as int);
                lemma_count_nonneg(self.patterns.0@);
                assert(self.tables() =~= old(self).tables().update(
                    id,
                    old(self).tables()[id].update(
                        pattern_x as int,
                        old(self).tables()[id][pattern_x as int].update(pattern_y as int, false),
                    ),
                )) by {
                    assert forall|i: int| 0 <= i < self.tables().len() && i != id implies self.tables()[i] == old(self).tables()[i] by {}
                    assert(grid_view(self.patterns.0@[id]@) =~= old(self).tables()[id].update(
                        pattern_x as int,
                        old(self).tables()[id][pattern_x as int].update(pattern_y as int, false),
                    ));
                }
                assert forall|i: int|
                    0 <= i < palette.pattern_count() implies is_rect(
                        #[trigger] grid_view(self.patterns.0@[i]@),
                        gs[0] + palette.size_of(i)[0] - 1,
                        gs[1] + palette.size_of(i)[1] - 1,
                    ) by {
                    if i == id {
                        assert(grid_view(self.patterns.0@[i]@) == self.tables()[i]);
                        assert(grid_view(old(self).patterns.0@[i]@) == old(self).tables()[i]);
                    } else {
                        assert(self.patterns.0@[i] == old(self).patterns.0@[i]);
                    }
                }
            }
            let grid_x_min = (if pattern_x >= size[0] - 1 { pattern_x } else { size[0] - 1 }) - (size[0] - 1);
            let grid_y_min = (if pattern_y >= size[1] - 1 { pattern_y } else { size[1] - 1 }) - (size[1] - 1);
            let grid_x_max = pattern_x;
            let grid_y_max = pattern_y;
            let last_x = self.inverse_entropy_cache.len() - 1;
            let x_end = if grid_x_max <= last_x { grid_x_max } else { last_x };
            let mut x = grid_x_min;
            while x <= x_end
                invariant
                    is_rect(self.cache(), gs[0] as int, gs[1] as int),
                    x_end < gs[0],
                    grid_x_min <= x,
                    x == grid_x_min || x <= x_end + 1,
                    gs[1] >= 1,
                    grid_x_min == covered_range(pattern_x as int, size[0] as int, gs[0] as int).0,
                    x_end == covered_range(pattern_x as int, size[0] as int, gs[0] as int).1,
                    grid_y_min == covered_range(grid_y_max as int, size[1] as int, gs[1] as int).0,
                    grid_y_max == pattern_y,
                    self.patterns.0@ == t2,
                        self.patterns.0.len() == palette.pattern_count(),
                        self.size == old(self).size,
                        self.capacity == old(self).capacity,
                    forall|x1: int, y1: int|
                        0 <= x1 < gs[0] && 0 <= y1 < gs[1] ==> #[trigger] c0[x1][y1] + count_table(self.patterns.0@) + 1 <= self.capacity@,
                    self.capacity@ <= usize::MAX,
                    count_table(self.patterns.0@) >= 0,
                    forall|x1: int, y1: int|
                        0 <= x1 < gs[0] && 0 <= y1 < gs[1] ==> #[trigger] self.cache()[x1][y1] == c0[x1][y1] + (
                        if grid_x_min <= x1 < x && covered_range(grid_y_max as int, size[1] as int, gs[1] as int).0 <= y1 <= covered_range(grid_y_max as int, size[1] as int, gs[1] as int).1 { 1int } else { 0int }),
                decreases x_end + 1 - x,
            {
                assert(self.cache()[x as int] == self.inverse_entropy_cache@[x as int]@);
                let last_y = self.inverse_entropy_cache[x].len() - 1;
                let y_end = if grid_y_max <= last_y { grid_y_max } else { last_y };
                let mut y = grid_y_min;
                while y <= y_end
                    invariant
                        is_rect(self.cache(), gs[0] as int, gs[1] as int),
                        x <= x_end,
                        x_end < gs[0],
                        y_end < gs[1],
                        grid_x_min <= x,
                        grid_y_min <= y,
                        y == grid_y_min || y <= y_end + 1,
                        grid_y_min == covered_range(grid_y_max as int, size[1] as int, gs[1] as int).0,
                        y_end == covered_range(grid_y_max as int, size[1] as int, gs[1] as int).1,
                        self.patterns.0@ == t2,
                        self.patterns.0.len() == palette.pattern_count(),
                        self.size == old(self).size,
                        self.capacity == old(self).capacity,
                        forall|x1: int, y1: int|
                            0 <= x1 < gs[0] && 0 <= y1 < gs[1] ==> #[trigger] c0[x1][y1] + count_table(self.patterns.0@) + 1 <= self.capacity@,
                        self.capacity@ <= usize::MAX,
                        count_table(self.patterns.0@) >= 0,
                        forall|x1: int, y1: int|
                            0 <= x1 < gs[0] && 0 <= y1 < gs[1] ==> #[trigger] self.cache()[x1][y1] == c0[x1][y1] + (
                            if (grid_x_min <= x1 < x && grid_y_min <= y1 <= y_end) || (x1 == x && grid_y_min <= y1 < y) { 1int } else { 0int }),
                    decreases y_end + 1 - y,
                {
                    let ghost before = self.cache();
                    assert(self.cache()[x as int] == self.inverse_entropy_cache@[x as int]@);
                    assert(self.cache()[x as int][y as int] == c0[x as int][y as int]);
                    assert(c0[x as int][y as int] + count_table(self.patterns.0@) + 1 <= self.capacity@);
                    let v = self.inverse_entropy_cache[x][y];
                    self.inverse_entropy_cache[x][y] = v + 1;
                    assert(self.cache() =~= before.update(x as int, before[x as int].update(y as int, (v + 1) as usize)));
                    y += 1;
                }
                x += 1;
            }
            proof {
                let xs = covered_range(pattern_x as int, size[0] as int, gs[0] as int);
                let ys = covered_range(pattern_y as int, size[1] as int, gs[1] as int);
                assert(self.cache() =~= bumped(c0, gs[0] as int, gs[1] as int, xs, ys)) by {
                    assert forall|x1: int| 0 <= x1 < gs[0] implies self.cache()[x1] =~= bumped(c0, gs[0] as int, gs[1] as int, xs, ys)[x1] by {}
                }
                assert(is_rect(self.cache(), gs[0] as int, gs[1] as int));
                assert(self.grid_size() == gs);
                assert forall|x1: int, y1: int|
                    0 <= x1 < gs[0] && 0 <= y1 < gs[1] implies #[trigger] self.cache()[x1][y1] + count_table(
                        self.patterns.0@,
                    ) <= self.capacity@ by {
                    assert(c0[x1][y1] + count_table(self.patterns.0@) + 1 <= self.capacity@);
                }
                assert(self.well_formed(palette));
                assert(c0 == old(self).cache());
            }
            return true;
        }
        proof {
            let t = old(self).tables();
            assert(t[id][pattern_x as int][pattern_y as int] == self.patterns.0@[id]@[pattern_x as int]@[pattern_y as int]);
            assert(t[id][pattern_x as int].update(pattern_y as int, false) =~= t[id][pattern_x as int]);
            assert(t[id].update(pattern_x as int, t[id][pattern_x as int]) =~= t[id]);
            assert(t.update(id, t[id]) =~= t);
        }
        false
    }
}


/// A set of bits is within itself, and the empty set within any.
pub proof fn lemma_narrow_bits(a: u8)
    by (bit_vector)
    ensures
        a & a == a,
        0u8 & a == 0,
{
}

/// Unions and intersections of narrowed sets are narrowed.
pub proof fn lemma_narrow_ops(a: u8, b: u8, c: u8, d: u8)
    by (bit_vector)
    requires
        a & c == a,
        b & d == b,
    ensures
        (a | b) & (c | d) == (a | b),
        (a & b) & (c & d) == (a & b),
{
}

/// `x | 0 == x` on bytes.
pub proof fn lemma_or_zero(x: u8)
    by (bit_vector)
    ensures
        x | 0 == x,
{
}

/// No pattern is wider or higher than the largest size.
pub proof fn lemma_max_size(sizes: Seq<[usize; 2]>, k: int, i: int)
    requires
        0 <= i < k <= sizes.len(),
    ensures
        sizes[i][0] <= max_size_of(sizes, k)[0],
        sizes[i][1] <= max_size_of(sizes, k)[1],
    decreases k,
{
    if i < k - 1 {
        lemma_max_size(sizes, k - 1, i);
    }
}

impl PatternStore {
    /// What pattern `id` allows at cell `[x][y]` of the window at
    /// `grid_pos`: the flag of its tile at `[size - x - 1][size - y - 1]`
    /// where its placement ending at `grid_pos + [x][y]` is still possible,
    /// nothing otherwise.
    pub open spec fn allowed_by(&self, palette: &PatternPalette, grid_pos: [usize; 2], id: int, x: int, y: int) -> u8 {
        let size = palette.size_of(id);
        if x < size[0] && y < size[1] && self.enabled(id, grid_pos[0] + x, grid_pos[1] + y) {
            tile_bit(palette.tiles_of(id)[size[0] - x - 1][size[1] - y - 1])
        } else {
            0
        }
    }

    /// The union of what the first `k` patterns allow at cell `[x][y]`.
    pub open spec fn allowed_upto(&self, palette: &PatternPalette, grid_pos: [usize; 2], x: int, y: int, k: int) -> u8
        decreases k,
    {
        if k <= 0 {
            0
        } else {
            self.allowed_upto(palette, grid_pos, x, y, k - 1) | self.allowed_by(palette, grid_pos, k - 1, x, y)
        }
    }

    /// The intersection, starting from all tile types, of what the patterns
    /// allow at the cells before `[x][y]`, column by column over a window of
    /// `rows` rows.
    pub open spec fn possible_through(&self, palette: &PatternPalette, grid_pos: [usize; 2], rows: int, x: int, y: int) -> u8
        decreases x, y,
    {
        if x <= 0 && y <= 0 {
            all_bits()
        } else if y <= 0 {
            self.possible_through(palette, grid_pos, rows, x - 1, rows)
        } else {
            self.possible_through(palette, grid_pos, rows, x, y - 1) & self.allowed_upto(
                palette,
                grid_pos,
                x,
                y - 1,
                palette.pattern_count() as int,
            )
        }
    }

    /// What the first `k` patterns allow at a cell of the window depends only
    /// on their placements over `grid_pos`.
    proof fn lemma_allowed_upto_frame(
        s1: &PatternStore,
        s2: &PatternStore,
        palette: &PatternPalette,
        grid_pos: [usize; 2],
        other_pos: [usize; 2],
        x: int,
        y: int,
        k: int,
    )
        requires
            k <= palette.pattern_count(),
            0 <= x,
            0 <= y,
            other_pos[0] == grid_pos[0],
            other_pos[1] == grid_pos[1],
            forall|i: int, a: int, b: int|
                0 <= i < palette.pattern_count() && 0 <= a < palette.size_of(i)[0] && 0 <= b
                    < palette.size_of(i)[1] ==> #[trigger] s1.enabled(i, grid_pos[0] + a, grid_pos[1] + b)
                    == s2.enabled(i, grid_pos[0] + a, grid_pos[1] + b),
        ensures
            s1.allowed_upto(palette, grid_pos, x, y, k) == s2.allowed_upto(palette, other_pos, x, y, k),
        decreases k,
    {
        if k > 0 {
            PatternStore::lemma_allowed_upto_frame(s1, s2, palette, grid_pos, other_pos, x, y, k - 1);
            let size = palette.size_of(k - 1);
            if 0 <= x < size[0] && 0 <= y < size[1] {
                assert(s1.enabled(k - 1, grid_pos[0] + x, grid_pos[1] + y) == s2.enabled(k - 1, grid_pos[0] + x, grid_pos[1] + y));
            }
        }
    }

    /// The types possible at a cell depend only on the cell's coordinates and
    /// the placements over it.
    pub proof fn lemma_possible_frame(
        s1: &PatternStore,
        s2: &PatternStore,
        palette: &PatternPalette,
        grid_pos: [usize; 2],
        other_pos: [usize; 2],
        rows: int,
        x: int,
        y: int,
    )
        requires
            0 <= x,
            0 <= y,
            0 <= rows,
            other_pos[0] == grid_pos[0],
            other_pos[1] == grid_pos[1],
            forall|i: int, a: int, b: int|
                0 <= i < palette.pattern_count() && 0 <= a < palette.size_of(i)[0] && 0 <= b
                    < palette.size_of(i)[1] ==> #[trigger] s1.enabled(i, grid_pos[0] + a, grid_pos[1] + b)
                    == s2.enabled(i, grid_pos[0] + a, grid_pos[1] + b),
        ensures
            s1.possible_through(palette, grid_pos, rows, x, y) == s2.possible_through(palette, other_pos, rows, x, y),
        decreases x, y,
    {
        if x <= 0 && y <= 0 {
        } else if y <= 0 {
            PatternStore::lemma_possible_frame(s1, s2, palette, grid_pos, other_pos, rows, x - 1, rows);
        } else {
            PatternStore::lemma_possible_frame(s1, s2, palette, grid_pos, other_pos, rows, x, y - 1);
            PatternStore::lemma_allowed_upto_frame(
                s1,
                s2,
                palette,
                grid_pos,
                other_pos,
                x,
                y - 1,
                palette.pattern_count() as int,
            );
        }
    }

    /// The placement tables hold, entry by entry, which placements are still
    /// possible.
    pub proof fn lemma_tables_enabled(&self, palette: &PatternPalette)
        requires
            self.well_formed(palette),
        ensures
            forall|i: int, a: int, b: int|
                0 <= i < self.tables().len() && 0 <= a < self.tables()[i].len() && 0 <= b < self.tables()[i][a].len()
                    ==> #[trigger] self.tables()[i][a][b] == self.enabled(i, a, b),
    {
    }

    /// Where every placement still possible in `s2` (within the tables) is
    /// possible in `s1`, what the first `k` patterns allow at a cell of the
    /// window at `grid_pos` in `s2` is within what they allow in `s1`.
    proof fn lemma_allowed_upto_narrow(
        s1: &PatternStore,
        s2: &PatternStore,
        palette: &PatternPalette,
        grid_pos: [usize; 2],
        x: int,
        y: int,
        k: int,
    )
        requires
            k <= palette.pattern_count(),
            0 <= x,
            0 <= y,
            grid_pos[0] < s1.grid_size()[0],
            grid_pos[1] < s1.grid_size()[1],
            forall|id: int, a: int, b: int|
                0 <= id < palette.pattern_count() && 0 <= a < s1.grid_size()[0] + palette.size_of(id)[0] - 1 && 0 <= b
                    < s1.grid_size()[1] + palette.size_of(id)[1] - 1 && #[trigger] s2.enabled(id, a, b) ==> s1.enabled(id, a, b),
        ensures
            s2.allowed_upto(palette, grid_pos, x, y, k) & s1.allowed_upto(palette, grid_pos, x, y, k)
                == s2.allowed_upto(palette, grid_pos, x, y, k),
        decreases k,
    {
        if k > 0 {
            PatternStore::lemma_allowed_upto_narrow(s1, s2, palette, grid_pos, x, y, k - 1);
            let a2 = s2.allowed_by(palette, grid_pos, k - 1, x, y);
            let a1 = s1.allowed_by(palette, grid_pos, k - 1, x, y);
            lemma_narrow_bits(a1);
            assert(a2 & a1 == a2);
            lemma_narrow_ops(
                s2.allowed_upto(palette, grid_pos, x, y, k - 1),
                a2,
                s1.allowed_upto(palette, grid_pos, x, y, k - 1),
                a1,
            );
        } else {
            lemma_narrow_bits(0);
        }
    }

    /// Where every placement still possible in `s2` is possible in `s1`,
    /// the intersection `possible_through` takes in `s2` is within the one
    /// it takes in `s1`.
    proof fn lemma_possible_through_narrow(
        s1: &PatternStore,
        s2: &PatternStore,
        palette: &PatternPalette,
        grid_pos: [usize; 2],
        rows: int,
        x: int,
        y: int,
    )
        requires
            0 <= x,
            0 <= y,
            0 <= rows,
            grid_pos[0] < s1.grid_size()[0],
            grid_pos[1] < s1.grid_size()[1],
            forall|id: int, a: int, b: int|
                0 <= id < palette.pattern_count() && 0 <= a < s1.grid_size()[0] + palette.size_of(id)[0] - 1 && 0 <= b
                    < s1.grid_size()[1] + palette.size_of(id)[1] - 1 && #[trigger] s2.enabled(id, a, b) ==> s1.enabled(id, a, b),
        ensures
            s2.possible_through(palette, grid_pos, rows, x, y) & s1.possible_through(palette, grid_pos, rows, x, y)
                == s2.possible_through(palette, grid_pos, rows, x, y),
        decreases x, y,
    {
        if x <= 0 && y <= 0 {
            lemma_narrow_bits(all_bits());
        } else if y <= 0 {
            PatternStore::lemma_possible_through_narrow(s1, s2, palette, grid_pos, rows, x - 1, rows);
        } else {
            PatternStore::lemma_possible_through_narrow(s1, s2, palette, grid_pos, rows, x, y - 1);
            PatternStore::lemma_allowed_upto_narrow(s1, s2, palette, grid_pos, x, y - 1, palette.pattern_count() as int);
            lemma_narrow_ops(
                s2.possible_through(palette, grid_pos, rows, x, y - 1),
                s2.allowed_upto(palette, grid_pos, x, y - 1, palette.pattern_count() as int),
                s1.possible_through(palette, grid_pos, rows, x, y - 1),
                s1.allowed_upto(palette, grid_pos, x, y - 1, palette.pattern_count() as int),
            );
        }
    }

    /// Ruling out placements never makes a tile type possible: when the
    /// placements still possible in `s2` are among those of `s1` (as after
    /// any number of calls of `disable_pattern`), the tile types
    /// `get_possible_flags` gives at any cell for `s2` are among those it
    /// gives for `s1`.
    pub proof fn lemma_disabling_adds_no_flag(
        s1: &PatternStore,
        s2: &PatternStore,
        palette: &PatternPalette,
        grid_pos: [usize; 2],
    )
        requires
            s1.well_formed(palette),
            s2.well_formed(palette),
            s2.grid_size() == s1.grid_size(),
            crate::world::wfc::super_grid::tables_within(s2.tables(), s1.tables()),
            grid_pos[0] < s1.grid_size()[0],
            grid_pos[1] < s1.grid_size()[1],
        ensures
            s2.possible_through(palette, grid_pos, palette.max_size()[1] as int, palette.max_size()[0] as int, 0)
                & s1.possible_through(palette, grid_pos, palette.max_size()[1] as int, palette.max_size()[0] as int, 0)
                == s2.possible_through(palette, grid_pos, palette.max_size()[1] as int, palette.max_size()[0] as int, 0),
    {
        s1.lemma_bounds(palette);
        s2.lemma_bounds(palette);
        s1.lemma_tables_enabled(palette);
        s2.lemma_tables_enabled(palette);
        assert forall|id: int, a: int, b: int|
            0 <= id < palette.pattern_count() && 0 <= a < s1.grid_size()[0] + palette.size_of(id)[0] - 1 && 0 <= b
                < s1.grid_size()[1] + palette.size_of(id)[1] - 1 && #[trigger] s2.enabled(id, a, b) implies s1.enabled(id, a, b) by {
            assert(is_rect(s2.tables()[id], s1.grid_size()[0] + palette.size_of(id)[0] - 1, s1.grid_size()[1] + palette.size_of(id)[1] - 1));
            assert(is_rect(s1.tables()[id], s1.grid_size()[0] + palette.size_of(id)[0] - 1, s1.grid_size()[1] + palette.size_of(id)[1] - 1));
            assert(s2.tables()[id][a][b]);
        }
        PatternStore::lemma_possible_through_narrow(
            s1,
            s2,
            palette,
            grid_pos,
            palette.max_size()[1] as int,
            palette.max_size()[0] as int,
            0,
        );
    }

    /// The tile types possible at cell `grid_pos`: over the window of the
    /// largest pattern size ending there, the intersection of the unions of
    /// what each pattern's still possible placements put at each cell.
    pub fn get_possible_flags(&self, palette: &PatternPalette, grid_pos: [usize; 2]) -> (r: WorldTileTypeFlags)
        requires
            self.well_formed(palette),
            grid_pos[0] < self.grid_size()[0],
            grid_pos[1] < self.grid_size()[1],
        ensures
            r@ == self.possible_through(palette, grid_pos, palette.max_size()[1] as int, palette.max_size()[0] as int, 0),
            r.well_formed(),
    {
        proof {
            palette.lemma_well_formed();
        }
        let max_size = palette.get_max_size();
        let n = self.patterns.0.len();
        let mut all_allowed = filled_rows(WorldTileTypeFlags::empty(), max_size[0], max_size[1]);
        proof {
            assert forall|x1: int, y1: int| 0 <= x1 < max_size[0] && 0 <= y1 < max_size[1] implies #[trigger] grid_view(all_allowed@)[x1][y1]@ == self.allowed_upto(palette, grid_pos, x1, y1, 0) by {}
        }
        let mut id: usize = 0;
        while id < n
            invariant
                self.well_formed(palette),
                grid_pos[0] < self.grid_size()[0],
                grid_pos[1] < self.grid_size()[1],
                n == palette.pattern_count(),
                max_size == palette.max_size(),
                max_size == max_size_of(palette.sizes(), n as int),
                id <= n,
                is_rect(grid_view(all_allowed@), max_size[0] as int, max_size[1] as int),
                forall|x1: int, y1: int| 0 <= x1 < max_size[0] && 0 <= y1 < max_size[1] ==> #[trigger] grid_view(all_allowed@)[x1][y1]@ == self.allowed_upto(palette, grid_pos, x1, y1, id as int),
                forall|x1: int, y1: int| 0 <= x1 < max_size[0] && 0 <= y1 < max_size[1] ==> (#[trigger] grid_view(all_allowed@)[x1][y1]).well_formed(),
            decreases n - id,
        {
            let pattern_id = PatternId(id);
            let size = palette.get_size(&pattern_id);
            proof {
                lemma_max_size(palette.sizes(), n as int, id as int);
                assert(is_rect(grid_view(self.patterns.0@[id as int]@), self.grid_size()[0] + size[0] - 1, self.grid_size()[1] + size[1] - 1));
            }
            let table_w = self.patterns.0[id].len();
            let mut x: usize = 0;
            while x < size[0]
                invariant
                    self.well_formed(palette),
                    grid_pos[0] < self.grid_size()[0],
                    grid_pos[1] < self.grid_size()[1],
                    n == palette.pattern_count(),
                    id < n,
                    size == palette.size_of(id as int),
                    size[0] <= max_size[0],
                    size[1] <= max_size[1],
                    is_rect(grid_view(self.patterns.0@[id as int]@), self.grid_size()[0] + size[0] - 1, self.grid_size()[1] + size[1] - 1),
                    table_w == self.grid_size()[0] + size[0] - 1,
                    pattern_id.0 == id,
                    x <= size[0],
                    is_rect(grid_view(all_allowed@), max_size[0] as int, max_size[1] as int),
                    forall|x1: int, y1: int| 0 <= x1 < max_size[0] && 0 <= y1 < max_size[1] ==> #[trigger] grid_view(all_allowed@)[x1][y1]@ == (
                        if x1 < x && y1 < size[1] { self.allowed_upto(palette, grid_pos, x1, y1, id as int) | self.allowed_by(palette, grid_pos, id as int, x1, y1) } else { self.allowed_upto(palette, grid_pos, x1, y1, id as int) }),
                    forall|x1: int, y1: int| 0 <= x1 < max_size[0] && 0 <= y1 < max_size[1] ==> (#[trigger] grid_view(all_allowed@)[x1][y1]).well_formed(),
                decreases size[0] - x,
            {
                let cx = x + grid_pos[0];
                assert(grid_view(self.patterns.0@[id as int]@)[cx as int] == self.patterns.0@[id as int]@[cx as int]@);
                let table_h = self.patterns.0[id][cx].len();
                let mut y: usize = 0;
                while y < size[1]
                    invariant
                        self.well_formed(palette),
                        grid_pos[0] < self.grid_size()[0],
                        grid_pos[1] < self.grid_size()[1],
                        n == palette.pattern_count(),
                        id < n,
                        size == palette.size_of(id as int),
                        size[0] <= max_size[0],
                        size[1] <= max_size[1],
                        is_rect(grid_view(self.patterns.0@[id as int]@), self.grid_size()[0] + size[0] - 1, self.grid_size()[1] + size[1] - 1),
                        table_w == self.grid_size()[0] + size[0] - 1,
                        table_h == self.grid_size()[1] + size[1] - 1,
                        pattern_id.0 == id,
                        cx == x + grid_pos[0],
                        x < size[0],
                        y <= size[1],
                        is_rect(grid_view(all_allowed@), max_size[0] as int, max_size[1] as int),
                        forall|x1: int, y1: int| 0 <= x1 < max_size[0] && 0 <= y1 < max_size[1] ==> #[trigger] grid_view(all_allowed@)[x1][y1]@ == (
                            if (x1 < x && y1 < size[1]) || (x1 == x && y1 < y) { self.allowed_upto(palette, grid_pos, x1, y1, id as int) | self.allowed_by(palette, grid_pos, id as int, x1, y1) } else { self.allowed_upto(palette, grid_pos, x1, y1, id as int) }),
                        forall|x1: int, y1: int| 0 <= x1 < max_size[0] && 0 <= y1 < max_size[1] ==> (#[trigger] grid_view(all_allowed@)[x1][y1]).well_formed(),
                    decreases size[1] - y,
                {
                    assert(grid_view(self.patterns.0@[id as int]@)[cx as int] == self.patterns.0@[id as int]@[cx as int]@);
                    let value = if self.patterns.0[id][cx][y + grid_pos[1]] {
                        WorldTileTypeFlags::from_tile_type(
                            palette.get_tile_type(&pattern_id, [size[0] - x - 1, size[1] - y - 1]),
                        )
                    } else {
                        WorldTileTypeFlags::empty()
                    };
                    assert(value@ == self.allowed_by(palette, grid_pos, id as int, x as int, y as int));
                    let ghost before = all_allowed@;
                    assert(grid_view(all_allowed@)[x as int] == all_allowed@[x as int]@);
                    let current = all_allowed[x][y];
                    let joined = current.union(value);
                    all_allowed[x][y] = joined;
                    proof {
                        assert forall|x1: int| 0 <= x1 < max_size[0] && x1 != x implies #[trigger] all_allowed@[x1] == before[x1] by {}
                        assert(all_allowed@[x as int]@ == before[x as int]@.update(y as int, joined));
                        assert(grid_view(all_allowed@) =~= grid_view(before).update(x as int, grid_view(before)[x as int].update(y as int, joined)));
                        crate::world::world_tile_type_flags::lemma_flag_bits(current@, value@);
                    }
                    y += 1;
                }
                x += 1;
            }
            proof {
                assert forall|x1: int, y1: int| 0 <= x1 < max_size[0] && 0 <= y1 < max_size[1] implies #[trigger] grid_view(all_allowed@)[x1][y1]@ == self.allowed_upto(palette, grid_pos, x1, y1, id + 1) by {
                    if !(x1 < size[0] && y1 < size[1]) {
                        lemma_or_zero(self.allowed_upto(palette, grid_pos, x1, y1, id as int));
                    }
                }
            }
            id += 1;
        }
        let mut possible = WorldTileTypeFlags::all();
        let mut x: usize = 0;
        while x < max_size[0]
            invariant
                max_size == palette.max_size(),
                n == palette.pattern_count(),
                x <= max_size[0],
                is_rect(grid_view(all_allowed@), max_size[0] as int, max_size[1] as int),
                forall|x1: int, y1: int| 0 <= x1 < max_size[0] && 0 <= y1 < max_size[1] ==> #[trigger] grid_view(all_allowed@)[x1][y1]@ == self.allowed_upto(palette, grid_pos, x1, y1, n as int),
                possible@ == self.possible_through(palette, grid_pos, max_size[1] as int, x as int, 0),
                possible.well_formed(),
            decreases max_size[0] - x,
        {
            let mut y: usize = 0;
            assert(grid_view(all_allowed@)[x as int] == all_allowed@[x as int]@);
            while y < max_size[1]
                invariant
                    max_size == palette.max_size(),
                    n == palette.pattern_count(),
                    x < max_size[0],
                    y <= max_size[1],
                    is_rect(grid_view(all_allowed@), max_size[0] as int, max_size[1] as int),
                    grid_view(all_allowed@)[x as int] == all_allowed@[x as int]@,
                    forall|x1: int, y1: int| 0 <= x1 < max_size[0] && 0 <= y1 < max_size[1] ==> #[trigger] grid_view(all_allowed@)[x1][y1]@ == self.allowed_upto(palette, grid_pos, x1, y1, n as int),
                    possible@ == self.possible_through(palette, grid_pos, max_size[1] as int, x as int, y as int),
                    possible.well_formed(),
                decreases max_size[1] - y,
            {
                possible = possible.intersection(all_allowed[x][y]);
                y += 1;
            }
            x += 1;
        }
        possible
    }
}


/// Every pattern of the palette is a square.
pub open spec fn all_square_patterns(palette: &PatternPalette) -> bool {
    forall|i: int| 0 <= i < palette.pattern_count() ==> (#[trigger] palette.size_of(i))[0] == palette.size_of(i)[1]
}

impl PatternStore {
    /// The still possible placements of pattern `id` in column `x` of the
    /// window at `position`, over its first `h` rows, each as the pattern and
    /// the position within it of the cell at `position`.
    pub open spec fn column_placements(&self, palette: &PatternPalette, position: [usize; 2], id: int, x: int, h: int) -> Seq<(PatternId, [usize; 2])>
        decreases h,
    {
        if h <= 0 {
            Seq::empty()
        } else {
            let before = self.column_placements(palette, position, id, x, h - 1);
            let size = palette.size_of(id);
            if self.enabled(id, position[0] + x, position[1] + h - 1) {
                before.push((PatternId(id as usize), [(size[0] - x - 1) as usize, (size[0] - (h - 1) - 1) as usize]))
            } else {
                before
            }
        }
    }

    /// The still possible placements of pattern `id` over the first `w`
    /// columns of the window at `position`.
    pub open spec fn pattern_placements(&self, palette: &PatternPalette, position: [usize; 2], id: int, w: int) -> Seq<(PatternId, [usize; 2])>
        decreases w,
    {
        if w <= 0 {
            Seq::empty()
        } else {
            self.pattern_placements(palette, position, id, w - 1) + self.column_placements(
                palette,
                position,
                id,
                w - 1,
                palette.size_of(id)[1] as int,
            )
        }
    }

    /// The still possible placements of the first `k` patterns over the cell
    /// at `position`.
    pub open spec fn placements(&self, palette: &PatternPalette, position: [usize; 2], k: int) -> Seq<(PatternId, [usize; 2])>
        decreases k,
    {
        if k <= 0 {
            Seq::empty()
        } else {
            self.placements(palette, position, k - 1) + self.pattern_placements(
                palette,
                position,
                k - 1,
                palette.size_of(k - 1)[0] as int,
            )
        }
    }

    /// Every still possible placement over the cell at `position`, pattern
    /// by pattern, column by column, row by row.
    pub fn allowed_placements(&self, position: [usize; 2], palette: &PatternPalette) -> (r: Vec<(PatternId, [usize; 2])>)
        requires
            self.well_formed(palette),
            all_square_patterns(palette),
            position[0] < self.grid_size()[0],
            position[1] < self.grid_size()[1],
        ensures
            r@ == self.placements(palette, position, palette.pattern_count() as int),
            forall|i: int| 0 <= i < r.len() ==> (#[trigger] r@[i]).0.0 < palette.pattern_count() && r@[i].1[0] < palette.size_of(r@[i].0.0 as int)[0]
                && r@[i].1[1] < palette.size_of(r@[i].0.0 as int)[1],
    {
        let n = self.patterns.0.len();
        let mut r: Vec<(PatternId, [usize; 2])> = Vec::new();
        let mut id: usize = 0;
        while id < n
            invariant
                self.well_formed(palette),
                all_square_patterns(palette),
                position[0] < self.grid_size()[0],
                position[1] < self.grid_size()[1],
                n == palette.pattern_count(),
                id <= n,
                r@ == self.placements(palette, position, id as int),
                forall|i: int| 0 <= i < r.len() ==> (#[trigger] r@[i]).0.0 < palette.pattern_count() && r@[i].1[0] < palette.size_of(r@[i].0.0 as int)[0]
                    && r@[i].1[1] < palette.size_of(r@[i].0.0 as int)[1],
            decreases n - id,
        {
            let size = palette.get_size(&PatternId(id));
            proof {
                assert(is_rect(grid_view(self.patterns.0@[id as int]@), self.grid_size()[0] + size[0] - 1, self.grid_size()[1] + size[1] - 1));
            }
            let ghost front = r@;
            let table_w = self.patterns.0[id].len();
            let mut x: usize = 0;
            while x < size[0]
                invariant
                    self.well_formed(palette),
                    all_square_patterns(palette),
                    table_w == self.grid_size()[0] + size[0] - 1,
                    position[0] < self.grid_size()[0],
                    position[1] < self.grid_size()[1],
                    n == palette.pattern_count(),
                    id < n,
                    size == palette.size_of(id as int),
                    size[0] == size[1],
                    is_rect(grid_view(self.patterns.0@[id as int]@), self.grid_size()[0] + size[0] - 1, self.grid_size()[1] + size[1] - 1),
                    x <= size[0],
                    r@ == front + self.pattern_placements(palette, position, id as int, x as int),
                    forall|i: int| 0 <= i < r.len() ==> (#[trigger] r@[i]).0.0 < palette.pattern_count() && r@[i].1[0] < palette.size_of(r@[i].0.0 as int)[0]
                        && r@[i].1[1] < palette.size_of(r@[i].0.0 as int)[1],
                decreases size[0] - x,
            {
                let ghost front2 = r@;
                let cx = position[0] + x;
                assert(grid_view(self.patterns.0@[id as int]@)[cx as int] == self.patterns.0@[id as int]@[cx as int]@);
                let table_h = self.patterns.0[id][cx].len();
                let mut y: usize = 0;
                while y < size[1]
                    invariant
                        self.well_formed(palette),
                        position[0] < self.grid_size()[0],
                        position[1] < self.grid_size()[1],
                        n == palette.pattern_count(),
                        id < n,
                        size == palette.size_of(id as int),
                        size[0] == size[1],
                        is_rect(grid_view(self.patterns.0@[id as int]@), self.grid_size()[0] + size[0] - 1, self.grid_size()[1] + size[1] - 1),
                        grid_view(self.patterns.0@[id as int]@)[cx as int] == self.patterns.0@[id as int]@[cx as int]@,
                        cx == position[0] + x,
                        table_h == self.grid_size()[1] + size[1] - 1,
                        x < size[0],
                        y <= size[1],
                        r@ == front2 + self.column_placements(palette, position, id as int, x as int, y as int),
                        forall|i: int| 0 <= i < r.len() ==> (#[trigger] r@[i]).0.0 < palette.pattern_count() && r@[i].1[0] < palette.size_of(r@[i].0.0 as int)[0]
                            && r@[i].1[1] < palette.size_of(r@[i].0.0 as int)[1],
                    decreases size[1] - y,
                {
                    if self.patterns.0[id][cx][position[1] + y] {
                        r.push((PatternId(id), [size[0] - x - 1, size[0] - y - 1]));
                    }
                    y += 1;
                    assert(r@ =~= front2 + self.column_placements(palette, position, id as int, x as int, y as int));
                }
                x += 1;
                assert(r@ =~= front + self.pattern_placements(palette, position, id as int, x as int));
            }
            id += 1;
            assert(r@ =~= self.placements(palette, position, id as int));
        }
        r
    }

    /// The tile type that `placement` puts at the cell, as a flag.
    pub fn placement_flag(palette: &PatternPalette, placement: (PatternId, [usize; 2])) -> (r: WorldTileTypeFlags)
        requires
            palette.well_formed(),
            placement.0.0 < palette.pattern_count(),
            placement.1[0] < palette.size_of(placement.0.0 as int)[0],
            placement.1[1] < palette.size_of(placement.0.0 as int)[1],
        ensures
            r@ == tile_bit(palette.tiles_of(placement.0.0 as int)[placement.1[0] as int][placement.1[1] as int]),
    {
        WorldTileTypeFlags::from_tile_type(palette.get_tile_type(&placement.0, placement.1))
    }

    /// The tile type, as a flag, that one of the still possible placements
    /// over the cell at `position`, drawn evenly at random, puts there.
    pub fn get_random_allowed_flag(&self, position: [usize; 2], palette: &PatternPalette) -> (r: WorldTileTypeFlags)
        requires
            self.well_formed(palette),
            all_square_patterns(palette),
            position[0] < self.grid_size()[0],
            position[1] < self.grid_size()[1],
            self.placements(palette, position, palette.pattern_count() as int).len() > 0,
        ensures
            exists|i: int|
                0 <= i < self.placements(palette, position, palette.pattern_count() as int).len() && r@ == tile_bit(
                    palette.tiles_of(self.placements(palette, position, palette.pattern_count() as int)[i].0.0 as int)[
                        self.placements(palette, position, palette.pattern_count() as int)[i].1[0] as int][
                        self.placements(palette, position, palette.pattern_count() as int)[i].1[1] as int],
                ),
    {
        let enableds = self.allowed_placements(position, palette);
        let random = crate::world::random::random_below(enableds.len() as u128) as usize;
        let placement = enableds[random];
        PatternStore::placement_flag(palette, placement)
    }
}

} // verus!
