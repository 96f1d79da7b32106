use vstd::prelude::*;

use crate::world::ms::constraint::{
    spec_direction_at, spec_direction_index, spec_reverse, Constraint, ConstraintDirection, DIRECTION_COUNT,
};
use crate::world::ms::constraint_collection::{constraint_key, ConstraintCollection};
use crate::world::ms::pattern::{Pattern, PatternValue};
use crate::game::world_tile_type::WorldTileType;
use crate::world::grid::{grid_view, is_rect, window};
use crate::world::ms::pattern_collection::{
    all_square, all_transforms, apply_value, edge_present, flipped_edges, keys_below, keys_symmetric, lemma_reverse_key,
    reverse_index, rotated_edges, rules_from, value_present, word_of, PatternCollection,
};
use crate::world::ms::pattern::PatternTransform;
use crate::world::sums::{
    count_where, lemma_count_where_all, lemma_count_where_one_less, lemma_count_where_same,
    lemma_count_where_witness, lemma_sum_nonneg, lemma_sum_update, sum_int,
};
use crate::world::tile_grid::TileGrid;

verus! {

/// For every pattern and direction, the patterns that may stand next to it
/// in that direction.
pub open spec fn supports_match(
    supports: Seq<Vec<Vec<usize>>>,
    keys: Set<(usize, usize, usize)>,
    n: int,
) -> bool {
    &&& supports.len() == n
    &&& forall|p: int| 0 <= p < n ==> #[trigger] supports[p]@.len() == DIRECTION_COUNT
    &&& forall|p: int, d: int, k: int|
        0 <= p < n && 0 <= d < DIRECTION_COUNT && 0 <= k < supports[p]@[d]@.len() ==> #[trigger] supports[p]@[d]@[k] < n
    &&& forall|p: int, d: int|
        0 <= p < n && 0 <= d < DIRECTION_COUNT ==> (#[trigger] supports[p]@[d]@).no_duplicates()
    &&& forall|a: usize, b: usize, d: usize|
        #[trigger] keys.contains((a, b, d)) <==> (a < n && d < DIRECTION_COUNT
            && supports[a as int]@[d as int]@.contains(b))
}

/// The support lists read off a constraint collection: pattern `b` is in
/// list `[a][d]` when constraint `(a, b, d)` is held.
fn build_supports(n: usize, constraint_collection: &ConstraintCollection) -> (r: Vec<
    Vec<Vec<usize>>,
>)
    requires
        keys_below(constraint_collection.keys(), n as int),
    ensures
        supports_match(r@, constraint_collection.keys(), n as int),
{
    let mut r: Vec<Vec<Vec<usize>>> = Vec::new();
    let mut p: usize = 0;
    while p < n
        invariant
            p <= n,
            r.len() == p,
            forall|q: int| 0 <= q < p ==> #[trigger] r@[q]@.len() == DIRECTION_COUNT,
            forall|q: int, d: int| 0 <= q < p && 0 <= d < DIRECTION_COUNT ==> (#[trigger] r@[q]@[d]@)
                == Seq::<usize>::empty(),
        decreases n - p,
    {
        let mut lists: Vec<Vec<usize>> = Vec::new();
        let mut d: usize = 0;
        while d < DIRECTION_COUNT
            invariant
                d <= DIRECTION_COUNT,
                lists.len() == d,
                forall|e: int| 0 <= e < d ==> (#[trigger] lists@[e]@) == Seq::<usize>::empty(),
            decreases DIRECTION_COUNT - d,
        {
            lists.push(Vec::new());
            d += 1;
        }
        r.push(lists);
        p += 1;
    }
    let cs = constraint_collection.to_vec();
    let ghost keys = constraint_collection.keys();
    let mut i: usize = 0;
    while i < cs.len()
        invariant
            i <= cs.len(),
            keys == constraint_collection.keys(),
            keys_below(keys, n as int),
            forall|m: int| 0 <= m < cs@.len() ==> keys.contains(constraint_key(#[trigger] cs@[m])),
            forall|m1: int, m2: int|
                0 <= m1 < m2 < cs@.len() ==> #[trigger] cs@[m1] != #[trigger] cs@[m2],
            r.len() == n,
            forall|q: int| 0 <= q < n ==> #[trigger] r@[q]@.len() == DIRECTION_COUNT,
            forall|q: int, d: int, k: int|
                0 <= q < n && 0 <= d < DIRECTION_COUNT && 0 <= k < r@[q]@[d]@.len() ==> #[trigger] r@[q]@[d]@[k] < n,
            forall|q: int, d: int|
                0 <= q < n && 0 <= d < DIRECTION_COUNT ==> (#[trigger] r@[q]@[d]@).no_duplicates(),
            forall|a: usize, b: usize, d: usize|
                a < n && d < DIRECTION_COUNT ==> (#[trigger] r@[a as int]@[d as int]@.contains(b) <==> exists|m: int|
                    0 <= m < i && constraint_key(#[trigger] cs@[m]) == (a, b, d)),
        decreases cs.len() - i,
    {
        let c = cs[i];
        let a = c.pattern_a_id;
        let d = c.direction.index();
        assert(keys.contains(constraint_key(c)));
        let ghost before = r@;
        proof {
            if r@[a as int]@[d as int]@.contains(c.pattern_b_id) {
                let m = choose|m: int|
                    0 <= m < i && constraint_key(#[trigger] cs@[m]) == (a, c.pattern_b_id, d);
                crate::world::ms::constraint::lemma_direction_index_bijective(
                    cs@[m].direction,
                    c.direction,
                );
                assert(cs@[m] == c);
            }
        }
        r[a][d].push(c.pattern_b_id);
        proof {
            assert(r@[a as int]@[d as int]@ == before[a as int]@[d as int]@.push(c.pattern_b_id));
            assert forall|a2: usize, b2: usize, d2: usize|
                a2 < n && d2 < DIRECTION_COUNT implies (#[trigger] r@[a2 as int]@[d2 as int]@.contains(b2)
                <==> exists|m: int| 0 <= m < i + 1 && constraint_key(#[trigger] cs@[m]) == (a2, b2, d2)) by {
                if a2 == a && d2 == d {
                    if r@[a2 as int]@[d2 as int]@.contains(b2) && b2 != c.pattern_b_id {
                        let k = choose|k: int| 0 <= k < r@[a2 as int]@[d2 as int]@.len() && r@[a2 as int]@[d2 as int]@[k] == b2;
                        assert(before[a2 as int]@[d2 as int]@[k] == b2);
                        assert(before[a2 as int]@[d2 as int]@.contains(b2));
                    }
                    if exists|m: int| 0 <= m < i + 1 && constraint_key(#[trigger] cs@[m]) == (a2, b2, d2) {
                        let m = choose|m: int| 0 <= m < i + 1 && constraint_key(#[trigger] cs@[m]) == (a2, b2, d2);
                        if m < i {
                            assert(before[a2 as int]@[d2 as int]@.contains(b2));
                            let k = choose|k: int| 0 <= k < before[a2 as int]@[d2 as int]@.len() && before[a2 as int]@[d2 as int]@[k] == b2;
                            assert(r@[a2 as int]@[d2 as int]@[k] == b2);
                        } else {
                            assert(r@[a2 as int]@[d2 as int]@[before[a2 as int]@[d2 as int]@.len() as int] == b2);
                        }
                    }
                } else {
                    assert(r@[a2 as int]@[d2 as int]@ == before[a2 as int]@[d2 as int]@);
                    if exists|m: int| 0 <= m < i + 1 && constraint_key(#[trigger] cs@[m]) == (a2, b2, d2) {
                        let m = choose|m: int| 0 <= m < i + 1 && constraint_key(#[trigger] cs@[m]) == (a2, b2, d2);
                        assert(m != i);
                    }
                }
            }
        }
        i += 1;
    }
    proof {
        assert forall|a: usize, b: usize, d: usize|
            #[trigger] keys.contains((a, b, d)) <==> (a < n && d < DIRECTION_COUNT
                && r@[a as int]@[d as int]@.contains(b)) by {
            if keys.contains((a, b, d)) {
                crate::world::ms::constraint::lemma_direction_at_index(d as int);
                let c = Constraint {
                    pattern_a_id: a,
                    pattern_b_id: b,
                    direction: spec_direction_at(d as int),
                };
                assert(constraint_collection.holds(c));
                assert(cs@.contains(c));
                let m = choose|m: int| 0 <= m < cs@.len() && cs@[m] == c;
                assert(constraint_key(cs@[m]) == (a, b, d));
            }
            if a < n && d < DIRECTION_COUNT && r@[a as int]@[d as int]@.contains(b) {
                let m = choose|m: int| 0 <= m < cs@.len() && constraint_key(#[trigger] cs@[m]) == (a, b, d);
                assert(keys.contains(constraint_key(cs@[m])));
            }
        }
    }
    r
}

/// The pattern value cut out of tile grid `g` at `[x][y]`.
pub open spec fn window_value(
    g: Seq<Seq<WorldTileType>>,
    x: int,
    y: int,
    w: usize,
    h: usize,
) -> PatternValue {
    (window(g, x, y, w as int, h as int), [w, h])
}

/// Which of the four kinds of links the window at `[x][y]` has to an earlier
/// window: 0 to the one `w` columns left, 1 to the one `w` left and `h` up,
/// 2 to the one `w` left and `h` down, 3 to the one `h` up. `rows` is the
/// height of the reference grid.
pub open spec fn link_applies(k: int, x: int, y: int, w: int, h: int, rows: int) -> bool {
    if k == 0 {
        x >= w
    } else if k == 1 {
        x >= w && y >= h
    } else if k == 2 {
        x >= w && y < rows - h - (h - 1)
    } else if k == 3 {
        y >= h
    } else {
        false
    }
}

/// The window a link of kind `k` leads to.
pub open spec fn link_target(k: int, x: int, y: int, w: int, h: int) -> (int, int) {
    if k == 0 {
        (x - w, y)
    } else if k == 1 {
        (x - w, y - h)
    } else if k == 2 {
        (x - w, y + h)
    } else {
        (x, y - h)
    }
}

/// The direction, seen from the window at `[x][y]`, in which a link of kind
/// `k` leads.
pub open spec fn link_direction(k: int) -> ConstraintDirection {
    if k == 0 {
        ConstraintDirection::Left
    } else if k == 1 {
        ConstraintDirection::TopLeft
    } else if k == 2 {
        ConstraintDirection::BottomLeft
    } else {
        ConstraintDirection::Top
    }
}

/// The constraint keys between patterns `a` and `b` in direction `dir`, both
/// ways, are held.
pub open spec fn keys_both_ways(
    keys: Set<(usize, usize, usize)>,
    a: usize,
    b: usize,
    dir: ConstraintDirection,
) -> bool {
    &&& keys.contains((a, b, spec_direction_index(dir) as usize))
    &&& keys.contains((b, a, spec_direction_index(crate::world::ms::constraint::spec_reverse(dir)) as usize))
}

/// The tiles of the `w` by `h` rectangle of the grid at `[x][y]`.
fn cut_window(tile_grid: &TileGrid, x: usize, y: usize, w: usize, h: usize) -> (r: Vec<
    Vec<WorldTileType>,
>)
    requires
        x + w <= tile_grid.data.len(),
        forall|i: int| x <= i < x + w ==> y + h <= #[trigger] tile_grid.data@[i].len(),
    ensures
        grid_view(r@) == window(tile_grid.tiles(), x as int, y as int, w as int, h as int),
        is_rect(grid_view(r@), w as int, h as int),
{
    let ghost g = tile_grid.tiles();
    let mut r: Vec<Vec<WorldTileType>> = Vec::new();
    let mut i: usize = 0;
    while i < w
        invariant
            i <= w,
            x + w <= tile_grid.data.len(),
            forall|i: int| x <= i < x + w ==> y + h <= #[trigger] tile_grid.data@[i].len(),
            g == tile_grid.tiles(),
            r.len() == i,
            forall|k: int| 0 <= k < i ==> #[trigger] r@[k]@ == g[x + k].subrange(y as int, y + h),
        decreases w - i,
    {
        let mut column: Vec<WorldTileType> = Vec::new();
        let mut j: usize = 0;
        assert(y + h <= tile_grid.data@[x + i].len());
        assert(g[x + i] == tile_grid.data@[x + i]@);
        assert(column@ =~= g[x + i].subrange(y as int, y + j));
        while j < h
            invariant
                i < w,
                j <= h,
                x + w <= tile_grid.data.len(),
                y + h <= tile_grid.data@[x + i].len(),
                g == tile_grid.tiles(),
                g[x + i] == tile_grid.data@[x + i]@,
                column@ == g[x + i].subrange(y as int, y + j),
            decreases h - j,
        {
            column.push(tile_grid.data[x + i][y + j]);
            j += 1;
            assert(column@ =~= g[x + i].subrange(y as int, y + j));
        }
        r.push(column);
        i += 1;
    }
    assert(grid_view(r@) =~= window(g, x as int, y as int, w as int, h as int));
    assert forall|k: int| 0 <= k < w implies #[trigger] grid_view(r@)[k].len() == h by {
        assert(g[x + k] == tile_grid.data@[x + k]@);
        assert(y + h <= tile_grid.data@[x + k].len());
        assert(r@[k]@ == g[x + k].subrange(y as int, y + h));
    }
    r
}

/// An AC4 constraint solver over a grid of cells, each of which holds one
/// of the patterns of a reference grid. For every cell, pattern and
/// direction it counts the patterns still possible in the neighbouring cell
/// in that direction that may stand next to the pattern; a pattern stays
/// possible in a cell while all eight of its counts are above zero.
pub struct MSGrid {
    pattern_collection: PatternCollection,
    pattern_supports: Vec<Vec<Vec<usize>>>,
    support_count_grid: Vec<Vec<Vec<Vec<usize>>>>,
    grid_size: [usize; 2],
}

impl MSGrid {
    /// The patterns, by id.
    pub closed spec fn values(&self) -> Seq<PatternValue> {
        self.pattern_collection.values()
    }

    /// How often each pattern was seen in the reference grid.
    pub closed spec fn pattern_counts(&self) -> Seq<usize> {
        self.pattern_collection.pattern_counts@
    }

    /// The number of cells along each axis.
    pub closed spec fn size(&self) -> [usize; 2] {
        self.grid_size
    }

    /// The patterns that may stand next to pattern `p` in direction `d`.
    pub closed spec fn supports(&self, p: int, d: int) -> Seq<usize> {
        self.pattern_supports@[p]@[d]@
    }

    /// The neighbour constraints, as keys `(a, b, direction index)`.
    pub closed spec fn support_keys(&self) -> Set<(usize, usize, usize)> {
        Set::new(
            |k: (usize, usize, usize)|
                k.0 < self.pattern_supports.len() && k.2 < DIRECTION_COUNT
                    && self.pattern_supports@[k.0 as int]@[k.2 as int]@.contains(k.1),
        )
    }

    /// The count of pattern `p` in direction `d` at cell `[x][y]`.
    pub closed spec fn count(&self, x: int, y: int, p: int, d: int) -> usize {
        self.support_count_grid@[x]@[y]@[p]@[d]
    }

    /// Pattern `p` is still possible at cell `[x][y]`.
    pub open spec fn alive(&self, x: int, y: int, p: int) -> bool {
        forall|d: int| 0 <= d < DIRECTION_COUNT ==> #[trigger] self.count(x, y, p, d) > 0
    }

    /// Some pattern is still possible at cell `[x][y]`.
    pub open spec fn cell_alive(&self, x: int, y: int) -> bool {
        exists|p: int| 0 <= p < self.values().len() && #[trigger] self.alive(x, y, p)
    }

    /// Every cell still has a possible pattern.
    pub open spec fn all_cells_alive(&self) -> bool {
        forall|x: int, y: int|
            0 <= x < self.size()[0] && 0 <= y < self.size()[1] ==> #[trigger] self.cell_alive(x, y)
    }

    /// Exactly pattern `p` is possible at cell `[x][y]`.
    pub open spec fn collapsed_to(&self, x: int, y: int, p: int) -> bool {
        &&& 0 <= p < self.values().len()
        &&& self.alive(x, y, p)
        &&& forall|q: int| 0 <= q < self.values().len() && q != p ==> !#[trigger] self.alive(x, y, q)
    }

    /// Cell `[x][y]` is collapsed to a single pattern.
    pub open spec fn cell_collapsed(&self, x: int, y: int) -> bool {
        exists|p: int| #[trigger] self.collapsed_to(x, y, p)
    }

    /// The shapes of the tables agree with the patterns and the grid size.
    pub closed spec fn well_formed(&self) -> bool {
        let n = self.pattern_collection.patterns.len();
        &&& self.pattern_collection.well_formed()
        &&& self.pattern_supports.len() == n
        &&& forall|p: int| 0 <= p < n ==> #[trigger] self.pattern_supports@[p]@.len() == DIRECTION_COUNT
        &&& forall|p: int, d: int, k: int|
            0 <= p < n && 0 <= d < DIRECTION_COUNT && 0 <= k < self.pattern_supports@[p]@[d]@.len()
                ==> #[trigger] self.pattern_supports@[p]@[d]@[k] < n
        &&& forall|p: int, d: int|
            0 <= p < n && 0 <= d < DIRECTION_COUNT ==> (#[trigger] self.pattern_supports@[p]@[d]@).no_duplicates()
        &&& self.support_count_grid.len() == self.grid_size[0]
        &&& forall|x: int|
            0 <= x < self.grid_size[0] ==> #[trigger] self.support_count_grid@[x]@.len()
                == self.grid_size[1]
        &&& forall|x: int, y: int|
            0 <= x < self.grid_size[0] && 0 <= y < self.grid_size[1]
                ==> #[trigger] self.support_count_grid@[x]@[y]@.len() == n
        &&& forall|x: int, y: int, p: int|
            0 <= x < self.grid_size[0] && 0 <= y < self.grid_size[1] && 0 <= p < n
                ==> #[trigger] self.support_count_grid@[x]@[y]@[p]@.len() == DIRECTION_COUNT
    }
}

/// The shape and the values of a grid of count tables that are all copies
/// of the initial table.
proof fn lemma_initial_count_grid(
    sc: Seq<Vec<Vec<Vec<usize>>>>,
    table: Seq<Vec<usize>>,
    supports: Seq<Vec<Vec<usize>>>,
    w: int,
    h: int,
)
    requires
        sc.len() == w,
        forall|x: int| 0 <= x < w ==> #[trigger] sc[x]@.len() == h,
        forall|x: int, y: int| 0 <= x < w && 0 <= y < h ==> #[trigger] grid_view(sc[x]@[y]@)
            == grid_view(table),
        table.len() == supports.len(),
        forall|p: int| 0 <= p < supports.len() ==> #[trigger] table[p]@.len() == DIRECTION_COUNT,
        forall|p: int, d: int|
            0 <= p < supports.len() && 0 <= d < DIRECTION_COUNT ==> #[trigger] table[p]@[d]
                == supports[p]@[d]@.len(),
    ensures
        forall|x: int, y: int|
            0 <= x < w && 0 <= y < h ==> #[trigger] sc[x]@[y]@.len() == supports.len(),
        forall|x: int, y: int, p: int|
            0 <= x < w && 0 <= y < h && 0 <= p < supports.len() ==> #[trigger] sc[x]@[y]@[p]@.len()
                == DIRECTION_COUNT,
        forall|x: int, y: int, p: int, d: int|
            0 <= x < w && 0 <= y < h && 0 <= p < supports.len() && 0 <= d < DIRECTION_COUNT
                ==> #[trigger] sc[x]@[y]@[p]@[d] == supports[p]@[d]@.len(),
{
    assert forall|x: int, y: int| 0 <= x < w && 0 <= y < h implies #[trigger] sc[x]@[y]@.len()
        == supports.len() by {
        assert(grid_view(sc[x]@[y]@).len() == grid_view(table).len());
    }
    assert forall|x: int, y: int, p: int|
        0 <= x < w && 0 <= y < h && 0 <= p < supports.len() implies #[trigger] sc[x]@[y]@[p]@ == table[p]@ by {
        assert(grid_view(sc[x]@[y]@)[p] == grid_view(table)[p]);
    }
}

/// A grid of `w` by `h` cells, each holding a copy of `table`.
fn fill_count_grid(table: &Vec<Vec<usize>>, w: usize, h: usize) -> (r: Vec<Vec<Vec<Vec<usize>>>>)
    ensures
        r.len() == w,
        forall|x: int| 0 <= x < w ==> #[trigger] r@[x]@.len() == h,
        forall|x: int, y: int| 0 <= x < w && 0 <= y < h ==> #[trigger] grid_view(r@[x]@[y]@)
            == grid_view(table@),
{
    let mut r: Vec<Vec<Vec<Vec<usize>>>> = Vec::new();
    let mut x: usize = 0;
    while x < w
        invariant
            x <= w,
            r.len() == x,
            forall|i: int| 0 <= i < x ==> #[trigger] r@[i]@.len() == h,
            forall|i: int, y: int| 0 <= i < x && 0 <= y < h ==> #[trigger] grid_view(r@[i]@[y]@)
                == grid_view(table@),
        decreases w - x,
    {
        let mut column: Vec<Vec<Vec<usize>>> = Vec::new();
        let mut y: usize = 0;
        while y < h
            invariant
                y <= h,
                column.len() == y,
                forall|j: int| 0 <= j < y ==> #[trigger] grid_view(column@[j]@) == grid_view(table@),
            decreases h - y,
        {
            column.push(crate::world::grid::copy_grid(table));
            y += 1;
        }
        r.push(column);
        x += 1;
    }
    r
}

/// The table of initial counts for some support lists.
fn count_table(supports: &Vec<Vec<Vec<usize>>>) -> (r: Vec<Vec<usize>>)
    requires
        forall|p: int| 0 <= p < supports.len() ==> #[trigger] supports@[p]@.len() == DIRECTION_COUNT,
    ensures
        r.len() == supports.len(),
        forall|p: int| 0 <= p < supports.len() ==> #[trigger] r@[p]@.len() == DIRECTION_COUNT,
        forall|p: int, d: int|
            0 <= p < supports.len() && 0 <= d < DIRECTION_COUNT ==> #[trigger] r@[p]@[d]
                == supports@[p]@[d]@.len(),
{
    let mut r: Vec<Vec<usize>> = Vec::new();
    let mut p: usize = 0;
    while p < supports.len()
        invariant
            p <= supports.len(),
            forall|p: int| 0 <= p < supports.len() ==> #[trigger] supports@[p]@.len() == DIRECTION_COUNT,
            r.len() == p,
            forall|q: int| 0 <= q < p ==> #[trigger] r@[q]@.len() == DIRECTION_COUNT,
            forall|q: int, d: int|
                0 <= q < p && 0 <= d < DIRECTION_COUNT ==> #[trigger] r@[q]@[d] == supports@[q]@[d]@.len(),
        decreases supports.len() - p,
    {
        let mut row: Vec<usize> = Vec::new();
        let mut d: usize = 0;
        while d < DIRECTION_COUNT
            invariant
                p < supports.len(),
                supports@[p as int]@.len() == DIRECTION_COUNT,
                d <= DIRECTION_COUNT,
                row.len() == d,
                forall|e: int| 0 <= e < d ==> #[trigger] row@[e] == supports@[p as int]@[e]@.len(),
            decreases DIRECTION_COUNT - d,
        {
            row.push(supports[p][d].len());
            d += 1;
        }
        r.push(row);
        p += 1;
    }
    r
}

/// Records that pattern `b` may stand next to pattern `a` in direction `dir`.
fn add_support(
    constraint_collection: &mut ConstraintCollection,
    a: usize,
    dir: ConstraintDirection,
    b: usize,
)
    ensures
        final(constraint_collection).keys() == old(constraint_collection).keys().insert(
            (a, b, spec_direction_index(dir) as usize),
        ),
{
    constraint_collection.add(Constraint { pattern_a_id: a, pattern_b_id: b, direction: dir });
}

/// `v` is the `w` by `h` window at some `[x][y]` of the reference `g`,
/// which is `rows` high.
pub open spec fn is_window(g: Seq<Seq<WorldTileType>>, w: usize, h: usize, rows: int, v: PatternValue) -> bool {
    exists|x: int, y: int| 0 <= x <= g.len() - w && 0 <= y <= rows - h && v == #[trigger] window_value(g, x, y, w, h)
}

/// The rules seen in the reference `g`: the windows of a link, in the
/// link's direction, and back.
pub open spec fn window_rule(g: Seq<Seq<WorldTileType>>, w: usize, h: usize, rows: int) -> spec_fn(
    PatternValue,
    PatternValue,
    ConstraintDirection,
) -> bool {
    |va: PatternValue, vb: PatternValue, d: ConstraintDirection|
        exists|x: int, y: int, k: int|
            #![trigger link_applies(k, x, y, w as int, h as int, rows)]
            0 <= x <= g.len() - w && 0 <= y <= rows - h && 0 <= k < 4 && link_applies(k, x, y, w as int, h as int, rows) && (
            (va == window_value(g, x, y, w, h) && vb == window_value(
                g,
                link_target(k, x, y, w as int, h as int).0,
                link_target(k, x, y, w as int, h as int).1,
                w,
                h,
            ) && d == link_direction(k)) || (va == window_value(
                g,
                link_target(k, x, y, w as int, h as int).0,
                link_target(k, x, y, w as int, h as int).1,
                w,
                h,
            ) && vb == window_value(g, x, y, w, h) && d == spec_reverse(link_direction(k))))
}

/// `v` is a window of the reference `g` under transforms of `ts`.
pub open spec fn window_image(
    g: Seq<Seq<WorldTileType>>,
    w: usize,
    h: usize,
    rows: int,
    ts: Seq<PatternTransform>,
    v: PatternValue,
) -> bool {
    exists|wd: Seq<PatternTransform>, x: int, y: int|
        0 <= x <= g.len() - w && 0 <= y <= rows - h && word_of(wd, ts) && v == #[trigger] apply_value(
            wd,
            window_value(g, x, y, w, h),
        )
}

/// Every pattern of `vs` is a window of the reference.
#[verifier::opaque]
pub open spec fn windows_only(vs: Seq<PatternValue>, g: Seq<Seq<WorldTileType>>, w: usize, h: usize, rows: int) -> bool {
    forall|j: int| 0 <= j < vs.len() ==> is_window(g, w, h, rows, #[trigger] vs[j])
}

/// Every rule of `keys` over `vs` is one seen in the reference.
#[verifier::opaque]
pub open spec fn keys_seen(
    keys: Set<(usize, usize, usize)>,
    vs: Seq<PatternValue>,
    g: Seq<Seq<WorldTileType>>,
    w: usize,
    h: usize,
    rows: int,
) -> bool {
    forall|k: (usize, usize, usize)|
        #[trigger] keys.contains(k) ==> window_rule(g, w, h, rows)(vs[k.0 as int], vs[k.1 as int], spec_direction_at(k.2 as int))
}

/// Adding the window `[x][y]`, or finding it, keeps every pattern a window
/// and every rule one seen.
proof fn lemma_windows_grow(
    vs0: Seq<PatternValue>,
    vs1: Seq<PatternValue>,
    keys: Set<(usize, usize, usize)>,
    g: Seq<Seq<WorldTileType>>,
    w: usize,
    h: usize,
    rows: int,
    x: int,
    y: int,
)
    requires
        windows_only(vs0, g, w, h, rows),
        keys_seen(keys, vs0, g, w, h, rows),
        keys_below(keys, vs0.len() as int),
        crate::world::ms::pattern_collection::extends(vs0, vs1),
        0 <= x <= g.len() - w,
        0 <= y <= rows - h,
        forall|j: int| vs0.len() <= j < vs1.len() ==> #[trigger] vs1[j] == window_value(g, x, y, w, h),
    ensures
        windows_only(vs1, g, w, h, rows),
        keys_seen(keys, vs1, g, w, h, rows),
{
    reveal(windows_only);
    reveal(keys_seen);
    assert forall|j: int| 0 <= j < vs1.len() implies is_window(g, w, h, rows, #[trigger] vs1[j]) by {
        if j < vs0.len() {
            crate::world::ms::pattern_collection::lemma_extends_index(vs0, vs1, j);
            assert(is_window(g, w, h, rows, vs0[j]));
        } else {
            assert(vs1[j] == window_value(g, x, y, w, h));
        }
    }
    assert forall|k: (usize, usize, usize)| #[trigger] keys.contains(k) implies window_rule(g, w, h, rows)(
        vs1[k.0 as int],
        vs1[k.1 as int],
        spec_direction_at(k.2 as int),
    ) by {
        crate::world::ms::pattern_collection::lemma_extends_index(vs0, vs1, k.0 as int);
        crate::world::ms::pattern_collection::lemma_extends_index(vs0, vs1, k.1 as int);
    }
}

/// Adding the keys of a link between windows `[x][y]` and its target, both
/// ways, keeps every rule one seen in the reference.
proof fn lemma_seen_insert(
    keys: Set<(usize, usize, usize)>,
    vs: Seq<PatternValue>,
    g: Seq<Seq<WorldTileType>>,
    w: usize,
    h: usize,
    rows: int,
    a: usize,
    b: usize,
    x: int,
    y: int,
    k: int,
)
    requires
        keys_seen(keys, vs, g, w, h, rows),
        0 <= x <= g.len() - w,
        0 <= y <= rows - h,
        0 <= k < 4,
        link_applies(k, x, y, w as int, h as int, rows),
        vs[a as int] == window_value(g, x, y, w, h),
        vs[b as int] == window_value(g, link_target(k, x, y, w as int, h as int).0, link_target(k, x, y, w as int, h as int).1, w, h),
    ensures
        keys_seen(
            keys.insert((a, b, spec_direction_index(link_direction(k)) as usize)).insert(
                (b, a, spec_direction_index(spec_reverse(link_direction(k))) as usize),
            ),
            vs,
            g,
            w,
            h,
            rows,
        ),
{
    reveal(keys_seen);
    let d = link_direction(k);
    crate::world::ms::constraint::lemma_direction_index_bijective(d, d);
    crate::world::ms::constraint::lemma_direction_index_bijective(spec_reverse(d), spec_reverse(d));
    let keys2 = keys.insert((a, b, spec_direction_index(d) as usize)).insert((b, a, spec_direction_index(spec_reverse(d)) as usize));
    assert forall|key: (usize, usize, usize)| #[trigger] keys2.contains(key) implies window_rule(g, w, h, rows)(
        vs[key.0 as int],
        vs[key.1 as int],
        spec_direction_at(key.2 as int),
    ) by {
        if !keys.contains(key) {
            assert(link_applies(k, x, y, w as int, h as int, rows));
        }
    }
}

/// A transform of the mirror images or of the quarter turn is one of all
/// four.
proof fn lemma_transforms_within()
    ensures
        forall|t: PatternTransform| crate::world::ms::pattern_collection::rotation_transforms().contains(t) ==> all_transforms().contains(t),
        forall|t: PatternTransform| crate::world::ms::pattern_collection::flip_transforms().contains(t) ==> all_transforms().contains(t),
        forall|t: PatternTransform| all_transforms().contains(t) ==> all_transforms().contains(t),
{
    let all = all_transforms();
    assert(all[0] == PatternTransform::Rotation && all[1] == PatternTransform::FlipX && all[2] == PatternTransform::FlipY
        && all[3] == PatternTransform::FlipXY);
    assert forall|t: PatternTransform| crate::world::ms::pattern_collection::rotation_transforms().contains(t) implies all.contains(t) by {
        let i = choose|i: int| 0 <= i < 1 && crate::world::ms::pattern_collection::rotation_transforms()[i] == t;
    }
    assert forall|t: PatternTransform| crate::world::ms::pattern_collection::flip_transforms().contains(t) implies all.contains(t) by {
        let i = choose|i: int| 0 <= i < 3 && crate::world::ms::pattern_collection::flip_transforms()[i] == t;
        if i == 0 {
            assert(all[1] == t);
        } else if i == 1 {
            assert(all[2] == t);
        } else {
            assert(all[3] == t);
        }
    }
}

/// The patterns and rules learned from the windows, turned and then
/// mirrored, are windows and rules seen in the reference, under turns and
/// mirror images.
proof fn lemma_learned_from_windows(
    c0: Set<(usize, usize, usize)>,
    p0: Seq<PatternValue>,
    c1: Set<(usize, usize, usize)>,
    p1: Seq<PatternValue>,
    c2: Set<(usize, usize, usize)>,
    p2: Seq<PatternValue>,
    g: Seq<Seq<WorldTileType>>,
    w: usize,
    h: usize,
    rows: int,
)
    requires
        keys_seen(c0, p0, g, w, h, rows),
        windows_only(p0, g, w, h, rows),
        rules_from(c1, p1, crate::world::ms::pattern_collection::rules_of(c0, p0), crate::world::ms::pattern_collection::rotation_transforms()),
        crate::world::ms::pattern_collection::values_from(p1, p0, crate::world::ms::pattern_collection::rotation_transforms()),
        rules_from(c2, p2, crate::world::ms::pattern_collection::rules_of(c1, p1), crate::world::ms::pattern_collection::flip_transforms()),
        crate::world::ms::pattern_collection::values_from(p2, p1, crate::world::ms::pattern_collection::flip_transforms()),
    ensures
        rules_from(c2, p2, window_rule(g, w, h, rows), all_transforms()),
        forall|j: int| 0 <= j < p2.len() ==> window_image(g, w, h, rows, all_transforms(), #[trigger] p2[j]),
{
    let all = all_transforms();
    let e = Seq::<PatternTransform>::empty();
    assert(word_of(e, all));
    lemma_transforms_within();
    assert(rules_from(c0, p0, window_rule(g, w, h, rows), all)) by {
        reveal(rules_from);
        reveal(keys_seen);
        assert forall|k: (usize, usize, usize)| #[trigger] c0.contains(k) implies crate::world::ms::pattern_collection::rule_from(
            window_rule(g, w, h, rows),
            all,
            p0[k.0 as int],
            p0[k.1 as int],
            spec_direction_at(k.2 as int),
        ) by {
            assert(apply_value(e, p0[k.0 as int]) == p0[k.0 as int]);
            assert(apply_value(e, p0[k.1 as int]) == p0[k.1 as int]);
            assert(crate::world::ms::pattern_collection::apply_dir(e, spec_direction_at(k.2 as int)) == spec_direction_at(k.2 as int));
        }
    }
    crate::world::ms::pattern_collection::lemma_rules_compose(
        c1, p1, c0, p0, window_rule(g, w, h, rows), all,
        crate::world::ms::pattern_collection::rotation_transforms(), all,
    );
    crate::world::ms::pattern_collection::lemma_rules_compose(
        c2, p2, c1, p1, window_rule(g, w, h, rows), all,
        crate::world::ms::pattern_collection::flip_transforms(), all,
    );
    assert(crate::world::ms::pattern_collection::values_from(p0, p0, all)) by {
        reveal(crate::world::ms::pattern_collection::values_from);
        assert forall|j: int| 0 <= j < p0.len() implies crate::world::ms::pattern_collection::value_from(p0, all, #[trigger] p0[j]) by {
            assert(apply_value(e, p0[j]) == p0[j]);
        }
    }
    crate::world::ms::pattern_collection::lemma_values_compose(
        p1, p0, p0, all, crate::world::ms::pattern_collection::rotation_transforms(), all,
    );
    crate::world::ms::pattern_collection::lemma_values_compose(
        p2, p1, p0, all, crate::world::ms::pattern_collection::flip_transforms(), all,
    );
    reveal(crate::world::ms::pattern_collection::values_from);
    reveal(windows_only);
    assert forall|j: int| 0 <= j < p2.len() implies window_image(g, w, h, rows, all, #[trigger] p2[j]) by {
        assert(crate::world::ms::pattern_collection::value_from(p0, all, p2[j]));
        let (wd, a) = choose|wd: Seq<PatternTransform>, a: int| 0 <= a < p0.len() && word_of(wd, all) && p2[j] == #[trigger] apply_value(wd, p0[a]);
        assert(is_window(g, w, h, rows, p0[a]));
        let (x, y) = choose|x: int, y: int| 0 <= x <= g.len() - w && 0 <= y <= rows - h && p0[a] == #[trigger] window_value(g, x, y, w, h);
        assert(p2[j] == apply_value(wd, window_value(g, x, y, w, h)));
    }
}

/// Adding the keys of a constraint and of the constraint back keeps a
/// symmetric key set symmetric.
proof fn lemma_insert_both_ways(
    keys: Set<(usize, usize, usize)>,
    a: usize,
    b: usize,
    dir: ConstraintDirection,
)
    requires
        keys_symmetric(keys),
    ensures
        keys_symmetric(
            keys.insert((a, b, spec_direction_index(dir) as usize)).insert(
                (b, a, spec_direction_index(crate::world::ms::constraint::spec_reverse(dir)) as usize),
            ),
        ),
{
    lemma_reverse_key(dir);
}

/// Everything `from_tile_grid` knows about the windows it has cut so far:
/// window `[x][y]` is pattern `ids[x][y]`, and its links to earlier windows
/// are held both ways.
pub open spec fn windows_recorded(
    g: Seq<Seq<WorldTileType>>,
    w: usize,
    h: usize,
    rows: int,
    ids: Seq<Vec<usize>>,
    vs: Seq<PatternValue>,
    keys: Set<(usize, usize, usize)>,
    x: int,
    y: int,
) -> bool {
    forall|x1: int, y1: int|
        #![trigger ids[x1]@[y1]]
        0 <= x1 && 0 <= y1 && y1 <= rows - h && (x1 < x || (x1 == x && y1 < y)) ==> {
            &&& ids[x1]@[y1] < vs.len()
            &&& vs[ids[x1]@[y1] as int] == window_value(g, x1, y1, w, h)
            &&& forall|k: int|
                0 <= k < 4 && link_applies(k, x1, y1, w as int, h as int, rows) ==> keys_both_ways(
                    keys,
                    ids[x1]@[y1],
                    ids[link_target(k, x1, y1, w as int, h as int).0]@[link_target(
                        k,
                        x1,
                        y1,
                        w as int,
                        h as int,
                    ).1],
                    link_direction(k),
                )
        }
}

/// What the windows and their links become once the patterns have been
/// turned and mirrored.
/// One link of a window, once the patterns have been turned and mirrored.
#[verifier::rlimit(80)]
proof fn lemma_one_link(
    g: Seq<Seq<WorldTileType>>,
    psx: usize,
    psy: usize,
    gs0: int,
    gs1: int,
    ids: Seq<Vec<usize>>,
    p0: Seq<PatternValue>,
    c0: Set<(usize, usize, usize)>,
    p1: Seq<PatternValue>,
    c1: Set<(usize, usize, usize)>,
    p2: Seq<PatternValue>,
    c2: Set<(usize, usize, usize)>,
    x: int,
    y: int,
    k: int,
)
    requires
        1 <= psx <= gs0,
        1 <= psy <= gs1,
        windows_recorded(g, psx, psy, gs1, ids, p0, c0, gs0 - psx + 1, 0),
        crate::world::ms::pattern_collection::distinct_values(p0),
        crate::world::ms::pattern_collection::distinct_values(p2),
        crate::world::ms::pattern_collection::extends(p0, p1),
        crate::world::ms::pattern_collection::extends(p1, p2),
        crate::world::ms::pattern_collection::extends(p0, p2),
        c0.subset_of(c1),
        c1.subset_of(c2),
        forall|a: usize, b: usize, d: usize|
            #[trigger] c0.contains((a, b, d)) ==> rotated_edges(
                c1,
                p1,
                p0[a as int],
                p0[b as int],
                spec_direction_at(d as int),
            ),
        forall|a: usize, b: usize, d: usize|
            #[trigger] c1.contains((a, b, d)) ==> flipped_edges(
                c2,
                p2,
                p1[a as int],
                p1[b as int],
                spec_direction_at(d as int),
            ),
        0 <= x <= gs0 - psx,
        0 <= y <= gs1 - psy,
        0 <= k < 4,
        link_applies(k, x, y, psx as int, psy as int, gs1),
    ensures
        ({
            let va = window_value(g, x, y, psx, psy);
            let t = link_target(k, x, y, psx as int, psy as int);
            let vb = window_value(g, t.0, t.1, psx, psy);
            &&& edge_present(c2, p2, va, vb, link_direction(k))
            &&& rotated_edges(c2, p2, va, vb, link_direction(k))
            &&& flipped_edges(c2, p2, va, vb, link_direction(k))
        }),
{
                let va = window_value(g, x, y, psx, psy);
                let t = link_target(k, x, y, psx as int, psy as int);
                let vb = window_value(g, t.0, t.1, psx, psy);
                let dir = link_direction(k);
                let a = ids[x]@[y];
                let b = ids[t.0]@[t.1];
                assert(ids[x]@[y] == a);
                assert(ids[t.0]@[t.1] == b);
                assert(keys_both_ways(c0, a, b, dir));
                assert(p0[a as int] == va);
                assert(p0[b as int] == vb);
                crate::world::ms::constraint::lemma_direction_index_bijective(dir, dir);
                // the link itself
                assert forall|a2: int, j2: int|
                    #![trigger p0[a2], p0[j2]]
                    0 <= a2 < p0.len() && 0 <= j2 < p0.len() && p0[a2] == va && p0[j2] == vb implies c0.contains(
                    (a2 as usize, j2 as usize, spec_direction_index(dir) as usize),
                ) && c0.contains(
                    (
                        j2 as usize,
                        a2 as usize,
                        spec_direction_index(crate::world::ms::constraint::spec_reverse(dir)) as usize,
                    ),
                ) by {
                    assert(a2 == a as int);
                    assert(j2 == b as int);
                }
                crate::world::ms::pattern_collection::lemma_edge_persists(c0, p0, c2, p2, va, vb, dir);
                // its turns
                let key = (a, b, spec_direction_index(dir) as usize);
                assert(c0.contains(key));
                assert(rotated_edges(c1, p1, va, vb, dir));
                let rt = crate::world::ms::pattern::PatternTransform::Rotation;
                crate::world::ms::pattern_collection::lemma_transformed_edge_persists(c1, p1, c2, p2, rt, va, vb, dir);
                crate::world::ms::pattern_collection::lemma_transformed_edge_persists(
                    c1,
                    p1,
                    c2,
                    p2,
                    rt,
                    crate::world::ms::pattern::transform_value(rt, va),
                    crate::world::ms::pattern::transform_value(rt, vb),
                    crate::world::ms::pattern::transform_direction(rt, dir),
                );
                crate::world::ms::pattern_collection::lemma_transformed_edge_persists(
                    c1,
                    p1,
                    c2,
                    p2,
                    rt,
                    crate::world::ms::pattern::transform_value(rt, crate::world::ms::pattern::transform_value(rt, va)),
                    crate::world::ms::pattern::transform_value(rt, crate::world::ms::pattern::transform_value(rt, vb)),
                    crate::world::ms::pattern::transform_direction(rt, crate::world::ms::pattern::transform_direction(rt, dir)),
                );
                // its mirror images
                assert(c1.contains(key));
                crate::world::ms::pattern_collection::lemma_extends_index(p0, p1, a as int);
                crate::world::ms::pattern_collection::lemma_extends_index(p0, p1, b as int);
                assert(flipped_edges(c2, p2, p1[a as int], p1[b as int], dir));
}

proof fn lemma_window_links(
    g: Seq<Seq<WorldTileType>>,
    psx: usize,
    psy: usize,
    gs0: int,
    gs1: int,
    ids: Seq<Vec<usize>>,
    p0: Seq<PatternValue>,
    c0: Set<(usize, usize, usize)>,
    p1: Seq<PatternValue>,
    c1: Set<(usize, usize, usize)>,
    p2: Seq<PatternValue>,
    c2: Set<(usize, usize, usize)>,
)
    requires
        1 <= psx <= gs0,
        1 <= psy <= gs1,
        windows_recorded(g, psx, psy, gs1, ids, p0, c0, gs0 - psx + 1, 0),
        crate::world::ms::pattern_collection::distinct_values(p0),
        crate::world::ms::pattern_collection::distinct_values(p2),
        crate::world::ms::pattern_collection::extends(p0, p1),
        crate::world::ms::pattern_collection::extends(p1, p2),
        crate::world::ms::pattern_collection::extends(p0, p2),
        c0.subset_of(c1),
        c1.subset_of(c2),
        forall|a: usize, b: usize, d: usize|
            #[trigger] c0.contains((a, b, d)) ==> rotated_edges(
                c1,
                p1,
                p0[a as int],
                p0[b as int],
                spec_direction_at(d as int),
            ),
        forall|a: usize, b: usize, d: usize|
            #[trigger] c1.contains((a, b, d)) ==> flipped_edges(
                c2,
                p2,
                p1[a as int],
                p1[b as int],
                spec_direction_at(d as int),
            ),
    ensures
        forall|x: int, y: int|
            0 <= x <= gs0 - psx && 0 <= y <= gs1 - psy ==> value_present(
                p2,
                #[trigger] window_value(g, x, y, psx, psy),
            ),
        forall|x: int, y: int, k: int|
            0 <= x <= gs0 - psx && 0 <= y <= gs1 - psy && 0 <= k < 4 && #[trigger] link_applies(
                k,
                x,
                y,
                psx as int,
                psy as int,
                gs1,
            ) ==> {
                let va = window_value(g, x, y, psx, psy);
                let t = link_target(k, x, y, psx as int, psy as int);
                let vb = window_value(g, t.0, t.1, psx, psy);
                &&& edge_present(c2, p2, va, vb, link_direction(k))
                &&& rotated_edges(c2, p2, va, vb, link_direction(k))
                &&& flipped_edges(c2, p2, va, vb, link_direction(k))
            },
{
            assert forall|x: int, y: int|
                0 <= x <= gs0 - psx && 0 <= y <= gs1 - psy implies value_present(
                p2,
                #[trigger] window_value(g, x, y, psx, psy),
            ) by {
                assert(ids[x]@[y] == ids[x]@[y]);
                crate::world::ms::pattern_collection::lemma_extends_index(p0, p2, ids[x]@[y] as int);
            }
            assert forall|x: int, y: int, k: int|
                0 <= x <= gs0 - psx && 0 <= y <= gs1 - psy && 0 <= k < 4 && #[trigger] link_applies(
                    k,
                    x,
                    y,
                    psx as int,
                    psy as int,
                    gs1,
                ) implies {
                    let va = window_value(g, x, y, psx, psy);
                    let t = link_target(k, x, y, psx as int, psy as int);
                    let vb = window_value(g, t.0, t.1, psx, psy);
                    &&& edge_present(c2, p2, va, vb, link_direction(k))
                    &&& rotated_edges(c2, p2, va, vb, link_direction(k))
                    &&& flipped_edges(c2, p2, va, vb, link_direction(k))
                } by {
                lemma_one_link(g, psx, psy, gs0, gs1, ids, p0, c0, p1, c1, p2, c2, x, y, k);
            }
}

impl MSGrid {
    /// Cuts every `pattern_size_x` by `pattern_size_y` window out of the
    /// reference grid, links each window to the windows one pattern width to
    /// its left (straight, up and down) and one pattern height above it,
    /// adds every pattern turned and mirrored with its links, and sets up a
    /// `grid_x_size` by `grid_y_size` grid of cells in which every pattern is
    /// still possible.
    pub fn from_tile_grid(
        tile_grid: &TileGrid,
        pattern_size_x: usize,
        pattern_size_y: usize,
        grid_x_size: usize,
        grid_y_size: usize,
    ) -> (r: Self)
        requires
            tile_grid.well_formed(),
            1 <= pattern_size_x <= tile_grid.grid_size[0],
            1 <= pattern_size_y <= tile_grid.grid_size[1],
            tile_grid.grid_size[0] >= 2 * pattern_size_x ==> tile_grid.grid_size[1] + 1 >= 2
                * pattern_size_y,
        ensures
            r.well_formed(),
            r.size() == [grid_x_size, grid_y_size],
            forall|x: int, y: int|
                0 <= x <= tile_grid.grid_size[0] - pattern_size_x && 0 <= y <= tile_grid.grid_size[1]
                    - pattern_size_y ==> value_present(
                    r.values(),
                    #[trigger] window_value(
                        tile_grid.tiles(),
                        x,
                        y,
                        pattern_size_x,
                        pattern_size_y,
                    ),
                ),
            forall|x: int, y: int, k: int|
                0 <= x <= tile_grid.grid_size[0] - pattern_size_x && 0 <= y <= tile_grid.grid_size[1]
                    - pattern_size_y && 0 <= k < 4 && #[trigger] link_applies(
                    k,
                    x,
                    y,
                    pattern_size_x as int,
                    pattern_size_y as int,
                    tile_grid.grid_size[1] as int,
                ) ==> {
                    let va = window_value(tile_grid.tiles(), x, y, pattern_size_x, pattern_size_y);
                    let t = link_target(k, x, y, pattern_size_x as int, pattern_size_y as int);
                    let vb = window_value(
                        tile_grid.tiles(),
                        t.0,
                        t.1,
                        pattern_size_x,
                        pattern_size_y,
                    );
                    &&& edge_present(r.support_keys(), r.values(), va, vb, link_direction(k))
                    &&& rotated_edges(r.support_keys(), r.values(), va, vb, link_direction(k))
                    &&& flipped_edges(r.support_keys(), r.values(), va, vb, link_direction(k))
                },
            forall|x: int, y: int, p: int, d: int|
                0 <= x < grid_x_size && 0 <= y < grid_y_size && 0 <= p < r.values().len() && 0 <= d
                    < DIRECTION_COUNT ==> #[trigger] r.count(x, y, p, d) == r.supports(p, d).len(),
            pattern_size_x == pattern_size_y ==> all_square(r.values(), pattern_size_x),
            r.arc_consistent(),
            rules_from(
                r.support_keys(),
                r.values(),
                window_rule(tile_grid.tiles(), pattern_size_x, pattern_size_y, tile_grid.grid_size[1] as int),
                all_transforms(),
            ),
            forall|j: int|
                0 <= j < r.values().len() ==> window_image(
                    tile_grid.tiles(),
                    pattern_size_x,
                    pattern_size_y,
                    tile_grid.grid_size[1] as int,
                    all_transforms(),
                    #[trigger] r.values()[j],
                ),
    {
        let ghost g = tile_grid.tiles();
        let psx = pattern_size_x;
        let psy = pattern_size_y;
        let gs0 = tile_grid.grid_size[0];
        let gs1 = tile_grid.grid_size[1];
        let ghost rows = gs1 as int;
        let mut pattern_collection = PatternCollection::new();
        let mut constraint_collection = ConstraintCollection::new();
        let mut pattern_ids: Vec<Vec<usize>> = Vec::new();
        proof {
            reveal(windows_only);
            reveal(keys_seen);
        }
        let mut x: usize = 0;
        while x <= gs0 - psx
            invariant
                tile_grid.well_formed(),
                g == tile_grid.tiles(),
                gs0 == tile_grid.grid_size[0],
                gs1 == tile_grid.grid_size[1],
                rows == gs1,
                1 <= psx <= gs0,
                1 <= psy <= gs1,
                gs0 >= 2 * psx ==> gs1 + 1 >= 2 * psy,
                x <= gs0 - psx + 1,
                pattern_collection.well_formed(),
                forall|i: int|
                    0 <= i < pattern_collection.values().len() ==> #[trigger] pattern_collection.values()[i].1
                        == [psx, psy],
                keys_below(constraint_collection.keys(), pattern_collection.patterns.len() as int),
                keys_symmetric(constraint_collection.keys()),
                windows_only(pattern_collection.values(), g, psx, psy, rows),
                keys_seen(constraint_collection.keys(), pattern_collection.values(), g, psx, psy, rows),
                pattern_ids.len() == x,
                forall|x1: int| 0 <= x1 < x ==> #[trigger] pattern_ids@[x1]@.len() == gs1 - psy + 1,
                windows_recorded(
                    g,
                    psx,
                    psy,
                    rows,
                    pattern_ids@,
                    pattern_collection.values(),
                    constraint_collection.keys(),
                    x as int,
                    0,
                ),
            decreases gs0 - psx + 1 - x,
        {
            pattern_ids.push(Vec::new());
            let mut y: usize = 0;
            while y <= gs1 - psy
                invariant
                    tile_grid.well_formed(),
                    g == tile_grid.tiles(),
                    gs0 == tile_grid.grid_size[0],
                    gs1 == tile_grid.grid_size[1],
                    rows == gs1,
                    1 <= psx <= gs0,
                    1 <= psy <= gs1,
                    gs0 >= 2 * psx ==> gs1 + 1 >= 2 * psy,
                    x <= gs0 - psx,
                    y <= gs1 - psy + 1,
                    pattern_collection.well_formed(),
                    forall|i: int|
                        0 <= i < pattern_collection.values().len() ==> #[trigger] pattern_collection.values()[i].1
                            == [psx, psy],
                    keys_below(constraint_collection.keys(), pattern_collection.patterns.len() as int),
                    keys_symmetric(constraint_collection.keys()),
                    windows_only(pattern_collection.values(), g, psx, psy, rows),
                    keys_seen(constraint_collection.keys(), pattern_collection.values(), g, psx, psy, rows),
                    pattern_ids.len() == x + 1,
                    forall|x1: int| 0 <= x1 < x ==> #[trigger] pattern_ids@[x1]@.len() == gs1 - psy + 1,
                    pattern_ids@[x as int]@.len() == y,
                    windows_recorded(
                        g,
                        psx,
                        psy,
                        rows,
                        pattern_ids@,
                        pattern_collection.values(),
                        constraint_collection.keys(),
                        x as int,
                        y as int,
                    ),
                decreases gs1 - psy + 1 - y,
            {
                let ghost ids0 = pattern_ids@;
                let ghost vs0 = pattern_collection.values();
                let ghost keys0 = constraint_collection.keys();
                proof {
                    assert forall|i: int| x <= i < x + psx implies y + psy
                        <= #[trigger] tile_grid.data@[i].len() by {
                        assert(tile_grid.tiles()[i].len() == gs1);
                    }
                }
                let tiles = cut_window(tile_grid, x, y, psx, psy);
                let pattern = Pattern { tiles, size: [psx, psy] };
                let pattern_id = pattern_collection.add_or_get(pattern);
                let ghost vs1 = pattern_collection.values();
                proof {
                    assert(g.len() == gs0);
                    assert(pattern.value() == window_value(g, x as int, y as int, psx, psy));
                    lemma_windows_grow(vs0, vs1, keys0, g, psx, psy, rows, x as int, y as int);
                }
                proof {
                    assert forall|i: int|
                        0 <= i < vs1.len() implies #[trigger] vs1[i].1 == [psx, psy] by {
                        if i < vs0.len() {
                            crate::world::ms::pattern_collection::lemma_extends_index(vs0, vs1, i);
                        }
                    }
                }
                pattern_ids[x].push(pattern_id);
                let ghost ids1 = pattern_ids@;
                proof {
                    assert forall|x1: int, y1: int|
                        #![trigger ids0[x1]@[y1]]
                        0 <= x1 && 0 <= y1 && y1 <= rows - psy && (x1 < x || (x1 == x && y1 < y))
                            implies ids1[x1]@[y1] == ids0[x1]@[y1] && vs1[ids1[x1]@[y1] as int]
                        == vs0[ids0[x1]@[y1] as int] by {
                        crate::world::ms::pattern_collection::lemma_extends_index(
                            vs0,
                            vs1,
                            ids0[x1]@[y1] as int,
                        );
                    }
                }
                if x > psx - 1 {
                    let left = pattern_ids[x - psx][y];
                    let ghost k0 = constraint_collection.keys();
                    add_support(&mut constraint_collection, pattern_id, ConstraintDirection::Left, left);
                    add_support(&mut constraint_collection, left, ConstraintDirection::Right, pattern_id);
                    proof {
                        lemma_insert_both_ways(k0, pattern_id, left, ConstraintDirection::Left);
                    }
                    proof {
                        let tx: int = x - psx;
                        let ty: int = y as int;
                        assert(ids1[tx]@[ty] == ids0[tx]@[ty]);
                        assert(vs1[left as int] == window_value(g, tx, ty, psx, psy));
                        assert(vs1[pattern_id as int] == window_value(g, x as int, y as int, psx, psy));
                        lemma_seen_insert(k0, vs1, g, psx, psy, rows, pattern_id, left, x as int, y as int, 0);
                    }
                    if y > psy - 1 {
                        let top_left = pattern_ids[x - psx][y - psy];
                        let ghost k0 = constraint_collection.keys();
                        add_support(
                            &mut constraint_collection,
                            pattern_id,
                            ConstraintDirection::TopLeft,
                            top_left,
                        );
                        add_support(
                            &mut constraint_collection,
                            top_left,
                            ConstraintDirection::BottomRight,
                            pattern_id,
                        );
                        proof {
                            lemma_insert_both_ways(k0, pattern_id, top_left, ConstraintDirection::TopLeft);
                        }
                        proof {
                            let tx: int = x - psx;
                            let ty: int = y - psy;
                            assert(ids1[tx]@[ty] == ids0[tx]@[ty]);
                            assert(vs1[top_left as int] == window_value(g, tx, ty, psx, psy));
                            assert(vs1[pattern_id as int] == window_value(g, x as int, y as int, psx, psy));
                            lemma_seen_insert(k0, vs1, g, psx, psy, rows, pattern_id, top_left, x as int, y as int, 1);
                        }
                    }
                    if y < gs1 - psy - (psy - 1) {
                        let bottom_left = pattern_ids[x - psx][y + psy];
                        let ghost k0 = constraint_collection.keys();
                        add_support(
                            &mut constraint_collection,
                            pattern_id,
                            ConstraintDirection::BottomLeft,
                            bottom_left,
                        );
                        add_support(
                            &mut constraint_collection,
                            bottom_left,
                            ConstraintDirection::TopRight,
                            pattern_id,
                        );
                        proof {
                            lemma_insert_both_ways(k0, pattern_id, bottom_left, ConstraintDirection::BottomLeft);
                        }
                        proof {
                            let tx: int = x - psx;
                            let ty: int = y + psy;
                            assert(ids1[tx]@[ty] == ids0[tx]@[ty]);
                            assert(vs1[bottom_left as int] == window_value(g, tx, ty, psx, psy));
                            assert(vs1[pattern_id as int] == window_value(g, x as int, y as int, psx, psy));
                            lemma_seen_insert(k0, vs1, g, psx, psy, rows, pattern_id, bottom_left, x as int, y as int, 2);
                        }
                    }
                }
                if y > psy - 1 {
                    let top = pattern_ids[x][y - psy];
                    let ghost k0 = constraint_collection.keys();
                    add_support(&mut constraint_collection, pattern_id, ConstraintDirection::Top, top);
                    add_support(&mut constraint_collection, top, ConstraintDirection::Bottom, pattern_id);
                    proof {
                        lemma_insert_both_ways(k0, pattern_id, top, ConstraintDirection::Top);
                    }
                    proof {
                        let tx: int = x as int;
                        let ty: int = y - psy;
                        assert(ids1[tx]@[ty] == ids0[tx]@[ty]);
                        assert(vs1[top as int] == window_value(g, tx, ty, psx, psy));
                        assert(vs1[pattern_id as int] == window_value(g, x as int, y as int, psx, psy));
                        lemma_seen_insert(k0, vs1, g, psx, psy, rows, pattern_id, top, x as int, y as int, 3);
                    }
                }
                proof {
                    let keys1 = constraint_collection.keys();
                    assert(keys0.subset_of(keys1));
                    assert forall|key: (usize, usize, usize)| #[trigger] keys1.contains(key) implies key.0
                        < vs1.len() && key.1 < vs1.len() && key.2 < 8 by {
                        if !keys0.contains(key) {
                        }
                    }
                    assert forall|x1: int, y1: int|
                        #![trigger ids1[x1]@[y1]]
                        0 <= x1 && 0 <= y1 && y1 <= rows - psy && (x1 < x || (x1 == x && y1 < y + 1))
                            implies {
                            &&& ids1[x1]@[y1] < vs1.len()
                            &&& vs1[ids1[x1]@[y1] as int] == window_value(g, x1, y1, psx, psy)
                            &&& forall|k: int|
                                0 <= k < 4 && link_applies(k, x1, y1, psx as int, psy as int, rows)
                                    ==> keys_both_ways(
                                    keys1,
                                    ids1[x1]@[y1],
                                    ids1[link_target(k, x1, y1, psx as int, psy as int).0]@[link_target(
                                        k,
                                        x1,
                                        y1,
                                        psx as int,
                                        psy as int,
                                    ).1],
                                    link_direction(k),
                                )
                        } by {
                        if x1 == x && y1 == y {
                        } else {
                            assert(ids1[x1]@[y1] == ids0[x1]@[y1]);
                            assert forall|k: int|
                                0 <= k < 4 && link_applies(k, x1, y1, psx as int, psy as int, rows)
                                    implies keys_both_ways(
                                    keys1,
                                    ids1[x1]@[y1],
                                    ids1[link_target(k, x1, y1, psx as int, psy as int).0]@[link_target(
                                        k,
                                        x1,
                                        y1,
                                        psx as int,
                                        psy as int,
                                    ).1],
                                    link_direction(k),
                                ) by {
                                let t = link_target(k, x1, y1, psx as int, psy as int);
                                assert(ids1[t.0]@[t.1] == ids0[t.0]@[t.1]);
                            }
                        }
                    }
                }
                y += 1;
            }
            x += 1;
        }
        let ghost ids = pattern_ids@;
        let ghost p0 = pattern_collection.values();
        let ghost c0 = constraint_collection.keys();
        pattern_collection.add_rotations(&mut constraint_collection);
        let ghost p1 = pattern_collection.values();
        let ghost c1 = constraint_collection.keys();
        pattern_collection.add_flips(&mut constraint_collection);
        let ghost p2 = pattern_collection.values();
        let ghost c2 = constraint_collection.keys();
        let n = pattern_collection.patterns.len();
        let pattern_supports = build_supports(n, &constraint_collection);
        let table = count_table(&pattern_supports);
        let support_count_grid = fill_count_grid(&table, grid_x_size, grid_y_size);
        let r = MSGrid {
            pattern_collection,
            pattern_supports,
            support_count_grid,
            grid_size: [grid_x_size, grid_y_size],
        };
        proof {
            crate::world::ms::pattern_collection::lemma_extends_trans(p0, p1, p2);
            assert(r.support_keys() =~= c2);
            lemma_initial_count_grid(
                r.support_count_grid@,
                table@,
                r.pattern_supports@,
                grid_x_size as int,
                grid_y_size as int,
            );
            lemma_window_links(g, psx, psy, gs0 as int, gs1 as int, ids, p0, c0, p1, c1, p2, c2);
            if psx == psy {
                assert(all_square(p0, psx));
            }
            r.lemma_initially_arc_consistent(c2);
            lemma_learned_from_windows(c0, p0, c1, p1, c2, p2, g, psx, psy, rows);
            assert(r.values() == p2);
        }
        r
    }
}

/// The sum of the counts of one pattern.
pub open spec fn sum_counts(v: Seq<usize>) -> int {
    sum_int(Seq::new(v.len(), |d: int| v[d] as int))
}

/// The sum of the counts of one cell.
pub open spec fn sum_cell(c: Seq<Vec<usize>>) -> int {
    sum_int(Seq::new(c.len(), |p: int| sum_counts(c[p]@)))
}

/// The sum of the counts of one column of cells.
pub open spec fn sum_column(c: Seq<Vec<Vec<usize>>>) -> int {
    sum_int(Seq::new(c.len(), |y: int| sum_cell(c[y]@)))
}

/// The sum of all counts.
pub open spec fn sum_grid(g: Seq<Vec<Vec<Vec<usize>>>>) -> int {
    sum_int(Seq::new(g.len(), |x: int| sum_column(g[x]@)))
}

/// All counts sum to a number that is not negative.
pub proof fn lemma_sum_grid_nonneg(g: Seq<Vec<Vec<Vec<usize>>>>)
    ensures
        sum_grid(g) >= 0,
{
    assert forall|x: int| 0 <= x < g.len() implies #[trigger] sum_column(g[x]@) >= 0 by {
        let c = g[x]@;
        assert forall|y: int| 0 <= y < c.len() implies #[trigger] sum_cell(c[y]@) >= 0 by {
            let cell = c[y]@;
            assert forall|p: int| 0 <= p < cell.len() implies #[trigger] sum_counts(cell[p]@) >= 0 by {
                lemma_sum_nonneg(Seq::new(cell[p]@.len(), |d: int| cell[p]@[d] as int));
            }
            lemma_sum_nonneg(Seq::new(cell.len(), |p: int| sum_counts(cell[p]@)));
        }
        lemma_sum_nonneg(Seq::new(c.len(), |y: int| sum_cell(c[y]@)));
    }
    lemma_sum_nonneg(Seq::new(g.len(), |x: int| sum_column(g[x]@)));
}

/// Changing one count changes the sum of all counts by the difference.
pub proof fn lemma_sum_grid_update(
    g1: Seq<Vec<Vec<Vec<usize>>>>,
    g2: Seq<Vec<Vec<Vec<usize>>>>,
    x: int,
    y: int,
    p: int,
    d: int,
    v: usize,
)
    requires
        0 <= x < g1.len(),
        0 <= y < g1[x]@.len(),
        0 <= p < g1[x]@[y]@.len(),
        0 <= d < g1[x]@[y]@[p]@.len(),
        g2.len() == g1.len(),
        forall|i: int| 0 <= i < g1.len() && i != x ==> #[trigger] g2[i]@ == g1[i]@,
        g2[x]@.len() == g1[x]@.len(),
        forall|j: int| 0 <= j < g1[x]@.len() && j != y ==> #[trigger] g2[x]@[j]@ == g1[x]@[j]@,
        g2[x]@[y]@.len() == g1[x]@[y]@.len(),
        forall|q: int| 0 <= q < g1[x]@[y]@.len() && q != p ==> #[trigger] g2[x]@[y]@[q]@
            == g1[x]@[y]@[q]@,
        g2[x]@[y]@[p]@ == g1[x]@[y]@[p]@.update(d, v),
    ensures
        sum_grid(g2) == sum_grid(g1) - g1[x]@[y]@[p]@[d] + v,
{
    let c1 = g1[x]@[y]@[p]@;
    let s0 = Seq::new(c1.len(), |e: int| c1[e] as int);
    lemma_sum_update(s0, d, v as int);
    assert(Seq::new(c1.len(), |e: int| g2[x]@[y]@[p]@[e] as int) =~= s0.update(d, v as int));
    let cell1 = g1[x]@[y]@;
    let s1 = Seq::new(cell1.len(), |q: int| sum_counts(cell1[q]@));
    lemma_sum_update(s1, p, sum_counts(g2[x]@[y]@[p]@));
    assert(Seq::new(g2[x]@[y]@.len(), |q: int| sum_counts(g2[x]@[y]@[q]@)) =~= s1.update(
        p,
        sum_counts(g2[x]@[y]@[p]@),
    ));
    let col1 = g1[x]@;
    let s2 = Seq::new(col1.len(), |j: int| sum_cell(col1[j]@));
    lemma_sum_update(s2, y, sum_cell(g2[x]@[y]@));
    assert(Seq::new(g2[x]@.len(), |j: int| sum_cell(g2[x]@[j]@)) =~= s2.update(
        y,
        sum_cell(g2[x]@[y]@),
    ));
    let s3 = Seq::new(g1.len(), |i: int| sum_column(g1[i]@));
    lemma_sum_update(s3, x, sum_column(g2[x]@));
    assert(Seq::new(g2.len(), |i: int| sum_column(g2[i]@)) =~= s3.update(x, sum_column(g2[x]@)));
}

} // verus!

verus! {

/// The neighbours of cell `[x][y]` in column `nx`, with the direction `d`
/// of the one beside it and `du`, `dd` of those above and below.
pub open spec fn column_neighbours(
    nx: usize,
    y: usize,
    h: usize,
    d: ConstraintDirection,
    du: ConstraintDirection,
    dd: ConstraintDirection,
) -> Seq<([usize; 2], ConstraintDirection)> {
    seq![([nx, y], d)] + (if y > 0 {
        seq![([nx, (y - 1) as usize], du)]
    } else {
        Seq::empty()
    }) + (if y + 1 < h {
        seq![([nx, (y + 1) as usize], dd)]
    } else {
        Seq::empty()
    })
}

/// The neighbours of cell `[x][y]` in a `w` by `h` grid, each with the
/// direction in which `[x][y]` lies as seen from it: first the column to the
/// left (beside, above, below), then the column to the right (beside, above,
/// below), then the cell above and the cell below.
pub open spec fn neighbour_list(x: usize, y: usize, w: usize, h: usize) -> Seq<
    ([usize; 2], ConstraintDirection),
> {
    let left: Seq<([usize; 2], ConstraintDirection)> = if x > 0 {
        column_neighbours(
            (x - 1) as usize,
            y,
            h,
            ConstraintDirection::Right,
            ConstraintDirection::BottomRight,
            ConstraintDirection::TopRight,
        )
    } else {
        Seq::empty()
    };
    let right: Seq<([usize; 2], ConstraintDirection)> = if x + 1 < w {
        column_neighbours(
            (x + 1) as usize,
            y,
            h,
            ConstraintDirection::Left,
            ConstraintDirection::BottomLeft,
            ConstraintDirection::TopLeft,
        )
    } else {
        Seq::empty()
    };
    let above: Seq<([usize; 2], ConstraintDirection)> = if y > 0 {
        seq![([x, (y - 1) as usize], ConstraintDirection::Bottom)]
    } else {
        Seq::empty()
    };
    let below: Seq<([usize; 2], ConstraintDirection)> = if y + 1 < h {
        seq![([x, (y + 1) as usize], ConstraintDirection::Top)]
    } else {
        Seq::empty()
    };
    left + right + above + below
}

/// The step from a cell to its neighbour in direction `d`.
pub open spec fn direction_offset(d: ConstraintDirection) -> (int, int) {
    match d {
        ConstraintDirection::Top => (0, -1),
        ConstraintDirection::Right => (1, 0),
        ConstraintDirection::Bottom => (0, 1),
        ConstraintDirection::Left => (-1, 0),
        ConstraintDirection::TopLeft => (-1, -1),
        ConstraintDirection::TopRight => (1, -1),
        ConstraintDirection::BottomLeft => (-1, 1),
        ConstraintDirection::BottomRight => (1, 1),
    }
}

/// Entry `e` lies in a `w` by `h` grid, and one step from it in its
/// direction leads to `[x][y]`.
pub open spec fn leads_to(e: ([usize; 2], ConstraintDirection), x: usize, y: usize, w: usize, h: usize) -> bool {
    &&& e.0[0] < w
    &&& e.0[1] < h
    &&& e.0[0] + direction_offset(e.1).0 == x
    &&& e.0[1] + direction_offset(e.1).1 == y
}

proof fn lemma_concat_leads(
    a: Seq<([usize; 2], ConstraintDirection)>,
    b: Seq<([usize; 2], ConstraintDirection)>,
    x: usize,
    y: usize,
    w: usize,
    h: usize,
)
    requires
        forall|i: int| 0 <= i < a.len() ==> leads_to(#[trigger] a[i], x, y, w, h),
        forall|i: int| 0 <= i < b.len() ==> leads_to(#[trigger] b[i], x, y, w, h),
    ensures
        forall|i: int| 0 <= i < (a + b).len() ==> leads_to(#[trigger] (a + b)[i], x, y, w, h),
{
    assert forall|i: int| 0 <= i < (a + b).len() implies leads_to(#[trigger] (a + b)[i], x, y, w, h) by {
        if i < a.len() {
            assert((a + b)[i] == a[i]);
        } else {
            assert((a + b)[i] == b[i - a.len()]);
        }
    }
}

/// Every neighbour lies in the grid, and one step from it in its direction
/// leads back to `[x][y]`.
pub proof fn lemma_neighbour_list(x: usize, y: usize, w: usize, h: usize)
    requires
        x < w,
        y < h,
    ensures
        neighbour_list(x, y, w, h).len() <= 8,
        forall|i: int|
            0 <= i < neighbour_list(x, y, w, h).len() ==> leads_to(
                #[trigger] neighbour_list(x, y, w, h)[i],
                x,
                y,
                w,
                h,
            ),
{
    let e: Seq<([usize; 2], ConstraintDirection)> = Seq::empty();
    let left: Seq<([usize; 2], ConstraintDirection)> = if x > 0 {
        column_neighbours(
            (x - 1) as usize,
            y,
            h,
            ConstraintDirection::Right,
            ConstraintDirection::BottomRight,
            ConstraintDirection::TopRight,
        )
    } else {
        e
    };
    let right: Seq<([usize; 2], ConstraintDirection)> = if x + 1 < w {
        column_neighbours(
            (x + 1) as usize,
            y,
            h,
            ConstraintDirection::Left,
            ConstraintDirection::BottomLeft,
            ConstraintDirection::TopLeft,
        )
    } else {
        e
    };
    let above: Seq<([usize; 2], ConstraintDirection)> = if y > 0 {
        seq![([x, (y - 1) as usize], ConstraintDirection::Bottom)]
    } else {
        e
    };
    let below: Seq<([usize; 2], ConstraintDirection)> = if y + 1 < h {
        seq![([x, (y + 1) as usize], ConstraintDirection::Top)]
    } else {
        e
    };
    if x > 0 {
        let nx = (x - 1) as usize;
        let s0 = seq![([nx, y], ConstraintDirection::Right)];
        let s1: Seq<([usize; 2], ConstraintDirection)> = if y > 0 {
            seq![([nx, (y - 1) as usize], ConstraintDirection::BottomRight)]
        } else {
            e
        };
        let s2: Seq<([usize; 2], ConstraintDirection)> = if y + 1 < h {
            seq![([nx, (y + 1) as usize], ConstraintDirection::TopRight)]
        } else {
            e
        };
        lemma_concat_leads(s0, s1, x, y, w, h);
        lemma_concat_leads(s0 + s1, s2, x, y, w, h);
    }
    if x + 1 < w {
        let nx = (x + 1) as usize;
        let s0 = seq![([nx, y], ConstraintDirection::Left)];
        let s1: Seq<([usize; 2], ConstraintDirection)> = if y > 0 {
            seq![([nx, (y - 1) as usize], ConstraintDirection::BottomLeft)]
        } else {
            e
        };
        let s2: Seq<([usize; 2], ConstraintDirection)> = if y + 1 < h {
            seq![([nx, (y + 1) as usize], ConstraintDirection::TopLeft)]
        } else {
            e
        };
        lemma_concat_leads(s0, s1, x, y, w, h);
        lemma_concat_leads(s0 + s1, s2, x, y, w, h);
    }
    lemma_concat_leads(left, right, x, y, w, h);
    lemma_concat_leads(left + right, above, x, y, w, h);
    lemma_concat_leads(left + right + above, below, x, y, w, h);
}

impl MSGrid {
    /// The neighbours of cell `[origin_x][origin_y]`, each with the direction
    /// in which the cell lies as seen from the neighbour.
    pub fn get_neigbours(&self, origin_x: usize, origin_y: usize) -> (r: Vec<
        ([usize; 2], ConstraintDirection),
    >)
        requires
            origin_x < self.size()[0],
            origin_y < self.size()[1],
        ensures
            r@ == neighbour_list(origin_x, origin_y, self.size()[0], self.size()[1]),
    {
        let w = self.grid_size[0];
        let h = self.grid_size[1];
        let mut constraints: Vec<([usize; 2], ConstraintDirection)> = Vec::new();
        if origin_x > 0 {
            constraints.push(([origin_x - 1, origin_y], ConstraintDirection::Right));
            if origin_y > 0 {
                constraints.push(([origin_x - 1, origin_y - 1], ConstraintDirection::BottomRight));
            }
            if origin_y < h - 1 {
                constraints.push(([origin_x - 1, origin_y + 1], ConstraintDirection::TopRight));
            }
        }
        if origin_x < w - 1 {
            constraints.push(([origin_x + 1, origin_y], ConstraintDirection::Left));
            if origin_y > 0 {
                constraints.push(([origin_x + 1, origin_y - 1], ConstraintDirection::BottomLeft));
            }
            if origin_y < h - 1 {
                constraints.push(([origin_x + 1, origin_y + 1], ConstraintDirection::TopLeft));
            }
        }
        if origin_y > 0 {
            constraints.push(([origin_x, origin_y - 1], ConstraintDirection::Bottom));
        }
        if origin_y < h - 1 {
            constraints.push(([origin_x, origin_y + 1], ConstraintDirection::Top));
        }
        assert(constraints@ =~= neighbour_list(origin_x, origin_y, w, h));
        constraints
    }
}

} // verus!

verus! {

/// The cell one step from `[x][y]` in the direction at position `d`.
pub open spec fn step_cell(x: int, y: int, d: int) -> (int, int) {
    let o = direction_offset(spec_direction_at(d));
    (x + o.0, y + o.1)
}

/// Cell `c` lies in a grid of the given size.
pub open spec fn in_grid(c: (int, int), size: [usize; 2]) -> bool {
    0 <= c.0 < size[0] && 0 <= c.1 < size[1]
}

/// Entry `e` of a queue of removals is pattern `q` at cell `[x][y]`.
pub open spec fn entry_is(e: ([usize; 2], usize), x: int, y: int, q: int) -> bool {
    e.0[0] == x && e.0[1] == y && e.1 == q
}

/// The removals not yet passed on, as a relation between the cell and
/// pattern removed and the cell it is still owed to: every entry of `w` to
/// all its neighbours, and, while `busy`, `cur` to the cells not in `done`.
pub open spec fn pending(
    w: Seq<([usize; 2], usize)>,
    cur: ([usize; 2], usize),
    busy: bool,
    done: Set<(int, int)>,
) -> spec_fn(int, int, int, int, int) -> bool {
    |x1: int, y1: int, q: int, x: int, y: int|
        (exists|j: int| 0 <= j < w.len() && #[trigger] entry_is(w[j], x1, y1, q)) || (busy
            && entry_is(cur, x1, y1, q) && !done.contains((x, y)))
}

/// The removals queued on `w`, each owed to all the neighbours of its cell.
pub open spec fn queued(w: Seq<([usize; 2], usize)>) -> spec_fn(int, int, int, int, int) -> bool {
    pending(w, ([0usize, 0usize], 0usize), false, Set::empty())
}

/// No removal is waiting to be passed on.
pub open spec fn no_pending() -> spec_fn(int, int, int, int, int) -> bool {
    queued(Seq::empty())
}

/// The removals of patterns `qs` from cell `[x][y]`, as a queue.
pub open spec fn origin_queue(x: usize, y: usize, qs: Seq<usize>) -> Seq<([usize; 2], usize)> {
    Seq::new(qs.len(), |i: int| ([x, y], qs[i]))
}

/// Distinct directions lead from a cell to distinct cells, none of them the
/// cell itself.
pub proof fn lemma_step_distinct(x: int, y: int, d: int, e: int)
    requires
        0 <= d < DIRECTION_COUNT,
        0 <= e < DIRECTION_COUNT,
    ensures
        step_cell(x, y, d) != (x, y),
        d != e ==> step_cell(x, y, d) != step_cell(x, y, e),
{
}

/// Reversing the direction at a position twice gives the position back.
pub proof fn lemma_reverse_index_involutive(d: int)
    requires
        0 <= d < DIRECTION_COUNT,
    ensures
        0 <= reverse_index(d) < DIRECTION_COUNT,
        reverse_index(reverse_index(d)) == d,
{
}

impl MSGrid {
    /// Pattern `q` may stand next to pattern `p` in direction `d` exactly
    /// when `p` may stand next to `q` in the opposite direction.
    pub closed spec fn supports_symmetric(&self) -> bool {
        forall|p: int, d: int, q: usize|
            0 <= p < self.values().len() && 0 <= d < DIRECTION_COUNT && #[trigger] self.supports(
                p,
                d,
            ).contains(q) ==> self.supports(q as int, reverse_index(d)).contains(p as usize)
    }

    /// Pattern `q` can never be possible in any cell: in some direction no
    /// pattern may stand next to it.
    pub open spec fn stillborn(&self, q: int) -> bool {
        exists|e: int| 0 <= e < DIRECTION_COUNT && #[trigger] self.supports(q, e).len() == 0
    }

    /// The patterns of the cell in direction `d` of `[x][y]` that count as
    /// supporting a pattern at `[x][y]`: those still possible there, those
    /// that can never be possible, and those whose removal `pend` still owes
    /// to `[x][y]`.
    pub open spec fn counted(
        &self,
        pend: spec_fn(int, int, int, int, int) -> bool,
        x: int,
        y: int,
        d: int,
    ) -> spec_fn(usize) -> bool {
        let c = step_cell(x, y, d);
        |q: usize| self.alive(c.0, c.1, q as int) || self.stillborn(q as int) || pend(c.0, c.1, q as int, x, y)
    }

    /// Every count of a possible pattern towards a neighbour in the grid is
    /// the number of patterns that may stand there and count as supporting
    /// it.
    pub closed spec fn counts_match(&self, pend: spec_fn(int, int, int, int, int) -> bool) -> bool {
        forall|x: int, y: int, p: int, d: int|
            0 <= x < self.size()[0] && 0 <= y < self.size()[1] && 0 <= p < self.values().len() && 0
                <= d < DIRECTION_COUNT && in_grid(step_cell(x, y, d), self.size()) && self.alive(x, y, p)
                ==> #[trigger] self.count(x, y, p, d) == count_where(
                self.supports(p, d),
                self.counted(pend, x, y, d),
            )
    }

    /// No count is above the number of patterns that may stand in its
    /// direction.
    pub closed spec fn counts_bounded(&self) -> bool {
        forall|x: int, y: int, p: int, d: int|
            0 <= x < self.size()[0] && 0 <= y < self.size()[1] && 0 <= p < self.values().len() && 0
                <= d < DIRECTION_COUNT ==> #[trigger] self.count(x, y, p, d) <= self.supports(p, d).len()
    }

    /// The counts are those of arc consistency: the rules are symmetric, and
    /// every count of a possible pattern towards a neighbour in the grid is
    /// the number of patterns that may stand there and are possible there or
    /// can never be possible.
    pub closed spec fn arc_consistent(&self) -> bool {
        &&& self.supports_symmetric()
        &&& self.counts_bounded()
        &&& self.counts_match(no_pending())
    }

    /// A possible pattern is not one that can never be possible.
    pub proof fn lemma_alive_not_stillborn(&self, x: int, y: int, q: int)
        requires
            self.counts_bounded(),
            0 <= x < self.size()[0],
            0 <= y < self.size()[1],
            0 <= q < self.values().len(),
            self.alive(x, y, q),
        ensures
            !self.stillborn(q),
    {
        assert forall|e: int| 0 <= e < DIRECTION_COUNT implies #[trigger] self.supports(q, e).len() != 0 by {
            assert(self.count(x, y, q, e) > 0);
        }
    }

    /// A grid whose rules are read off a symmetric key set and whose counts
    /// are all full is arc consistent.
    proof fn lemma_initially_arc_consistent(&self, keys: Set<(usize, usize, usize)>)
        requires
            self.well_formed(),
            keys_symmetric(keys),
            supports_match(self.pattern_supports@, keys, self.values().len() as int),
            forall|x: int, y: int, p: int, d: int|
                0 <= x < self.size()[0] && 0 <= y < self.size()[1] && 0 <= p < self.values().len()
                    && 0 <= d < DIRECTION_COUNT ==> #[trigger] self.count(x, y, p, d) == self.supports(
                    p,
                    d,
                ).len(),
        ensures
            self.arc_consistent(),
    {
        let n = self.values().len();
        assert forall|p: int, d: int, q: usize|
            0 <= p < n && 0 <= d < DIRECTION_COUNT && #[trigger] self.supports(p, d).contains(q)
                implies self.supports(q as int, reverse_index(d)).contains(p as usize) by {
            lemma_reverse_index_involutive(d);
            assert(keys.contains((p as usize, q, d as usize)));
            assert(keys.contains((q, p as usize, reverse_index(d as int) as usize)));
        }
        assert forall|x: int, y: int, p: int, d: int|
            0 <= x < self.size()[0] && 0 <= y < self.size()[1] && 0 <= p < n && 0 <= d < DIRECTION_COUNT
                && in_grid(step_cell(x, y, d), self.size()) && self.alive(x, y, p)
                implies #[trigger] self.count(x, y, p, d) == count_where(
            self.supports(p, d),
            self.counted(no_pending(), x, y, d),
        ) by {
            let s = self.supports(p, d);
            let c = step_cell(x, y, d);
            assert forall|i: int| 0 <= i < s.len() implies self.counted(no_pending(), x, y, d)(
                #[trigger] s[i],
            ) by {
                let q = s[i] as int;
                assert(q < n);
                if !self.stillborn(q) {
                    assert forall|e: int| 0 <= e < DIRECTION_COUNT implies #[trigger] self.count(
                        c.0,
                        c.1,
                        q,
                        e,
                    ) > 0 by {
                        if self.supports(q, e).len() == 0 {
                            assert(self.stillborn(q));
                        }
                    }
                }
            }
            lemma_count_where_all(s, self.counted(no_pending(), x, y, d));
        }
    }

    /// Counts that match one record of pending removals match another that
    /// agrees with it wherever the counts look.
    proof fn lemma_counts_match_congruent(
        &self,
        f1: spec_fn(int, int, int, int, int) -> bool,
        f2: spec_fn(int, int, int, int, int) -> bool,
    )
        requires
            self.counts_match(f1),
            forall|x: int, y: int, d: int, q: int|
                0 <= x < self.size()[0] && 0 <= y < self.size()[1] && 0 <= d < DIRECTION_COUNT
                    && in_grid(step_cell(x, y, d), self.size()) ==> #[trigger] f1(
                    step_cell(x, y, d).0,
                    step_cell(x, y, d).1,
                    q,
                    x,
                    y,
                ) == f2(step_cell(x, y, d).0, step_cell(x, y, d).1, q, x, y),
        ensures
            self.counts_match(f2),
    {
        assert forall|x: int, y: int, p: int, d: int|
            0 <= x < self.size()[0] && 0 <= y < self.size()[1] && 0 <= p < self.values().len() && 0
                <= d < DIRECTION_COUNT && in_grid(step_cell(x, y, d), self.size()) && self.alive(x, y, p)
                implies #[trigger] self.count(x, y, p, d) == count_where(
            self.supports(p, d),
            self.counted(f2, x, y, d),
        ) by {
            let s = self.supports(p, d);
            let c = step_cell(x, y, d);
            assert forall|i: int| 0 <= i < s.len() implies self.counted(f1, x, y, d)(#[trigger] s[i])
                == self.counted(f2, x, y, d)(s[i]) by {
                assert(f1(c.0, c.1, s[i] as int, x, y) == f2(c.0, c.1, s[i] as int, x, y));
            }
            lemma_count_where_same(s, self.counted(f1, x, y, d), self.counted(f2, x, y, d));
        }
    }
}

} // verus!

verus! {

/// The neighbours of a cell are distinct cells, and every cell of the grid
/// one step from which leads to the cell is among them.
#[verifier::rlimit(40)]
pub proof fn lemma_neighbour_cells(x: usize, y: usize, w: usize, h: usize)
    requires
        x < w,
        y < h,
    ensures
        forall|m1: int, m2: int|
            0 <= m1 < m2 < neighbour_list(x, y, w, h).len() ==> !(
            #[trigger] neighbour_list(x, y, w, h)[m1].0[0] == #[trigger] neighbour_list(x, y, w, h)[m2].0[0]
                && neighbour_list(x, y, w, h)[m1].0[1] == neighbour_list(x, y, w, h)[m2].0[1]),
        forall|tx: int, ty: int, e: int|
            0 <= tx < w && 0 <= ty < h && 0 <= e < DIRECTION_COUNT && #[trigger] step_cell(tx, ty, e) == (
                x as int,
                y as int,
            ) ==> exists|m: int|
                0 <= m < neighbour_list(x, y, w, h).len() && #[trigger] neighbour_list(x, y, w, h)[m].0[0]
                    == tx && neighbour_list(x, y, w, h)[m].0[1] == ty,
{
    let l = neighbour_list(x, y, w, h);
    if x > 0 && x + 1 < w && y > 0 && y + 1 < h {
        assert(l =~= seq![([(x - 1) as usize, y], ConstraintDirection::Right), ([(x - 1) as usize, (y - 1) as usize], ConstraintDirection::BottomRight), ([(x - 1) as usize, (y + 1) as usize], ConstraintDirection::TopRight), ([(x + 1) as usize, y], ConstraintDirection::Left), ([(x + 1) as usize, (y - 1) as usize], ConstraintDirection::BottomLeft), ([(x + 1) as usize, (y + 1) as usize], ConstraintDirection::TopLeft), ([x, (y - 1) as usize], ConstraintDirection::Bottom), ([x, (y + 1) as usize], ConstraintDirection::Top)]);
        assert forall|tx: int, ty: int, e: int|
            0 <= tx < w && 0 <= ty < h && 0 <= e < DIRECTION_COUNT && #[trigger] step_cell(tx, ty, e) == (x as int, y as int) implies exists|m: int|
                0 <= m < l.len() && #[trigger] l[m].0[0] == tx && l[m].0[1] == ty by {
            if e == 0 {
                assert(l[7].0[0] == tx && l[7].0[1] == ty);
            }
            if e == 1 {
                assert(l[0].0[0] == tx && l[0].0[1] == ty);
            }
            if e == 2 {
                assert(l[6].0[0] == tx && l[6].0[1] == ty);
            }
            if e == 3 {
                assert(l[3].0[0] == tx && l[3].0[1] == ty);
            }
            if e == 4 {
                assert(l[5].0[0] == tx && l[5].0[1] == ty);
            }
            if e == 5 {
                assert(l[2].0[0] == tx && l[2].0[1] == ty);
            }
            if e == 6 {
                assert(l[4].0[0] == tx && l[4].0[1] == ty);
            }
            if e == 7 {
                assert(l[1].0[0] == tx && l[1].0[1] == ty);
            }
        }
    } else if x > 0 && x + 1 < w && y > 0 && y + 1 >= h {
        assert(l =~= seq![([(x - 1) as usize, y], ConstraintDirection::Right), ([(x - 1) as usize, (y - 1) as usize], ConstraintDirection::BottomRight), ([(x + 1) as usize, y], ConstraintDirection::Left), ([(x + 1) as usize, (y - 1) as usize], ConstraintDirection::BottomLeft), ([x, (y - 1) as usize], ConstraintDirection::Bottom)]);
        assert forall|tx: int, ty: int, e: int|
            0 <= tx < w && 0 <= ty < h && 0 <= e < DIRECTION_COUNT && #[trigger] step_cell(tx, ty, e) == (x as int, y as int) implies exists|m: int|
                0 <= m < l.len() && #[trigger] l[m].0[0] == tx && l[m].0[1] == ty by {
            if e == 1 {
                assert(l[0].0[0] == tx && l[0].0[1] == ty);
            }
            if e == 2 {
                assert(l[4].0[0] == tx && l[4].0[1] == ty);
            }
            if e == 3 {
                assert(l[2].0[0] == tx && l[2].0[1] == ty);
            }
            if e == 6 {
                assert(l[3].0[0] == tx && l[3].0[1] == ty);
            }
            if e == 7 {
                assert(l[1].0[0] == tx && l[1].0[1] == ty);
            }
        }
    } else if x > 0 && x + 1 < w && y == 0 && y + 1 < h {
        assert(l =~= seq![([(x - 1) as usize, y], ConstraintDirection::Right), ([(x - 1) as usize, (y + 1) as usize], ConstraintDirection::TopRight), ([(x + 1) as usize, y], ConstraintDirection::Left), ([(x + 1) as usize, (y + 1) as usize], ConstraintDirection::TopLeft), ([x, (y + 1) as usize], ConstraintDirection::Top)]);
        assert forall|tx: int, ty: int, e: int|
            0 <= tx < w && 0 <= ty < h && 0 <= e < DIRECTION_COUNT && #[trigger] step_cell(tx, ty, e) == (x as int, y as int) implies exists|m: int|
                0 <= m < l.len() && #[trigger] l[m].0[0] == tx && l[m].0[1] == ty by {
            if e == 0 {
                assert(l[4].0[0] == tx && l[4].0[1] == ty);
            }
            if e == 1 {
                assert(l[0].0[0] == tx && l[0].0[1] == ty);
            }
            if e == 3 {
                assert(l[2].0[0] == tx && l[2].0[1] == ty);
            }
            if e == 4 {
                assert(l[3].0[0] == tx && l[3].0[1] == ty);
            }
            if e == 5 {
                assert(l[1].0[0] == tx && l[1].0[1] == ty);
            }
        }
    } else if x > 0 && x + 1 < w && y == 0 && y + 1 >= h {
        assert(l =~= seq![([(x - 1) as usize, y], ConstraintDirection::Right), ([(x + 1) as usize, y], ConstraintDirection::Left)]);
        assert forall|tx: int, ty: int, e: int|
            0 <= tx < w && 0 <= ty < h && 0 <= e < DIRECTION_COUNT && #[trigger] step_cell(tx, ty, e) == (x as int, y as int) implies exists|m: int|
                0 <= m < l.len() && #[trigger] l[m].0[0] == tx && l[m].0[1] == ty by {
            if e == 1 {
                assert(l[0].0[0] == tx && l[0].0[1] == ty);
            }
            if e == 3 {
                assert(l[1].0[0] == tx && l[1].0[1] == ty);
            }
        }
    } else if x > 0 && x + 1 >= w && y > 0 && y + 1 < h {
        assert(l =~= seq![([(x - 1) as usize, y], ConstraintDirection::Right), ([(x - 1) as usize, (y - 1) as usize], ConstraintDirection::BottomRight), ([(x - 1) as usize, (y + 1) as usize], ConstraintDirection::TopRight), ([x, (y - 1) as usize], ConstraintDirection::Bottom), ([x, (y + 1) as usize], ConstraintDirection::Top)]);
        assert forall|tx: int, ty: int, e: int|
            0 <= tx < w && 0 <= ty < h && 0 <= e < DIRECTION_COUNT && #[trigger] step_cell(tx, ty, e) == (x as int, y as int) implies exists|m: int|
                0 <= m < l.len() && #[trigger] l[m].0[0] == tx && l[m].0[1] == ty by {
            if e == 0 {
                assert(l[4].0[0] == tx && l[4].0[1] == ty);
            }
            if e == 1 {
                assert(l[0].0[0] == tx && l[0].0[1] == ty);
            }
            if e == 2 {
                assert(l[3].0[0] == tx && l[3].0[1] == ty);
            }
            if e == 5 {
                assert(l[2].0[0] == tx && l[2].0[1] == ty);
            }
            if e == 7 {
                assert(l[1].0[0] == tx && l[1].0[1] == ty);
            }
        }
    } else if x > 0 && x + 1 >= w && y > 0 && y + 1 >= h {
        assert(l =~= seq![([(x - 1) as usize, y], ConstraintDirection::Right), ([(x - 1) as usize, (y - 1) as usize], ConstraintDirection::BottomRight), ([x, (y - 1) as usize], ConstraintDirection::Bottom)]);
        assert forall|tx: int, ty: int, e: int|
            0 <= tx < w && 0 <= ty < h && 0 <= e < DIRECTION_COUNT && #[trigger] step_cell(tx, ty, e) == (x as int, y as int) implies exists|m: int|
                0 <= m < l.len() && #[trigger] l[m].0[0] == tx && l[m].0[1] == ty by {
            if e == 1 {
                assert(l[0].0[0] == tx && l[0].0[1] == ty);
            }
            if e == 2 {
                assert(l[2].0[0] == tx && l[2].0[1] == ty);
            }
            if e == 7 {
                assert(l[1].0[0] == tx && l[1].0[1] == ty);
            }
        }
    } else if x > 0 && x + 1 >= w && y == 0 && y + 1 < h {
        assert(l =~= seq![([(x - 1) as usize, y], ConstraintDirection::Right), ([(x - 1) as usize, (y + 1) as usize], ConstraintDirection::TopRight), ([x, (y + 1) as usize], ConstraintDirection::Top)]);
        assert forall|tx: int, ty: int, e: int|
            0 <= tx < w && 0 <= ty < h && 0 <= e < DIRECTION_COUNT && #[trigger] step_cell(tx, ty, e) == (x as int, y as int) implies exists|m: int|
                0 <= m < l.len() && #[trigger] l[m].0[0] == tx && l[m].0[1] == ty by {
            if e == 0 {
                assert(l[2].0[0] == tx && l[2].0[1] == ty);
            }
            if e == 1 {
                assert(l[0].0[0] == tx && l[0].0[1] == ty);
            }
            if e == 5 {
                assert(l[1].0[0] == tx && l[1].0[1] == ty);
            }
        }
    } else if x > 0 && x + 1 >= w && y == 0 && y + 1 >= h {
        assert(l =~= seq![([(x - 1) as usize, y], ConstraintDirection::Right)]);
        assert forall|tx: int, ty: int, e: int|
            0 <= tx < w && 0 <= ty < h && 0 <= e < DIRECTION_COUNT && #[trigger] step_cell(tx, ty, e) == (x as int, y as int) implies exists|m: int|
                0 <= m < l.len() && #[trigger] l[m].0[0] == tx && l[m].0[1] == ty by {
            if e == 1 {
                assert(l[0].0[0] == tx && l[0].0[1] == ty);
            }
        }
    } else if x == 0 && x + 1 < w && y > 0 && y + 1 < h {
        assert(l =~= seq![([(x + 1) as usize, y], ConstraintDirection::Left), ([(x + 1) as usize, (y - 1) as usize], ConstraintDirection::BottomLeft), ([(x + 1) as usize, (y + 1) as usize], ConstraintDirection::TopLeft), ([x, (y - 1) as usize], ConstraintDirection::Bottom), ([x, (y + 1) as usize], ConstraintDirection::Top)]);
        assert forall|tx: int, ty: int, e: int|
            0 <= tx < w && 0 <= ty < h && 0 <= e < DIRECTION_COUNT && #[trigger] step_cell(tx, ty, e) == (x as int, y as int) implies exists|m: int|
                0 <= m < l.len() && #[trigger] l[m].0[0] == tx && l[m].0[1] == ty by {
            if e == 0 {
                assert(l[4].0[0] == tx && l[4].0[1] == ty);
            }
            if e == 2 {
                assert(l[3].0[0] == tx && l[3].0[1] == ty);
            }
            if e == 3 {
                assert(l[0].0[0] == tx && l[0].0[1] == ty);
            }
            if e == 4 {
                assert(l[2].0[0] == tx && l[2].0[1] == ty);
            }
            if e == 6 {
                assert(l[1].0[0] == tx && l[1].0[1] == ty);
            }
        }
    } else if x == 0 && x + 1 < w && y > 0 && y + 1 >= h {
        assert(l =~= seq![([(x + 1) as usize, y], ConstraintDirection::Left), ([(x + 1) as usize, (y - 1) as usize], ConstraintDirection::BottomLeft), ([x, (y - 1) as usize], ConstraintDirection::Bottom)]);
        assert forall|tx: int, ty: int, e: int|
            0 <= tx < w && 0 <= ty < h && 0 <= e < DIRECTION_COUNT && #[trigger] step_cell(tx, ty, e) == (x as int, y as int) implies exists|m: int|
                0 <= m < l.len() && #[trigger] l[m].0[0] == tx && l[m].0[1] == ty by {
            if e == 2 {
                assert(l[2].0[0] == tx && l[2].0[1] == ty);
            }
            if e == 3 {
                assert(l[0].0[0] == tx && l[0].0[1] == ty);
            }
            if e == 6 {
                assert(l[1].0[0] == tx && l[1].0[1] == ty);
            }
        }
    } else if x == 0 && x + 1 < w && y == 0 && y + 1 < h {
        assert(l =~= seq![([(x + 1) as usize, y], ConstraintDirection::Left), ([(x + 1) as usize, (y + 1) as usize], ConstraintDirection::TopLeft), ([x, (y + 1) as usize], ConstraintDirection::Top)]);
        assert forall|tx: int, ty: int, e: int|
            0 <= tx < w && 0 <= ty < h && 0 <= e < DIRECTION_COUNT && #[trigger] step_cell(tx, ty, e) == (x as int, y as int) implies exists|m: int|
                0 <= m < l.len() && #[trigger] l[m].0[0] == tx && l[m].0[1] == ty by {
            if e == 0 {
                assert(l[2].0[0] == tx && l[2].0[1] == ty);
            }
            if e == 3 {
                assert(l[0].0[0] == tx && l[0].0[1] == ty);
            }
            if e == 4 {
                assert(l[1].0[0] == tx && l[1].0[1] == ty);
            }
        }
    } else if x == 0 && x + 1 < w && y == 0 && y + 1 >= h {
        assert(l =~= seq![([(x + 1) as usize, y], ConstraintDirection::Left)]);
        assert forall|tx: int, ty: int, e: int|
            0 <= tx < w && 0 <= ty < h && 0 <= e < DIRECTION_COUNT && #[trigger] step_cell(tx, ty, e) == (x as int, y as int) implies exists|m: int|
                0 <= m < l.len() && #[trigger] l[m].0[0] == tx && l[m].0[1] == ty by {
            if e == 3 {
                assert(l[0].0[0] == tx && l[0].0[1] == ty);
            }
        }
    } else if x == 0 && x + 1 >= w && y > 0 && y + 1 < h {
        assert(l =~= seq![([x, (y - 1) as usize], ConstraintDirection::Bottom), ([x, (y + 1) as usize], ConstraintDirection::Top)]);
        assert forall|tx: int, ty: int, e: int|
            0 <= tx < w && 0 <= ty < h && 0 <= e < DIRECTION_COUNT && #[trigger] step_cell(tx, ty, e) == (x as int, y as int) implies exists|m: int|
                0 <= m < l.len() && #[trigger] l[m].0[0] == tx && l[m].0[1] == ty by {
            if e == 0 {
                assert(l[1].0[0] == tx && l[1].0[1] == ty);
            }
            if e == 2 {
                assert(l[0].0[0] == tx && l[0].0[1] == ty);
            }
        }
    } else if x == 0 && x + 1 >= w && y > 0 && y + 1 >= h {
        assert(l =~= seq![([x, (y - 1) as usize], ConstraintDirection::Bottom)]);
        assert forall|tx: int, ty: int, e: int|
            0 <= tx < w && 0 <= ty < h && 0 <= e < DIRECTION_COUNT && #[trigger] step_cell(tx, ty, e) == (x as int, y as int) implies exists|m: int|
                0 <= m < l.len() && #[trigger] l[m].0[0] == tx && l[m].0[1] == ty by {
            if e == 2 {
                assert(l[0].0[0] == tx && l[0].0[1] == ty);
            }
        }
    } else if x == 0 && x + 1 >= w && y == 0 && y + 1 < h {
        assert(l =~= seq![([x, (y + 1) as usize], ConstraintDirection::Top)]);
        assert forall|tx: int, ty: int, e: int|
            0 <= tx < w && 0 <= ty < h && 0 <= e < DIRECTION_COUNT && #[trigger] step_cell(tx, ty, e) == (x as int, y as int) implies exists|m: int|
                0 <= m < l.len() && #[trigger] l[m].0[0] == tx && l[m].0[1] == ty by {
            if e == 0 {
                assert(l[0].0[0] == tx && l[0].0[1] == ty);
            }
        }
    } else if x == 0 && x + 1 >= w && y == 0 && y + 1 >= h {
        assert(l =~= seq![]);
        assert forall|tx: int, ty: int, e: int|
            0 <= tx < w && 0 <= ty < h && 0 <= e < DIRECTION_COUNT && #[trigger] step_cell(tx, ty, e) == (x as int, y as int) implies exists|m: int|
                0 <= m < l.len() && #[trigger] l[m].0[0] == tx && l[m].0[1] == ty by {
        }
    }
}

} // verus!



verus! {

impl MSGrid {
    /// Same patterns, counts of sightings, rules and size as `other`, and no
    /// count above the one `other` has.
    pub open spec fn descends_from(&self, other: &MSGrid) -> bool {
        &&& self.values() == other.values()
        &&& self.pattern_counts() == other.pattern_counts()
        &&& self.size() == other.size()
        &&& self.support_keys() == other.support_keys()
        &&& forall|p: int, d: int| #[trigger] self.supports(p, d) == other.supports(p, d)
        &&& forall|x: int, y: int, p: int, d: int|
            0 <= x < self.size()[0] && 0 <= y < self.size()[1] && 0 <= p < self.values().len() && 0
                <= d < DIRECTION_COUNT ==> #[trigger] self.count(x, y, p, d) <= other.count(x, y, p, d)
    }

    /// Descent is transitive.
    pub proof fn lemma_descends_trans(a: &MSGrid, b: &MSGrid, c: &MSGrid)
        requires
            a.descends_from(b),
            b.descends_from(c),
        ensures
            a.descends_from(c),
    {
        assert forall|x: int, y: int, p: int, d: int|
            0 <= x < a.size()[0] && 0 <= y < a.size()[1] && 0 <= p < a.values().len() && 0 <= d
                < DIRECTION_COUNT implies #[trigger] a.count(x, y, p, d) <= c.count(x, y, p, d) by {
            assert(a.count(x, y, p, d) <= b.count(x, y, p, d));
            assert(b.count(x, y, p, d) <= c.count(x, y, p, d));
        }
        assert forall|p: int, d: int| #[trigger] a.supports(p, d) == c.supports(p, d) by {
            assert(a.supports(p, d) == b.supports(p, d));
        }
    }

    /// A pattern that is possible after a descent was possible before it.
    pub proof fn lemma_descends_alive(a: &MSGrid, b: &MSGrid, x: int, y: int, p: int)
        requires
            a.descends_from(b),
            0 <= x < a.size()[0],
            0 <= y < a.size()[1],
            0 <= p < a.values().len(),
            a.alive(x, y, p),
        ensures
            b.alive(x, y, p),
    {
        assert forall|d: int| 0 <= d < DIRECTION_COUNT implies #[trigger] b.count(x, y, p, d) > 0 by {
            assert(a.count(x, y, p, d) > 0);
            assert(a.count(x, y, p, d) <= b.count(x, y, p, d));
        }
    }

    /// A cell collapsed to `p` stays collapsed to `p` through a descent that
    /// keeps it alive.
    pub proof fn lemma_descends_collapsed(a: &MSGrid, b: &MSGrid, x: int, y: int, p: int)
        requires
            a.descends_from(b),
            0 <= x < a.size()[0],
            0 <= y < a.size()[1],
            b.collapsed_to(x, y, p),
            a.cell_alive(x, y),
        ensures
            a.collapsed_to(x, y, p),
    {
        assert forall|q: int| 0 <= q < a.values().len() && q != p implies !#[trigger] a.alive(x, y, q) by {
            if a.alive(x, y, q) {
                MSGrid::lemma_descends_alive(a, b, x, y, q);
            }
        }
        let q = choose|q: int| 0 <= q < a.values().len() && #[trigger] a.alive(x, y, q);
        if q != p {
            MSGrid::lemma_descends_alive(a, b, x, y, q);
        }
    }

    /// Whether pattern `p` is still possible at cell `[x][y]`.
    pub fn is_alive(&self, x: usize, y: usize, p: usize) -> (r: bool)
        requires
            self.well_formed(),
            x < self.size()[0],
            y < self.size()[1],
            p < self.values().len(),
        ensures
            r == self.alive(x as int, y as int, p as int),
    {
        let counts = &self.support_count_grid[x][y][p];
        let mut d: usize = 0;
        while d < DIRECTION_COUNT
            invariant
                self.well_formed(),
                x < self.size()[0],
                y < self.size()[1],
                p < self.values().len(),
                counts@ == self.support_count_grid@[x as int]@[y as int]@[p as int]@,
                d <= DIRECTION_COUNT,
                forall|e: int| 0 <= e < d ==> #[trigger] self.count(x as int, y as int, p as int, e) > 0,
            decreases DIRECTION_COUNT - d,
        {
            if counts[d] == 0 {
                assert(self.count(x as int, y as int, p as int, d as int) == 0);
                return false;
            }
            d += 1;
        }
        true
    }

    /// Whether some pattern is still possible at cell `[x][y]`.
    pub fn any_alive(&self, x: usize, y: usize) -> (r: bool)
        requires
            self.well_formed(),
            x < self.size()[0],
            y < self.size()[1],
        ensures
            r == self.cell_alive(x as int, y as int),
    {
        let n = self.pattern_collection.patterns.len();
        let mut p: usize = 0;
        while p < n
            invariant
                self.well_formed(),
                x < self.size()[0],
                y < self.size()[1],
                n == self.values().len(),
                p <= n,
                forall|q: int| 0 <= q < p ==> !#[trigger] self.alive(x as int, y as int, q),
            decreases n - p,
        {
            if self.is_alive(x, y, p) {
                return true;
            }
            p += 1;
        }
        false
    }
}

} // verus!

verus! {

impl MSGrid {
    /// Lowers count `d` of pattern `p` at cell `[x][y]` by one.
    fn decrement(&mut self, x: usize, y: usize, p: usize, d: usize)
        requires
            old(self).well_formed(),
            x < old(self).size()[0],
            y < old(self).size()[1],
            p < old(self).values().len(),
            d < DIRECTION_COUNT,
            old(self).count(x as int, y as int, p as int, d as int) > 0,
        ensures
            final(self).well_formed(),
            final(self).descends_from(&*old(self)),
            final(self).count(x as int, y as int, p as int, d as int) == old(self).count(
                x as int,
                y as int,
                p as int,
                d as int,
            ) - 1,
            forall|x1: int, y1: int, p1: int, d1: int|
                0 <= x1 < old(self).size()[0] && 0 <= y1 < old(self).size()[1] && 0 <= p1 < old(self).values().len() && 0 <= d1 < DIRECTION_COUNT && (x1, y1, p1, d1) != (
                    x as int,
                    y as int,
                    p as int,
                    d as int,
                ) ==> #[trigger] final(self).count(x1, y1, p1, d1) == old(self).count(x1, y1, p1, d1),
            sum_grid(final(self).support_count_grid@) == sum_grid(old(self).support_count_grid@) - 1,
            final(self).pattern_supports == old(self).pattern_supports,
    {
        let c = self.support_count_grid[x][y][p][d];
        self.support_count_grid[x][y][p][d] = c - 1;
        proof {
            lemma_sum_grid_update(
                old(self).support_count_grid@,
                self.support_count_grid@,
                x as int,
                y as int,
                p as int,
                d as int,
                (c - 1) as usize,
            );
        }
    }

    /// Passes the removal of pattern `removed` from the neighbour of cell
    /// `[nx][ny]` on to the cell: every pattern there that may stand next to
    /// `removed` in direction `rd` and is still possible loses one of its
    /// count in direction `d`, and each one that becomes impossible is queued
    /// on `worklist`. Fails as soon as the cell is left with no possible
    /// pattern.
    #[verifier::rlimit(40)]
    fn retract_support(
        &mut self,
        nx: usize,
        ny: usize,
        d: usize,
        removed: usize,
        rd: usize,
        worklist: &mut Vec<([usize; 2], usize)>,
    ) -> (r: bool)
        requires
            old(self).well_formed(),
            nx < old(self).size()[0],
            ny < old(self).size()[1],
            d < DIRECTION_COUNT,
            rd < DIRECTION_COUNT,
            removed < old(self).values().len(),
            forall|k: int|
                0 <= k < old(worklist).len() ==> (#[trigger] old(worklist)@[k]).0[0] < old(self).size()[0]
                    && old(worklist)@[k].0[1] < old(self).size()[1] && old(worklist)@[k].1 < old(self).values().len(),
        ensures
            final(self).well_formed(),
            final(self).descends_from(&*old(self)),
            final(self).pattern_supports == old(self).pattern_supports,
            forall|k: int|
                0 <= k < final(worklist).len() ==> (#[trigger] final(worklist)@[k]).0[0] < old(self).size()[0] && final(worklist)@[k].0[1] < old(self).size()[1] && final(worklist)@[k].1
                    < old(self).values().len(),
            old(worklist).len() <= final(worklist).len(),
            final(worklist)@.subrange(0, old(worklist).len() as int) == old(worklist)@,
            sum_grid(final(self).support_count_grid@) <= sum_grid(old(self).support_count_grid@),
            sum_grid(final(self).support_count_grid@) == sum_grid(old(self).support_count_grid@)
                ==> final(worklist)@ == old(worklist)@,
            forall|x1: int, y1: int, p1: int, d1: int|
                0 <= x1 < old(self).size()[0] && 0 <= y1 < old(self).size()[1] && 0 <= p1 < old(self).values().len() && 0 <= d1 < DIRECTION_COUNT && (x1, y1, d1) != (
                    nx as int,
                    ny as int,
                    d as int,
                ) ==> #[trigger] final(self).count(x1, y1, p1, d1) == old(self).count(x1, y1, p1, d1),
            r ==> forall|p1: int|
                0 <= p1 < old(self).values().len() ==> #[trigger] final(self).count(
                    nx as int,
                    ny as int,
                    p1,
                    d as int,
                ) == old(self).count(nx as int, ny as int, p1, d as int) - (if old(self).supports(
                    removed as int,
                    rd as int,
                ).contains(p1 as usize) && old(self).alive(nx as int, ny as int, p1) {
                    1int
                } else {
                    0int
                }),
            r ==> (old(self).cell_alive(nx as int, ny as int) ==> final(self).cell_alive(
                nx as int,
                ny as int,
            )),
            r ==> forall|j: int|
                old(worklist).len() <= j < final(worklist).len() ==> entry_is(
                    #[trigger] final(worklist)@[j],
                    nx as int,
                    ny as int,
                    final(worklist)@[j].1 as int,
                ) && old(self).alive(nx as int, ny as int, final(worklist)@[j].1 as int) && !final(self).alive(nx as int, ny as int, final(worklist)@[j].1 as int),
            r ==> forall|j1: int, j2: int|
                old(worklist).len() <= j1 < j2 < final(worklist).len() ==> (#[trigger] final(worklist)@[j1]).1
                    != (#[trigger] final(worklist)@[j2]).1,
            r ==> forall|p1: int|
                0 <= p1 < old(self).values().len() && old(self).alive(nx as int, ny as int, p1)
                    && !#[trigger] final(self).alive(nx as int, ny as int, p1) ==> exists|j: int|
                    old(worklist).len() <= j < final(worklist).len() && #[trigger] final(worklist)@[j].1
                        == p1,
            !r ==> !final(self).cell_alive(nx as int, ny as int),
    {
        let ghost a = *self;
        let ghost w0 = worklist@;
        let ghost len0 = worklist@.len();
        let ghost sum0 = sum_grid(self.support_count_grid@);
        let ghost s = self.supports(removed as int, rd as int);
        let n = self.pattern_collection.patterns.len();
        let supported = self.pattern_supports[removed][rd].len();
        let mut k: usize = 0;
        while k < supported
            invariant
                self.well_formed(),
                a.well_formed(),
                a == *old(self),
                sum0 == sum_grid(a.support_count_grid@),
                self.descends_from(&a),
                self.pattern_supports == a.pattern_supports,
                n == a.values().len(),
                nx < a.size()[0],
                ny < a.size()[1],
                d < DIRECTION_COUNT,
                rd < DIRECTION_COUNT,
                removed < n,
                s == a.supports(removed as int, rd as int),
                s == self.pattern_supports@[removed as int]@[rd as int]@,
                s.no_duplicates(),
                supported == s.len(),
                k <= supported,
                w0 == old(worklist)@,
                len0 == w0.len(),
                len0 <= worklist.len(),
                worklist@.subrange(0, len0 as int) == w0,
                forall|k2: int|
                    0 <= k2 < worklist.len() ==> (#[trigger] worklist@[k2]).0[0] < a.size()[0]
                        && worklist@[k2].0[1] < a.size()[1] && worklist@[k2].1 < n,
                forall|x1: int, y1: int, p1: int, d1: int|
                    0 <= x1 < a.size()[0] && 0 <= y1 < a.size()[1] && 0 <= p1 < n && 0 <= d1
                        < DIRECTION_COUNT ==> #[trigger] self.count(x1, y1, p1, d1) == a.count(
                        x1,
                        y1,
                        p1,
                        d1,
                    ) - (if (x1, y1, d1) == (nx as int, ny as int, d as int) && s.subrange(
                        0,
                        k as int,
                    ).contains(p1 as usize) && a.alive(nx as int, ny as int, p1) {
                        1int
                    } else {
                        0int
                    }),
                a.cell_alive(nx as int, ny as int) ==> self.cell_alive(nx as int, ny as int),
                forall|j: int|
                    len0 <= j < worklist.len() ==> entry_is(
                        #[trigger] worklist@[j],
                        nx as int,
                        ny as int,
                        worklist@[j].1 as int,
                    ) && a.alive(nx as int, ny as int, worklist@[j].1 as int) && !self.alive(
                        nx as int,
                        ny as int,
                        worklist@[j].1 as int,
                    ),
                forall|j1: int, j2: int|
                    len0 <= j1 < j2 < worklist.len() ==> (#[trigger] worklist@[j1]).1 != (#[trigger] worklist@[j2]).1,
                forall|p1: int|
                    0 <= p1 < n && a.alive(nx as int, ny as int, p1) && !#[trigger] self.alive(
                        nx as int,
                        ny as int,
                        p1,
                    ) ==> exists|j: int| len0 <= j < worklist.len() && #[trigger] worklist@[j].1 == p1,
                sum_grid(self.support_count_grid@) <= sum0,
                sum_grid(self.support_count_grid@) == sum0 ==> worklist@ == w0,
            decreases supported - k,
        {
            let p = self.pattern_supports[removed][rd][k];
            let ghost before = *self;
            let ghost wb = worklist@;
            proof {
                if s.subrange(0, k as int).contains(p) {
                    let j = choose|j: int| 0 <= j < k && #[trigger] s.subrange(0, k as int)[j] == p;
                    assert(s[j] == s[k as int]);
                }
                assert forall|e: int| 0 <= e < DIRECTION_COUNT implies #[trigger] before.count(
                    nx as int,
                    ny as int,
                    p as int,
                    e,
                ) == a.count(nx as int, ny as int, p as int, e) by {
                }
                if before.alive(nx as int, ny as int, p as int) {
                    assert forall|e: int| 0 <= e < DIRECTION_COUNT implies #[trigger] a.count(
                        nx as int,
                        ny as int,
                        p as int,
                        e,
                    ) > 0 by {
                        assert(before.count(nx as int, ny as int, p as int, e) > 0);
                    }
                }
                if a.alive(nx as int, ny as int, p as int) {
                    assert forall|e: int| 0 <= e < DIRECTION_COUNT implies #[trigger] before.count(
                        nx as int,
                        ny as int,
                        p as int,
                        e,
                    ) > 0 by {
                        assert(a.count(nx as int, ny as int, p as int, e) > 0);
                    }
                }
                let ghost sk = s.subrange(0, k as int);
                let ghost sk1 = s.subrange(0, k as int + 1);
                assert forall|p1: int|
                    0 <= p1 < n implies #[trigger] sk1.contains(p1 as usize) == (sk.contains(p1 as usize)
                    || p1 == p) by {
                    if p1 == p {
                        assert(sk1[k as int] == p);
                    } else {
                        if sk1.contains(p1 as usize) {
                            let j = choose|j: int| 0 <= j < sk1.len() && #[trigger] sk1[j] == p1;
                            assert(sk[j] == p1);
                        }
                        if sk.contains(p1 as usize) {
                            let j = choose|j: int| 0 <= j < sk.len() && #[trigger] sk[j] == p1;
                            assert(sk1[j] == p1);
                        }
                    }
                }
            }
            if self.is_alive(nx, ny, p) {
                assert(self.count(nx as int, ny as int, p as int, d as int) > 0);
                self.decrement(nx, ny, p, d);
                proof {
                    MSGrid::lemma_descends_trans(self, &before, &a);
                    lemma_sum_grid_nonneg(self.support_count_grid@);
                }
                if self.support_count_grid[nx][ny][p][d] == 0 {
                    if !self.any_alive(nx, ny) {
                        return false;
                    }
                    worklist.push(([nx, ny], p));
                    proof {
                        assert(worklist@.subrange(0, len0 as int) =~= wb.subrange(0, len0 as int));
                        assert forall|j: int|
                            len0 <= j < worklist.len() implies entry_is(
                            #[trigger] worklist@[j],
                            nx as int,
                            ny as int,
                            worklist@[j].1 as int,
                        ) && a.alive(nx as int, ny as int, worklist@[j].1 as int) && !self.alive(
                            nx as int,
                            ny as int,
                            worklist@[j].1 as int,
                        ) by {
                            if j < wb.len() {
                                assert(worklist@[j] == wb[j]);
                                if self.alive(nx as int, ny as int, wb[j].1 as int) {
                                    MSGrid::lemma_descends_alive(
                                        self,
                                        &before,
                                        nx as int,
                                        ny as int,
                                        wb[j].1 as int,
                                    );
                                }
                            }
                        }
                        assert forall|p1: int|
                            0 <= p1 < n && a.alive(nx as int, ny as int, p1) && !#[trigger] self.alive(
                                nx as int,
                                ny as int,
                                p1,
                            ) implies exists|j: int|
                            len0 <= j < worklist.len() && #[trigger] worklist@[j].1 == p1 by {
                            if p1 == p {
                                assert(worklist@[worklist.len() - 1].1 == p1);
                            } else {
                                assert forall|e: int| 0 <= e < DIRECTION_COUNT implies #[trigger] self.count(
                                    nx as int,
                                    ny as int,
                                    p1,
                                    e,
                                ) == before.count(nx as int, ny as int, p1, e) by {
                                }
                                assert(!before.alive(nx as int, ny as int, p1));
                                let j = choose|j: int| len0 <= j < wb.len() && #[trigger] wb[j].1 == p1;
                                assert(worklist@[j] == wb[j]);
                            }
                        }
                    }
                } else {
                    proof {
                        assert forall|e: int| 0 <= e < DIRECTION_COUNT implies #[trigger] self.count(
                            nx as int,
                            ny as int,
                            p as int,
                            e,
                        ) > 0 by {
                            assert(before.count(nx as int, ny as int, p as int, e) > 0);
                        }
                        assert forall|q: int| 0 <= q < n implies #[trigger] self.alive(nx as int, ny as int, q)
                            == before.alive(nx as int, ny as int, q) by {
                            if q != p {
                                if self.alive(nx as int, ny as int, q) {
                                    MSGrid::lemma_descends_alive(self, &before, nx as int, ny as int, q);
                                }
                                if before.alive(nx as int, ny as int, q) {
                                    assert forall|e: int| 0 <= e < DIRECTION_COUNT implies #[trigger] self.count(
                                        nx as int,
                                        ny as int,
                                        q,
                                        e,
                                    ) > 0 by {
                                        assert(before.count(nx as int, ny as int, q, e) > 0);
                                    }
                                }
                            } else {
                                assert(self.alive(nx as int, ny as int, p as int));
                            }
                        }
                        if before.cell_alive(nx as int, ny as int) {
                            let q = choose|q: int| 0 <= q < n && #[trigger] before.alive(nx as int, ny as int, q);
                            assert(self.alive(nx as int, ny as int, q));
                        }
                    }
                }
            }
            k += 1;
        }
        proof {
            assert(s.subrange(0, supported as int) =~= s);
            assert(worklist@.subrange(0, len0 as int) == w0);
        }
        true
    }
}

} // verus!

verus! {

/// A queue that grew by entries at cell `[nx][ny]` alone holds an entry
/// exactly when the old queue did or the entry is one of the new ones.
proof fn lemma_queue_grown(
    wa: Seq<([usize; 2], usize)>,
    wb: Seq<([usize; 2], usize)>,
    nx: int,
    ny: int,
    x1: int,
    y1: int,
    q: int,
)
    requires
        wa.len() <= wb.len(),
        wb.subrange(0, wa.len() as int) == wa,
        forall|j: int|
            wa.len() <= j < wb.len() ==> entry_is(#[trigger] wb[j], nx, ny, wb[j].1 as int),
    ensures
        (exists|j: int| 0 <= j < wb.len() && #[trigger] entry_is(wb[j], x1, y1, q)) <==> ((exists|j: int|
            0 <= j < wa.len() && #[trigger] entry_is(wa[j], x1, y1, q)) || ((x1, y1) == (nx, ny)
            && exists|j: int| wa.len() <= j < wb.len() && #[trigger] wb[j].1 == q)),
{
    if exists|j: int| 0 <= j < wb.len() && #[trigger] entry_is(wb[j], x1, y1, q) {
        let j = choose|j: int| 0 <= j < wb.len() && #[trigger] entry_is(wb[j], x1, y1, q);
        if j < wa.len() {
            assert(wb.subrange(0, wa.len() as int)[j] == wb[j]);
            assert(entry_is(wa[j], x1, y1, q));
        } else {
            assert(entry_is(wb[j], nx, ny, wb[j].1 as int));
        }
    }
    if exists|j: int| 0 <= j < wa.len() && #[trigger] entry_is(wa[j], x1, y1, q) {
        let j = choose|j: int| 0 <= j < wa.len() && #[trigger] entry_is(wa[j], x1, y1, q);
        assert(wb.subrange(0, wa.len() as int)[j] == wb[j]);
        assert(entry_is(wb[j], x1, y1, q));
    }
    if (x1, y1) == (nx, ny) && exists|j: int| wa.len() <= j < wb.len() && #[trigger] wb[j].1 == q {
        let j = choose|j: int| wa.len() <= j < wb.len() && #[trigger] wb[j].1 == q;
        assert(entry_is(wb[j], nx, ny, wb[j].1 as int));
        assert(entry_is(wb[j], x1, y1, q));
    }
}

impl MSGrid {
    /// Equal counts in every direction give equal possibility.
    proof fn lemma_alive_same_at(a: &MSGrid, b: &MSGrid, x: int, y: int, q: int)
        requires
            forall|e: int| 0 <= e < DIRECTION_COUNT ==> #[trigger] b.count(x, y, q, e) == a.count(x, y, q, e),
        ensures
            b.alive(x, y, q) == a.alive(x, y, q),
    {
        if a.alive(x, y, q) {
            assert forall|e: int| 0 <= e < DIRECTION_COUNT implies #[trigger] b.count(x, y, q, e) > 0 by {
                assert(a.count(x, y, q, e) > 0);
            }
        }
        if b.alive(x, y, q) {
            assert forall|e: int| 0 <= e < DIRECTION_COUNT implies #[trigger] a.count(x, y, q, e) > 0 by {
                assert(b.count(x, y, q, e) > 0);
            }
        }
    }

    /// Clearing every pattern but `keep` from cell `[x][y]` keeps the counts
    /// matching, once the removed patterns are queued.
    #[verifier::rlimit(40)]
    proof fn lemma_cleared_match(a: &MSGrid, b: &MSGrid, x: int, y: int, keep: int, removed: Seq<usize>)
        requires
            a.well_formed(),
            b.well_formed(),
            b.descends_from(a),
            a.counts_match(no_pending()),
            0 <= x < a.size()[0],
            0 <= y < a.size()[1],
            0 <= keep < a.values().len(),
            a.alive(x, y, keep),
            forall|q: int, d: int|
                0 <= q < a.values().len() && q != keep && 0 <= d < DIRECTION_COUNT ==> #[trigger] b.count(
                    x,
                    y,
                    q,
                    d,
                ) == 0,
            forall|x1: int, y1: int, p1: int, d1: int|
                0 <= x1 < a.size()[0] && 0 <= y1 < a.size()[1] && 0 <= p1 < a.values().len() && 0 <= d1
                    < DIRECTION_COUNT && ((x1, y1) != (x, y) || p1 == keep) ==> #[trigger] b.count(
                    x1,
                    y1,
                    p1,
                    d1,
                ) == a.count(x1, y1, p1, d1),
            forall|q: int|
                0 <= q < a.values().len() ==> ((a.alive(x, y, q) && q != keep) <==> #[trigger] removed.contains(
                    q as usize,
                )),
        ensures
            b.counts_match(queued(origin_queue(x as usize, y as usize, removed))),
    {
        let n = a.values().len();
        let w = origin_queue(x as usize, y as usize, removed);
        assert forall|x1: int, y1: int, q: int|
            0 <= q <= usize::MAX implies #[trigger] queued(w)(x1, y1, q, 0, 0) == ((x1, y1) == (x, y)
            && removed.contains(q as usize)) by {
            if exists|j: int| 0 <= j < w.len() && #[trigger] entry_is(w[j], x1, y1, q) {
                let j = choose|j: int| 0 <= j < w.len() && #[trigger] entry_is(w[j], x1, y1, q);
                assert(removed[j] == q);
            }
            if (x1, y1) == (x, y) && removed.contains(q as usize) {
                let j = choose|j: int| 0 <= j < removed.len() && removed[j] == q as usize;
                assert(entry_is(w[j], x1, y1, q));
            }
        }
        assert forall|tx: int, ty: int, p: int, e: int|
            0 <= tx < b.size()[0] && 0 <= ty < b.size()[1] && 0 <= p < b.values().len() && 0 <= e
                < DIRECTION_COUNT && in_grid(step_cell(tx, ty, e), b.size()) && b.alive(tx, ty, p)
                implies #[trigger] b.count(tx, ty, p, e) == count_where(
            b.supports(p, e),
            b.counted(queued(w), tx, ty, e),
        ) by {
            MSGrid::lemma_descends_alive(b, a, tx, ty, p);
            if (tx, ty) == (x, y) && p != keep {
                assert(b.count(x, y, p, 0) == 0);
            }
            assert(b.count(tx, ty, p, e) == a.count(tx, ty, p, e));
            assert(a.count(tx, ty, p, e) == count_where(a.supports(p, e), a.counted(no_pending(), tx, ty, e)));
            let sq = a.supports(p, e);
            assert(b.supports(p, e) == sq);
            let c = step_cell(tx, ty, e);
            lemma_step_distinct(tx, ty, e, e);
            let ca = a.counted(no_pending(), tx, ty, e);
            let cb = b.counted(queued(w), tx, ty, e);
            assert forall|i: int| 0 <= i < sq.len() implies ca(#[trigger] sq[i]) == cb(sq[i]) by {
                let q = sq[i] as int;
                assert(q < n);
                MSGrid::lemma_stillborn_same(a, b, q);
                assert(queued(w)(c.0, c.1, q, tx, ty) == queued(w)(c.0, c.1, q, 0, 0));
                assert(no_pending()(c.0, c.1, q, tx, ty) == false);
                if c != (x, y) {
                    assert forall|e1: int| 0 <= e1 < DIRECTION_COUNT implies #[trigger] b.count(
                        c.0,
                        c.1,
                        q,
                        e1,
                    ) == a.count(c.0, c.1, q, e1) by {
                    }
                    MSGrid::lemma_alive_same_at(a, b, c.0, c.1, q);
                } else if q == keep {
                    assert forall|e1: int| 0 <= e1 < DIRECTION_COUNT implies #[trigger] b.count(
                        x,
                        y,
                        q,
                        e1,
                    ) == a.count(x, y, q, e1) by {
                    }
                    MSGrid::lemma_alive_same_at(a, b, x, y, q);
                } else {
                    assert(b.count(x, y, q, 0) == 0);
                    assert(removed.contains(q as usize) == a.alive(x, y, q));
                }
            }
            lemma_count_where_same(sq, ca, cb);
        }
    }

    /// Descent keeps the rules symmetric and the counts within their bounds.
    proof fn lemma_descends_keeps_rules(a: &MSGrid, b: &MSGrid)
        requires
            b.descends_from(a),
            a.supports_symmetric(),
            a.counts_bounded(),
        ensures
            b.supports_symmetric(),
            b.counts_bounded(),
    {
        assert forall|p: int, d: int, q: usize|
            0 <= p < b.values().len() && 0 <= d < DIRECTION_COUNT && #[trigger] b.supports(p, d).contains(q)
                implies b.supports(q as int, reverse_index(d)).contains(p as usize) by {
            assert(a.supports(p, d) == b.supports(p, d));
            assert(a.supports(q as int, reverse_index(d)) == b.supports(q as int, reverse_index(d)));
        }
        assert forall|x: int, y: int, p: int, d: int|
            0 <= x < b.size()[0] && 0 <= y < b.size()[1] && 0 <= p < b.values().len() && 0 <= d
                < DIRECTION_COUNT implies #[trigger] b.count(x, y, p, d) <= b.supports(p, d).len() by {
            assert(a.count(x, y, p, d) <= a.supports(p, d).len());
            assert(a.supports(p, d) == b.supports(p, d));
        }
    }

    /// Descent keeps the patterns that can never be possible.
    proof fn lemma_stillborn_same(a: &MSGrid, b: &MSGrid, q: int)
        requires
            b.descends_from(a),
        ensures
            b.stillborn(q) == a.stillborn(q),
    {
        if a.stillborn(q) {
            let e = choose|e: int| 0 <= e < DIRECTION_COUNT && #[trigger] a.supports(q, e).len() == 0;
            assert(b.supports(q, e) == a.supports(q, e));
        }
        if b.stillborn(q) {
            let e = choose|e: int| 0 <= e < DIRECTION_COUNT && #[trigger] b.supports(q, e).len() == 0;
            assert(b.supports(q, e) == a.supports(q, e));
        }
    }

    /// Passing the removal of `cur` on to its neighbour `[nx][ny]` keeps the
    /// counts matching the removals still pending, with `[nx][ny]` marked
    /// done.
    #[verifier::rlimit(80)]
    proof fn lemma_retract_keeps_match(
        a: &MSGrid,
        b: &MSGrid,
        wa: Seq<([usize; 2], usize)>,
        wb: Seq<([usize; 2], usize)>,
        cur: ([usize; 2], usize),
        done: Set<(int, int)>,
        nx: int,
        ny: int,
        d: int,
    )
        requires
            a.well_formed(),
            b.well_formed(),
            b.descends_from(a),
            a.supports_symmetric(),
            0 <= nx < a.size()[0],
            0 <= ny < a.size()[1],
            0 <= d < DIRECTION_COUNT,
            step_cell(nx, ny, d) == (cur.0[0] as int, cur.0[1] as int),
            cur.1 < a.values().len(),
            !a.alive(cur.0[0] as int, cur.0[1] as int, cur.1 as int),
            !a.stillborn(cur.1 as int),
            forall|j: int|
                0 <= j < wa.len() ==> !#[trigger] entry_is(
                    wa[j],
                    cur.0[0] as int,
                    cur.0[1] as int,
                    cur.1 as int,
                ),
            !done.contains((nx, ny)),
            a.counts_match(pending(wa, cur, true, done)),
            forall|x1: int, y1: int, p1: int, d1: int|
                0 <= x1 < a.size()[0] && 0 <= y1 < a.size()[1] && 0 <= p1 < a.values().len() && 0 <= d1
                    < DIRECTION_COUNT && (x1, y1, d1) != (nx, ny, d) ==> #[trigger] b.count(x1, y1, p1, d1)
                    == a.count(x1, y1, p1, d1),
            forall|p1: int|
                0 <= p1 < a.values().len() ==> #[trigger] b.count(nx, ny, p1, d) == a.count(nx, ny, p1, d)
                    - (if a.supports(cur.1 as int, reverse_index(d)).contains(p1 as usize) && a.alive(
                    nx,
                    ny,
                    p1,
                ) {
                    1int
                } else {
                    0int
                }),
            wa.len() <= wb.len(),
            wb.subrange(0, wa.len() as int) == wa,
            forall|j: int|
                wa.len() <= j < wb.len() ==> entry_is(#[trigger] wb[j], nx, ny, wb[j].1 as int) && a.alive(
                    nx,
                    ny,
                    wb[j].1 as int,
                ) && !b.alive(nx, ny, wb[j].1 as int),
            forall|p1: int|
                0 <= p1 < a.values().len() && a.alive(nx, ny, p1) && !#[trigger] b.alive(nx, ny, p1)
                    ==> exists|j: int| wa.len() <= j < wb.len() && #[trigger] wb[j].1 == p1,
        ensures
            b.counts_match(pending(wb, cur, true, done.insert((nx, ny)))),
    {
        let n = a.values().len();
        let fa = pending(wa, cur, true, done);
        let fb = pending(wb, cur, true, done.insert((nx, ny)));
        let px = cur.0[0] as int;
        let py = cur.0[1] as int;
        let r = cur.1 as int;
        lemma_step_distinct(nx, ny, d, d);
        assert forall|x: int, y: int, p: int, e: int|
            0 <= x < b.size()[0] && 0 <= y < b.size()[1] && 0 <= p < b.values().len() && 0 <= e
                < DIRECTION_COUNT && in_grid(step_cell(x, y, e), b.size()) && b.alive(x, y, p)
                implies #[trigger] b.count(x, y, p, e) == count_where(
            b.supports(p, e),
            b.counted(fb, x, y, e),
        ) by {
            MSGrid::lemma_descends_alive(b, a, x, y, p);
            assert(a.count(x, y, p, e) == count_where(a.supports(p, e), a.counted(fa, x, y, e)));
            let sq = a.supports(p, e);
            assert(b.supports(p, e) == sq);
            let c = step_cell(x, y, e);
            lemma_step_distinct(x, y, e, d);
            let ca = a.counted(fa, x, y, e);
            let cb = b.counted(fb, x, y, e);
            if (x, y, e) != (nx, ny, d) {
                assert(b.count(x, y, p, e) == a.count(x, y, p, e));
                assert forall|i: int| 0 <= i < sq.len() implies ca(#[trigger] sq[i]) == cb(sq[i]) by {
                    let q = sq[i] as int;
                    assert(q < n);
                    MSGrid::lemma_stillborn_same(a, b, q);
                    lemma_queue_grown(wa, wb, nx, ny, c.0, c.1, q);
                    if c != (nx, ny) {
                        assert forall|e1: int| 0 <= e1 < DIRECTION_COUNT implies #[trigger] b.count(
                            c.0,
                            c.1,
                            q,
                            e1,
                        ) == a.count(c.0, c.1, q, e1) by {
                        }
                        MSGrid::lemma_alive_same_at(a, b, c.0, c.1, q);
                        assert(fa(c.0, c.1, q, x, y) == fb(c.0, c.1, q, x, y));
                    } else {
                        if a.alive(c.0, c.1, q) && !b.alive(c.0, c.1, q) {
                            let j = choose|j: int| wa.len() <= j < wb.len() && #[trigger] wb[j].1 == q;
                        }
                        if b.alive(c.0, c.1, q) {
                            MSGrid::lemma_descends_alive(b, a, c.0, c.1, q);
                        }
                        if exists|j: int| wa.len() <= j < wb.len() && #[trigger] wb[j].1 == q {
                            let j = choose|j: int| wa.len() <= j < wb.len() && #[trigger] wb[j].1 == q;
                            assert(a.alive(nx, ny, wb[j].1 as int));
                        }
                    }
                }
                lemma_count_where_same(sq, ca, cb);
            } else {
                assert(c == (px, py));
                assert forall|e1: int| 0 <= e1 < DIRECTION_COUNT implies #[trigger] b.count(px, py, r, e1)
                    == a.count(px, py, r, e1) by {
                }
                MSGrid::lemma_alive_same_at(a, b, px, py, r);
                MSGrid::lemma_stillborn_same(a, b, r);
                lemma_queue_grown(wa, wb, nx, ny, px, py, r);
                assert(!cb(cur.1));
                assert forall|i: int| 0 <= i < sq.len() && #[trigger] sq[i] != cur.1 implies ca(sq[i])
                    == cb(sq[i]) by {
                    let q = sq[i] as int;
                    assert(q < n);
                    MSGrid::lemma_stillborn_same(a, b, q);
                    lemma_queue_grown(wa, wb, nx, ny, px, py, q);
                    assert forall|e1: int| 0 <= e1 < DIRECTION_COUNT implies #[trigger] b.count(
                        px,
                        py,
                        q,
                        e1,
                    ) == a.count(px, py, q, e1) by {
                    }
                    MSGrid::lemma_alive_same_at(a, b, px, py, q);
                }
                lemma_reverse_index_involutive(d);
                if sq.contains(cur.1) {
                    assert(ca(cur.1));
                    lemma_count_where_one_less(sq, ca, cb, cur.1);
                    assert(a.supports(r, reverse_index(d)).contains(p as usize));
                } else {
                    assert forall|i: int| 0 <= i < sq.len() implies ca(#[trigger] sq[i]) == cb(sq[i]) by {
                        assert(sq[i] != cur.1);
                    }
                    lemma_count_where_same(sq, ca, cb);
                    if a.supports(r, reverse_index(d)).contains(p as usize) {
                        assert(a.supports(p, reverse_index(reverse_index(d))).contains(cur.1));
                    }
                }
            }
        }
    }
}

} // verus!

verus! {

impl MSGrid {
    /// A count changed at cell `[x][y]` alone leaves every other cell as
    /// alive as it was.
    proof fn lemma_other_cells_unchanged(a: &MSGrid, b: &MSGrid, x: int, y: int)
        requires
            a.descends_from(b),
            forall|x1: int, y1: int, p1: int, d1: int|
                0 <= x1 < b.size()[0] && 0 <= y1 < b.size()[1] && 0 <= p1 < b.values().len() && 0
                    <= d1 < DIRECTION_COUNT && (x1, y1) != (x, y) ==> #[trigger] a.count(x1, y1, p1, d1)
                    == b.count(x1, y1, p1, d1),
        ensures
            forall|x1: int, y1: int|
                0 <= x1 < b.size()[0] && 0 <= y1 < b.size()[1] && (x1, y1) != (x, y) ==> (
                #[trigger] a.cell_alive(x1, y1) == b.cell_alive(x1, y1)),
    {
        assert forall|x1: int, y1: int|
            0 <= x1 < b.size()[0] && 0 <= y1 < b.size()[1] && (x1, y1) != (x, y) implies (
            #[trigger] a.cell_alive(x1, y1) == b.cell_alive(x1, y1)) by {
            assert forall|q: int| 0 <= q < b.values().len() implies #[trigger] a.alive(x1, y1, q)
                == b.alive(x1, y1, q) by {
                if b.alive(x1, y1, q) {
                    assert forall|d: int| 0 <= d < DIRECTION_COUNT implies #[trigger] a.count(x1, y1, q, d)
                        > 0 by {
                        assert(b.count(x1, y1, q, d) > 0);
                    }
                }
                if a.alive(x1, y1, q) {
                    assert forall|d: int| 0 <= d < DIRECTION_COUNT implies #[trigger] b.count(x1, y1, q, d)
                        > 0 by {
                        assert(a.count(x1, y1, q, d) > 0);
                    }
                }
            }
            if a.cell_alive(x1, y1) {
                let q = choose|q: int| 0 <= q < a.values().len() && #[trigger] a.alive(x1, y1, q);
                assert(b.alive(x1, y1, q));
            }
            if b.cell_alive(x1, y1) {
                let q = choose|q: int| 0 <= q < b.values().len() && #[trigger] b.alive(x1, y1, q);
                assert(a.alive(x1, y1, q));
            }
        }
    }

    /// Removes, one by one, the support that the patterns removed from cell
    /// `[origin_x][origin_y]` gave to the patterns of its neighbours; a
    /// pattern whose count in some direction drops to zero is removed in
    /// turn. Fails as soon as a cell is left with no possible pattern.
    fn propagate_change_from_ac4(
        &mut self,
        origin_x: usize,
        origin_y: usize,
        removed_states: Vec<usize>,
    ) -> (r: bool)
        requires
            old(self).well_formed(),
            origin_x < old(self).size()[0],
            origin_y < old(self).size()[1],
            forall|i: int| 0 <= i < removed_states.len() ==> #[trigger] removed_states@[i] < old(self).values().len(),
            old(self).supports_symmetric(),
            old(self).counts_bounded(),
            removed_states@.no_duplicates(),
            forall|i: int|
                0 <= i < removed_states.len() ==> !old(self).alive(
                    origin_x as int,
                    origin_y as int,
                    #[trigger] removed_states@[i] as int,
                ) && !old(self).stillborn(removed_states@[i] as int),
            old(self).counts_match(queued(origin_queue(origin_x, origin_y, removed_states@))),
        ensures
            final(self).well_formed(),
            final(self).descends_from(&*old(self)),
            r ==> forall|x: int, y: int|
                0 <= x < old(self).size()[0] && 0 <= y < old(self).size()[1] && #[trigger] old(self).cell_alive(x, y) ==> final(self).cell_alive(x, y),
            r ==> final(self).arc_consistent(),
            !r ==> exists|x: int, y: int|
                0 <= x < old(self).size()[0] && 0 <= y < old(self).size()[1] && !#[trigger] final(self).cell_alive(x, y),
    {
        let ghost start = *self;
        let n = self.pattern_collection.patterns.len();
        let mut worklist: Vec<([usize; 2], usize)> = Vec::new();
        let mut i: usize = 0;
        while i < removed_states.len()
            invariant
                i <= removed_states.len(),
                n == old(self).values().len(),
                forall|i: int| 0 <= i < removed_states.len() ==> #[trigger] removed_states@[i] < n,
                worklist.len() == i,
                forall|k: int|
                    0 <= k < i ==> #[trigger] worklist@[k] == ([origin_x, origin_y], removed_states@[k]),
                origin_x < old(self).size()[0],
                origin_y < old(self).size()[1],
            decreases removed_states.len() - i,
        {
            worklist.push(([origin_x, origin_y], removed_states[i]));
            i += 1;
        }
        proof {
            assert(worklist@ =~= origin_queue(origin_x, origin_y, removed_states@));
            assert(self.descends_from(&start));
            assert forall|j1: int, j2: int|
                0 <= j1 < j2 < worklist.len() implies !entry_is(
                #[trigger] worklist@[j1],
                (#[trigger] worklist@[j2]).0[0] as int,
                worklist@[j2].0[1] as int,
                worklist@[j2].1 as int,
            ) by {
                assert(removed_states@[j1] != removed_states@[j2]);
            }
        }
        while worklist.len() > 0
            invariant
                self.well_formed(),
                start == *old(self),
                self.descends_from(&start),
                self.pattern_supports == start.pattern_supports,
                n == self.values().len(),
                self.supports_symmetric(),
                self.counts_bounded(),
                forall|k: int|
                    0 <= k < worklist.len() ==> (#[trigger] worklist@[k]).0[0] < self.size()[0]
                        && worklist@[k].0[1] < self.size()[1] && worklist@[k].1 < n,
                forall|k: int|
                    0 <= k < worklist.len() ==> !self.alive(
                        (#[trigger] worklist@[k]).0[0] as int,
                        worklist@[k].0[1] as int,
                        worklist@[k].1 as int,
                    ) && !self.stillborn(worklist@[k].1 as int),
                forall|j1: int, j2: int|
                    0 <= j1 < j2 < worklist.len() ==> !entry_is(
                        #[trigger] worklist@[j1],
                        (#[trigger] worklist@[j2]).0[0] as int,
                        worklist@[j2].0[1] as int,
                        worklist@[j2].1 as int,
                    ),
                self.counts_match(queued(worklist@)),
                forall|x: int, y: int|
                    0 <= x < self.size()[0] && 0 <= y < self.size()[1] && #[trigger] start.cell_alive(x, y)
                        ==> self.cell_alive(x, y),
            decreases sum_grid(self.support_count_grid@), worklist.len(),
        {
            let ghost sum0 = sum_grid(self.support_count_grid@);
            let ghost w_full = worklist@;
            let entry = worklist.pop().unwrap();
            let ghost len1 = worklist.len();
            let pos = entry.0;
            let removed = entry.1;
            proof {
                assert(worklist@ =~= w_full.drop_last());
                assert(entry == w_full[w_full.len() - 1]);
                assert forall|x1: int, y1: int, q: int, x: int, y: int|
                    #[trigger] queued(w_full)(x1, y1, q, x, y) == pending(
                        worklist@,
                        entry,
                        true,
                        Set::empty(),
                    )(x1, y1, q, x, y) by {
                    if exists|j: int| 0 <= j < w_full.len() && #[trigger] entry_is(w_full[j], x1, y1, q) {
                        let j = choose|j: int| 0 <= j < w_full.len() && #[trigger] entry_is(w_full[j], x1, y1, q);
                        if j < worklist.len() {
                            assert(entry_is(worklist@[j], x1, y1, q));
                        }
                    }
                    if exists|j: int| 0 <= j < worklist.len() && #[trigger] entry_is(worklist@[j], x1, y1, q) {
                        let j = choose|j: int| 0 <= j < worklist.len() && #[trigger] entry_is(worklist@[j], x1, y1, q);
                        assert(entry_is(w_full[j], x1, y1, q));
                    }
                    if entry_is(entry, x1, y1, q) {
                        assert(entry_is(w_full[w_full.len() - 1], x1, y1, q));
                    }
                }
                self.lemma_counts_match_congruent(queued(w_full), pending(worklist@, entry, true, Set::empty()));
                assert forall|j: int| 0 <= j < worklist.len() implies !#[trigger] entry_is(
                    worklist@[j],
                    pos[0] as int,
                    pos[1] as int,
                    removed as int,
                ) by {
                    assert(!entry_is(
                        w_full[j],
                        w_full[w_full.len() - 1].0[0] as int,
                        w_full[w_full.len() - 1].0[1] as int,
                        w_full[w_full.len() - 1].1 as int,
                    ));
                    assert(worklist@[j] == w_full[j]);
                }
            }
            let neighbours = self.get_neigbours(pos[0], pos[1]);
            proof {
                lemma_neighbour_list(pos[0], pos[1], self.size()[0], self.size()[1]);
                lemma_neighbour_cells(pos[0], pos[1], self.size()[0], self.size()[1]);
            }
            let ghost mut done: Set<(int, int)> = Set::empty();
            let mut i: usize = 0;
            while i < neighbours.len()
                invariant
                    self.well_formed(),
                    start == *old(self),
                    self.descends_from(&start),
                    self.pattern_supports == start.pattern_supports,
                    n == self.values().len(),
                    self.supports_symmetric(),
                    self.counts_bounded(),
                    removed < n,
                    pos == entry.0,
                    removed == entry.1,
                    pos[0] < self.size()[0],
                    pos[1] < self.size()[1],
                    !self.alive(pos[0] as int, pos[1] as int, removed as int),
                    !self.stillborn(removed as int),
                    i <= neighbours.len(),
                    neighbours@ == neighbour_list(pos[0], pos[1], self.size()[0], self.size()[1]),
                    forall|k: int|
                        0 <= k < neighbours.len() ==> leads_to(
                            #[trigger] neighbours@[k],
                            pos[0],
                            pos[1],
                            self.size()[0],
                            self.size()[1],
                        ),
                    forall|m1: int, m2: int|
                        0 <= m1 < m2 < neighbours.len() ==> !(#[trigger] neighbours@[m1].0[0]
                            == #[trigger] neighbours@[m2].0[0] && neighbours@[m1].0[1]
                            == neighbours@[m2].0[1]),
                    forall|c: (int, int)|
                        #[trigger] done.contains(c) <==> exists|m: int|
                            0 <= m < i && #[trigger] neighbours@[m].0[0] == c.0 && neighbours@[m].0[1] == c.1,
                    forall|k: int|
                        0 <= k < worklist.len() ==> (#[trigger] worklist@[k]).0[0] < self.size()[0]
                            && worklist@[k].0[1] < self.size()[1] && worklist@[k].1 < n,
                    forall|k: int|
                        0 <= k < worklist.len() ==> !self.alive(
                            (#[trigger] worklist@[k]).0[0] as int,
                            worklist@[k].0[1] as int,
                            worklist@[k].1 as int,
                        ) && !self.stillborn(worklist@[k].1 as int),
                    forall|j1: int, j2: int|
                        0 <= j1 < j2 < worklist.len() ==> !entry_is(
                        #[trigger] worklist@[j1],
                        (#[trigger] worklist@[j2]).0[0] as int,
                        worklist@[j2].0[1] as int,
                        worklist@[j2].1 as int,
                    ),
                    forall|j: int|
                        0 <= j < worklist.len() ==> !#[trigger] entry_is(
                            worklist@[j],
                            pos[0] as int,
                            pos[1] as int,
                            removed as int,
                        ),
                    self.counts_match(pending(worklist@, entry, true, done)),
                    forall|x: int, y: int|
                        0 <= x < self.size()[0] && 0 <= y < self.size()[1] && #[trigger] start.cell_alive(
                            x,
                            y,
                        ) ==> self.cell_alive(x, y),
                    sum_grid(self.support_count_grid@) <= sum0,
                    sum_grid(self.support_count_grid@) == sum0 ==> worklist.len() == len1,
                decreases neighbours.len() - i,
            {
                let neighbour = neighbours[i];
                assert(leads_to(neighbours@[i as int], pos[0], pos[1], self.size()[0], self.size()[1]));
                let nx = neighbour.0[0];
                let ny = neighbour.0[1];
                let dir = neighbour.1;
                let d = dir.index();
                let rd = dir.reverse().index();
                proof {
                    crate::world::ms::constraint::lemma_direction_index_bijective(dir, dir);
                    crate::world::ms::constraint::lemma_direction_index_bijective(
                        crate::world::ms::constraint::spec_reverse(dir),
                        dir,
                    );
                    lemma_reverse_key(dir);
                    assert(step_cell(nx as int, ny as int, d as int) == (pos[0] as int, pos[1] as int));
                    if done.contains((nx as int, ny as int)) {
                        let m = choose|m: int|
                            0 <= m < i && #[trigger] neighbours@[m].0[0] == nx as int && neighbours@[m].0[1]
                                == ny as int;
                        assert(neighbours@[i as int].0[0] == nx);
                    }
                }
                let ghost a = *self;
                let ghost wa = worklist@;
                if !self.retract_support(nx, ny, d, removed, rd, &mut worklist) {
                    proof {
                        MSGrid::lemma_descends_trans(self, &a, &start);
                    }
                    return false;
                }
                proof {
                    MSGrid::lemma_descends_trans(self, &a, &start);
                    MSGrid::lemma_other_cells_unchanged(self, &a, nx as int, ny as int);
                    MSGrid::lemma_retract_keeps_match(
                        &a,
                        self,
                        wa,
                        worklist@,
                        entry,
                        done,
                        nx as int,
                        ny as int,
                        d as int,
                    );
                    MSGrid::lemma_descends_keeps_rules(&a, self);
                    MSGrid::lemma_stillborn_same(&a, self, removed as int);
                    if self.alive(pos[0] as int, pos[1] as int, removed as int) {
                        MSGrid::lemma_descends_alive(self, &a, pos[0] as int, pos[1] as int, removed as int);
                    }
                    assert forall|k: int|
                        0 <= k < worklist.len() implies !self.alive(
                        (#[trigger] worklist@[k]).0[0] as int,
                        worklist@[k].0[1] as int,
                        worklist@[k].1 as int,
                    ) && !self.stillborn(worklist@[k].1 as int) by {
                        let q = worklist@[k].1 as int;
                        MSGrid::lemma_stillborn_same(&a, self, q);
                        if k < wa.len() {
                            assert(worklist@[k] == worklist@.subrange(0, wa.len() as int)[k]);
                            if self.alive(wa[k].0[0] as int, wa[k].0[1] as int, q) {
                                MSGrid::lemma_descends_alive(self, &a, wa[k].0[0] as int, wa[k].0[1] as int, q);
                            }
                        } else {
                            a.lemma_alive_not_stillborn(nx as int, ny as int, q);
                        }
                    }
                    assert forall|j1: int, j2: int|
                        0 <= j1 < j2 < worklist.len() implies !entry_is(
                        #[trigger] worklist@[j1],
                        (#[trigger] worklist@[j2]).0[0] as int,
                        worklist@[j2].0[1] as int,
                        worklist@[j2].1 as int,
                    ) by {
                        if j2 < wa.len() {
                            assert(worklist@[j1] == worklist@.subrange(0, wa.len() as int)[j1]);
                            assert(worklist@[j2] == worklist@.subrange(0, wa.len() as int)[j2]);
                            assert(!entry_is(wa[j1], wa[j2].0[0] as int, wa[j2].0[1] as int, wa[j2].1 as int));
                        } else if j1 < wa.len() {
                            assert(worklist@[j1] == worklist@.subrange(0, wa.len() as int)[j1]);
                            assert(!a.alive(wa[j1].0[0] as int, wa[j1].0[1] as int, wa[j1].1 as int));
                        }
                    }
                    assert forall|j: int| 0 <= j < worklist.len() implies !#[trigger] entry_is(
                        worklist@[j],
                        pos[0] as int,
                        pos[1] as int,
                        removed as int,
                    ) by {
                        if j < wa.len() {
                            assert(worklist@[j] == worklist@.subrange(0, wa.len() as int)[j]);
                            assert(!entry_is(wa[j], pos[0] as int, pos[1] as int, removed as int));
                            assert(!entry_is(worklist@[j], pos[0] as int, pos[1] as int, removed as int));
                        } else {
                            lemma_step_distinct(nx as int, ny as int, d as int, d as int);
                            assert(entry_is(worklist@[j], nx as int, ny as int, worklist@[j].1 as int));
                            assert(step_cell(nx as int, ny as int, d as int) == (pos[0] as int, pos[1] as int));
                            assert(worklist@[j].0[0] == nx && worklist@[j].0[1] == ny);
                            assert((pos[0] as int, pos[1] as int) != (nx as int, ny as int));
                            assert(!entry_is(worklist@[j], pos[0] as int, pos[1] as int, removed as int));
                        }
                    }
                    let done2 = done.insert((nx as int, ny as int));
                    assert forall|c: (int, int)|
                        #[trigger] done2.contains(c) <==> exists|m: int|
                            0 <= m < i + 1 && #[trigger] neighbours@[m].0[0] == c.0 && neighbours@[m].0[1]
                                == c.1 by {
                        if c == (nx as int, ny as int) {
                            assert(neighbours@[i as int].0[0] == c.0 && neighbours@[i as int].0[1] == c.1);
                        }
                        if exists|m: int|
                            0 <= m < i + 1 && #[trigger] neighbours@[m].0[0] == c.0 && neighbours@[m].0[1]
                                == c.1 {
                            let m = choose|m: int|
                                0 <= m < i + 1 && #[trigger] neighbours@[m].0[0] == c.0 && neighbours@[m].0[1]
                                    == c.1;
                            if m < i {
                                assert(done.contains(c));
                            }
                        }
                    }
                    done = done2;
                }
                i += 1;
            }
            proof {
                lemma_sum_grid_nonneg(self.support_count_grid@);
                assert forall|x: int, y: int, e: int, q: int|
                    0 <= x < self.size()[0] && 0 <= y < self.size()[1] && 0 <= e < DIRECTION_COUNT
                        && in_grid(step_cell(x, y, e), self.size()) implies #[trigger] pending(
                        worklist@,
                        entry,
                        true,
                        done,
                    )(step_cell(x, y, e).0, step_cell(x, y, e).1, q, x, y) == queued(worklist@)(
                        step_cell(x, y, e).0,
                        step_cell(x, y, e).1,
                        q,
                        x,
                        y,
                    ) by {
                    let c = step_cell(x, y, e);
                    if entry_is(entry, c.0, c.1, q) {
                        let m = choose|m: int|
                            0 <= m < neighbours.len() && #[trigger] neighbours@[m].0[0] == x
                                && neighbours@[m].0[1] == y;
                        assert(done.contains((x, y)));
                    }
                }
                self.lemma_counts_match_congruent(pending(worklist@, entry, true, done), queued(worklist@));
            }
        }
        proof {
            assert(worklist@ =~= Seq::<([usize; 2], usize)>::empty());
        }
        true
    }
}

} // verus!

verus! {

impl MSGrid {
    /// Collapse to a pattern survives a descent that leaves every cell alive.
    pub proof fn lemma_descends_keeps_collapsed(a: &MSGrid, b: &MSGrid)
        requires
            a.descends_from(b),
            a.all_cells_alive(),
        ensures
            forall|x: int, y: int, p: int|
                0 <= x < a.size()[0] && 0 <= y < a.size()[1] && #[trigger] b.collapsed_to(x, y, p)
                    ==> a.collapsed_to(x, y, p),
    {
        assert forall|x: int, y: int, p: int|
            0 <= x < a.size()[0] && 0 <= y < a.size()[1] && #[trigger] b.collapsed_to(x, y, p)
                implies a.collapsed_to(x, y, p) by {
            assert(a.cell_alive(x, y));
            MSGrid::lemma_descends_collapsed(a, b, x, y, p);
        }
    }

    /// Collapsed cells stay collapsed through a descent that leaves every
    /// cell alive.
    pub proof fn lemma_descends_keeps_cell_collapsed(a: &MSGrid, b: &MSGrid)
        requires
            a.descends_from(b),
            a.all_cells_alive(),
        ensures
            forall|x: int, y: int|
                0 <= x < a.size()[0] && 0 <= y < a.size()[1] && #[trigger] b.cell_collapsed(x, y)
                    ==> a.cell_collapsed(x, y),
    {
        MSGrid::lemma_descends_keeps_collapsed(a, b);
        assert forall|x: int, y: int|
            0 <= x < a.size()[0] && 0 <= y < a.size()[1] && #[trigger] b.cell_collapsed(x, y)
                implies a.cell_collapsed(x, y) by {
            let p = choose|p: int| #[trigger] b.collapsed_to(x, y, p);
            assert(a.collapsed_to(x, y, p));
        }
    }

    /// The patterns still possible at cell `[x][y]`, in increasing order.
    pub fn alive_patterns(&self, x: usize, y: usize) -> (r: Vec<usize>)
        requires
            self.well_formed(),
            x < self.size()[0],
            y < self.size()[1],
        ensures
            r@ == self.alive_states(x as int, y as int),
            forall|i: int| 0 <= i < r.len() ==> #[trigger] r@[i] < self.values().len(),
            forall|i: int, j: int| 0 <= i < j < r.len() ==> #[trigger] r@[i] < #[trigger] r@[j],
            forall|p: int|
                0 <= p < self.values().len() ==> (#[trigger] self.alive(x as int, y as int, p) <==> r@.contains(
                    p as usize,
                )),
    {
        let n = self.pattern_collection.patterns.len();
        let mut r: Vec<usize> = Vec::new();
        let mut p: usize = 0;
        while p < n
            invariant
                self.well_formed(),
                x < self.size()[0],
                y < self.size()[1],
                n == self.values().len(),
                p <= n,
                forall|i: int| 0 <= i < r.len() ==> #[trigger] r@[i] < p,
                forall|i: int, j: int| 0 <= i < j < r.len() ==> #[trigger] r@[i] < #[trigger] r@[j],
                forall|q: int|
                    0 <= q < p ==> (#[trigger] self.alive(x as int, y as int, q) <==> r@.contains(q as usize)),
                r@ == self.alive_upto(x as int, y as int, p as int),
            decreases n - p,
        {
            let ghost r0 = r@;
            if self.is_alive(x, y, p) {
                r.push(p);
            }
            proof {
                assert forall|q: int|
                    0 <= q < p + 1 implies (#[trigger] self.alive(x as int, y as int, q) <==> r@.contains(
                    q as usize,
                )) by {
                    if q < p {
                        if r@.contains(q as usize) {
                            let i = choose|i: int| 0 <= i < r.len() && r@[i] == q as usize;
                            if i < r0.len() {
                                assert(r0[i] == q as usize);
                            }
                        }
                        if r0.contains(q as usize) {
                            let i = choose|i: int| 0 <= i < r0.len() && r0[i] == q as usize;
                            assert(r@[i] == q as usize);
                        }
                    } else {
                        if r@.contains(q as usize) {
                            let i = choose|i: int| 0 <= i < r.len() && r@[i] == q as usize;
                            assert(r@[i] == p);
                        }
                        if self.alive(x as int, y as int, q) {
                            assert(r@[r.len() - 1] == p);
                        }
                    }
                }
            }
            p += 1;
        }
        proof {
            assert forall|q: int|
                0 <= q < self.values().len() implies (#[trigger] self.alive(x as int, y as int, q)
                <==> r@.contains(q as usize)) by {}
        }
        r
    }

    /// The patterns below `k` still possible at cell `[x][y]`, in order.
    pub open spec fn alive_upto(&self, x: int, y: int, k: int) -> Seq<usize>
        decreases k,
    {
        if k <= 0 {
            Seq::empty()
        } else if self.alive(x, y, k - 1) {
            self.alive_upto(x, y, k - 1).push((k - 1) as usize)
        } else {
            self.alive_upto(x, y, k - 1)
        }
    }

    /// The patterns still possible at cell `[x][y]`, in order.
    pub open spec fn alive_states(&self, x: int, y: int) -> Seq<usize> {
        self.alive_upto(x, y, self.values().len() as int)
    }

    /// Below `k`, a cell collapsed to `p` has `p` as its only possible
    /// pattern, if `p` is below `k`.
    proof fn lemma_collapsed_upto(&self, x: int, y: int, p: int, k: int)
        requires
            self.collapsed_to(x, y, p),
            0 <= k <= self.values().len(),
        ensures
            self.alive_upto(x, y, k).len() == (if p < k { 1int } else { 0int }),
        decreases k,
    {
        if k > 0 {
            self.lemma_collapsed_upto(x, y, p, k - 1);
        }
    }

    /// A collapsed cell has exactly one possible pattern.
    pub proof fn lemma_collapsed_one_state(&self, x: int, y: int)
        requires
            self.cell_collapsed(x, y),
        ensures
            self.alive_states(x, y).len() == 1,
    {
        let p = choose|p: int| #[trigger] self.collapsed_to(x, y, p);
        self.lemma_collapsed_upto(x, y, p, self.values().len() as int);
    }

    /// The draw weights of `states`: how often each was seen.
    pub open spec fn state_weights(&self, states: Seq<usize>) -> Seq<usize> {
        Seq::new(states.len(), |i: int| self.pattern_counts()[states[i] as int])
    }

    /// The pattern that cell `[x][y]` keeps for the drawn `target`: its only
    /// possible pattern, or the one at which the running sum of the weights
    /// of its possible patterns first reaches `target`.
    pub open spec fn kept_state(&self, x: int, y: int, target: int) -> int {
        let states = self.alive_states(x, y);
        if states.len() == 1 {
            states[0] as int
        } else {
            states[crate::world::ms::state_choice::reach_index(self.state_weights(states), target)] as int
        }
    }

    /// How often each of `states` was seen in the reference grid.
    fn weights_of(&self, states: &Vec<usize>) -> (r: Vec<usize>)
        requires
            self.well_formed(),
            forall|i: int| 0 <= i < states.len() ==> #[trigger] states@[i] < self.values().len(),
        ensures
            r.len() == states.len(),
            r@ == self.state_weights(states@),
            forall|i: int| 0 <= i < r.len() ==> #[trigger] r@[i] == self.pattern_counts()[states@[i] as int],
            forall|i: int| 0 <= i < r.len() ==> #[trigger] r@[i] >= 1,
    {
        let mut r: Vec<usize> = Vec::new();
        let mut i: usize = 0;
        while i < states.len()
            invariant
                self.well_formed(),
                forall|i: int| 0 <= i < states.len() ==> #[trigger] states@[i] < self.values().len(),
                i <= states.len(),
                r.len() == i,
                forall|k: int| 0 <= k < i ==> #[trigger] r@[k] == self.pattern_counts()[states@[k] as int],
                forall|k: int| 0 <= k < i ==> #[trigger] r@[k] >= 1,
            decreases states.len() - i,
        {
            let c = self.pattern_collection.get_count(states[i]);
            r.push(c);
            i += 1;
        }
        assert(r@ =~= self.state_weights(states@));
        r
    }

    /// Sets every count of every pattern but `keep` at cell `[x][y]` to zero.
    fn clear_others(&mut self, x: usize, y: usize, keep: usize)
        requires
            old(self).well_formed(),
            x < old(self).size()[0],
            y < old(self).size()[1],
        ensures
            final(self).well_formed(),
            final(self).descends_from(&*old(self)),
            forall|q: int, d: int|
                0 <= q < old(self).values().len() && q != keep && 0 <= d < DIRECTION_COUNT
                    ==> #[trigger] final(self).count(x as int, y as int, q, d) == 0,
            forall|x1: int, y1: int, p1: int, d1: int|
                0 <= x1 < old(self).size()[0] && 0 <= y1 < old(self).size()[1] && 0 <= p1 < old(self).values().len()
                    && 0 <= d1 < DIRECTION_COUNT && ((x1, y1) != (x as int, y as int) || p1 == keep)
                    ==> #[trigger] final(self).count(x1, y1, p1, d1) == old(self).count(x1, y1, p1, d1),
    {
        let n = self.pattern_collection.patterns.len();
        let mut q: usize = 0;
        while q < n
            invariant
                self.well_formed(),
                x < self.size()[0],
                y < self.size()[1],
                n == self.values().len(),
                q <= n,
                self.descends_from(&*old(self)),
                self.pattern_collection == old(self).pattern_collection,
                self.pattern_supports == old(self).pattern_supports,
                self.grid_size == old(self).grid_size,
                forall|q1: int, d: int|
                    0 <= q1 < q && q1 != keep && 0 <= d < DIRECTION_COUNT
                        ==> #[trigger] self.count(x as int, y as int, q1, d) == 0,
                forall|x1: int, y1: int, p1: int, d1: int|
                    0 <= x1 < self.size()[0] && 0 <= y1 < self.size()[1] && 0 <= p1 < n && 0 <= d1
                        < DIRECTION_COUNT && ((x1, y1) != (x as int, y as int) || p1 == keep || p1 >= q)
                        ==> #[trigger] self.count(x1, y1, p1, d1) == old(self).count(x1, y1, p1, d1),
            decreases n - q,
        {
            if q != keep {
                let zeros = crate::world::tile_grid::filled_vec(0usize, DIRECTION_COUNT);
                let ghost before = *self;
                self.support_count_grid[x][y][q] = zeros;
                proof {
                    assert(self.support_count_grid@[x as int]@[y as int]@ == before.support_count_grid@[x as int]@[y as int]@.update(q as int, zeros));
                    assert forall|x1: int, y1: int, p1: int, d1: int|
                        0 <= x1 < self.size()[0] && 0 <= y1 < self.size()[1] && 0 <= p1 < n && 0 <= d1
                            < DIRECTION_COUNT implies #[trigger] self.count(x1, y1, p1, d1) == (if (x1, y1, p1) == (
                            x as int,
                            y as int,
                            q as int,
                        ) {
                            0
                        } else {
                            before.count(x1, y1, p1, d1)
                        }) by {
                        if x1 != x {
                            assert(self.support_count_grid@[x1] == before.support_count_grid@[x1]);
                        } else if y1 != y {
                            assert(self.support_count_grid@[x1]@[y1] == before.support_count_grid@[x1]@[y1]);
                        }
                    }
                }
            }
            q += 1;
        }
    }
}

} // verus!

verus! {

/// The entries of `states` other than `chosen`, in order.
pub fn without(states: &Vec<usize>, chosen: usize) -> (r: Vec<usize>)
    ensures
        r@ == states@.filter(|s: usize| s != chosen),
        states@.no_duplicates() ==> r@.no_duplicates(),
{
    let mut r: Vec<usize> = Vec::new();
    let mut i: usize = 0;
    while i < states.len()
        invariant
            i <= states.len(),
            r@ == states@.take(i as int).filter(|s: usize| s != chosen),
            states@.no_duplicates() ==> r@.no_duplicates(),
        decreases states.len() - i,
    {
        proof {
            assert(states@.take(i + 1) =~= states@.take(i as int).push(states@[i as int]));
            states@.take(i as int).lemma_filter_push(states@[i as int], |s: usize| s != chosen);
        }
        if states[i] != chosen {
            let ghost r0 = r@;
            proof {
                if states@.no_duplicates() && r0.contains(states@[i as int]) {
                    states@.take(i as int).lemma_filter_contains_rev(|s: usize| s != chosen, states@[i as int]);
                    let j = choose|j: int| 0 <= j < i && #[trigger] states@.take(i as int)[j] == states@[i as int];
                    assert(states@[j] == states@[i as int]);
                }
            }
            r.push(states[i]);
            proof {
                if states@.no_duplicates() {
                    assert forall|a: int, b: int| 0 <= a < r@.len() && 0 <= b < r@.len() && a != b implies r@[a] != r@[b] by {
                        if a == r0.len() {
                            assert(r0.contains(r0[b]));
                        } else if b == r0.len() {
                            assert(r0.contains(r0[a]));
                        }
                    }
                }
            }
        }
        i += 1;
    }
    assert(states@.take(states.len() as int) =~= states@);
    r
}

impl MSGrid {
    /// Collapses cell `[x][y]` to the pattern it keeps for the drawn
    /// `target` (see `kept_state`) and passes the loss of its other patterns
    /// on to the rest of the grid. A cell with one possible pattern is left
    /// as it is. Fails when propagation leaves a cell with no possible
    /// pattern.
    pub fn collapse_cell(&mut self, x: usize, y: usize, target: u128) -> (r: bool)
        requires
            old(self).well_formed(),
            old(self).arc_consistent(),
            x < old(self).size()[0],
            y < old(self).size()[1],
            old(self).cell_alive(x as int, y as int),
            old(self).alive_states(x as int, y as int).len() != 1 ==> target
                < crate::world::ms::state_choice::total_weight_of(
                old(self).state_weights(old(self).alive_states(x as int, y as int)),
            ),
        ensures
            final(self).well_formed(),
            final(self).descends_from(&*old(self)),
            old(self).alive(x as int, y as int, old(self).kept_state(x as int, y as int, target as int)),
            old(self).alive_states(x as int, y as int).len() == 1 ==> r && *final(self) == *old(self),
            r ==> final(self).collapsed_to(
                x as int,
                y as int,
                old(self).kept_state(x as int, y as int, target as int),
            ),
            r ==> forall|x1: int, y1: int|
                0 <= x1 < old(self).size()[0] && 0 <= y1 < old(self).size()[1] && #[trigger] old(self).cell_alive(x1, y1)
                    ==> final(self).cell_alive(x1, y1),
            r ==> final(self).arc_consistent(),
            !r ==> exists|x1: int, y1: int|
                0 <= x1 < old(self).size()[0] && 0 <= y1 < old(self).size()[1] && !#[trigger] final(self).cell_alive(x1, y1),
    {
        let ghost start = *self;
        let possible_states = self.alive_patterns(x, y);
        let ghost some = choose|p: int| 0 <= p < self.values().len() && #[trigger] self.alive(x as int, y as int, p);
        assert(possible_states@.contains(some as usize));
        if possible_states.len() == 1 {
            proof {
                let p = possible_states@[0] as int;
                assert(p == self.kept_state(x as int, y as int, target as int));
                assert(self.alive(x as int, y as int, p));
            }
            return true;
        }
        let weights = self.weights_of(&possible_states);
        let chosen = crate::world::ms::state_choice::pick_state(&possible_states, &weights, target);
        assert(chosen as int == self.kept_state(x as int, y as int, target as int));
        let removed_states = without(&possible_states, chosen);
        let ghost before_clear = *self;
        assert(self.alive(x as int, y as int, chosen as int));
        self.clear_others(x, y, chosen);
        let ghost cleared = *self;
        proof {
            assert forall|d: int| 0 <= d < DIRECTION_COUNT implies #[trigger] self.count(x as int, y as int, chosen as int, d) > 0 by {
                assert(before_clear.count(x as int, y as int, chosen as int, d) > 0);
            }
            assert forall|q: int| 0 <= q < self.values().len() && q != chosen implies !#[trigger] self.alive(x as int, y as int, q) by {
                assert(self.count(x as int, y as int, q, 0) == 0);
            }
            assert(self.collapsed_to(x as int, y as int, chosen as int));
            MSGrid::lemma_other_cells_unchanged(self, &before_clear, x as int, y as int);
            assert(self.cell_alive(x as int, y as int));
            assert forall|x1: int, y1: int| 0 <= x1 < self.size()[0] && 0 <= y1 < self.size()[1] && #[trigger] start.cell_alive(x1, y1) implies self.cell_alive(x1, y1) by {
                if (x1, y1) != (x as int, y as int) {
                    assert(before_clear.cell_alive(x1, y1));
                }
            }
            assert forall|i: int| 0 <= i < removed_states.len() implies #[trigger] removed_states@[i] < self.values().len() by {
                assert(possible_states@.filter(|s: usize| s != chosen).contains(removed_states@[i]));
                possible_states@.lemma_filter_contains_rev(|s: usize| s != chosen, removed_states@[i]);
            }
            assert forall|i: int, j: int| 0 <= i < possible_states.len() && 0 <= j < possible_states.len() && i != j implies possible_states@[i] != possible_states@[j] by {
                if i < j {
                    assert(possible_states@[i] < possible_states@[j]);
                } else {
                    assert(possible_states@[j] < possible_states@[i]);
                }
            }
            assert(possible_states@.no_duplicates());
            MSGrid::lemma_descends_keeps_rules(&before_clear, self);
            assert forall|q: int| 0 <= q < self.values().len() implies ((before_clear.alive(x as int, y as int, q) && q != chosen) <==> #[trigger] removed_states@.contains(q as usize)) by {
                if removed_states@.contains(q as usize) {
                    possible_states@.lemma_filter_contains_rev(|s: usize| s != chosen, q as usize);
                }
                if before_clear.alive(x as int, y as int, q) && q != chosen {
                    assert(possible_states@.contains(q as usize));
                    let k = choose|k: int| 0 <= k < possible_states.len() && possible_states@[k] == q as usize;
                    possible_states@.lemma_filter_contains(|s: usize| s != chosen, k);
                }
            }
            assert forall|i: int|
                0 <= i < removed_states.len() implies !self.alive(
                    x as int,
                    y as int,
                    #[trigger] removed_states@[i] as int,
                ) && !self.stillborn(removed_states@[i] as int) by {
                let q = removed_states@[i] as int;
                assert(removed_states@.contains(q as usize));
                assert(self.count(x as int, y as int, q, 0) == 0);
                before_clear.lemma_alive_not_stillborn(x as int, y as int, q);
                MSGrid::lemma_stillborn_same(&before_clear, self, q);
            }
            MSGrid::lemma_cleared_match(&before_clear, self, x as int, y as int, chosen as int, removed_states@);
        }
        if !self.propagate_change_from_ac4(x, y, removed_states) {
            proof {
                MSGrid::lemma_descends_trans(self, &cleared, &start);
            }
            return false;
        }
        proof {
            MSGrid::lemma_descends_trans(self, &cleared, &start);
            assert forall|x1: int, y1: int| 0 <= x1 < self.size()[0] && 0 <= y1 < self.size()[1] && #[trigger] start.cell_alive(x1, y1) implies self.cell_alive(x1, y1) by {
                assert(cleared.cell_alive(x1, y1));
            }
            assert(cleared.cell_alive(x as int, y as int));
            MSGrid::lemma_descends_collapsed(self, &cleared, x as int, y as int, chosen as int);
        }
        true
    }

    /// Collapses every cell of the `subset_size` rectangle at `offset`, row
    /// by row within each column: a cell with more than one possible pattern
    /// gets one of them, drawn with a chance in proportion to how often it
    /// was seen in the reference grid, and the patterns it loses are
    /// propagated to the rest of the grid. Fails when propagation leaves a
    /// cell with no possible pattern.
    pub fn collapse_subset(&mut self, offset: [usize; 2], subset_size: [usize; 2]) -> (r: bool)
        requires
            old(self).well_formed(),
            old(self).arc_consistent(),
            offset[0] + subset_size[0] <= old(self).size()[0],
            offset[1] + subset_size[1] <= old(self).size()[1],
            forall|x: int, y: int|
                offset[0] <= x < offset[0] + subset_size[0] && offset[1] <= y < offset[1] + subset_size[1]
                    ==> #[trigger] old(self).cell_alive(x, y),
        ensures
            final(self).well_formed(),
            final(self).descends_from(&*old(self)),
            r ==> forall|x: int, y: int|
                0 <= x < old(self).size()[0] && 0 <= y < old(self).size()[1] && #[trigger] old(self).cell_alive(x, y)
                    ==> final(self).cell_alive(x, y),
            r ==> final(self).arc_consistent(),
            r ==> forall|x: int, y: int|
                offset[0] <= x < offset[0] + subset_size[0] && offset[1] <= y < offset[1] + subset_size[1]
                    ==> #[trigger] final(self).cell_collapsed(x, y),
            !r ==> exists|x: int, y: int|
                0 <= x < old(self).size()[0] && 0 <= y < old(self).size()[1] && !#[trigger] final(self).cell_alive(x, y),
            (forall|x: int, y: int|
                offset[0] <= x < offset[0] + subset_size[0] && offset[1] <= y < offset[1] + subset_size[1]
                    ==> #[trigger] old(self).cell_collapsed(x, y)) ==> r && *final(self) == *old(self),
    {
        let ghost start = *self;
        let ghost allc = forall|x: int, y: int|
            offset[0] <= x < offset[0] + subset_size[0] && offset[1] <= y < offset[1] + subset_size[1]
                ==> #[trigger] start.cell_collapsed(x, y);
        let x_end = offset[0] + subset_size[0];
        let y_end = offset[1] + subset_size[1];
        let mut x: usize = offset[0];
        while x < x_end
            invariant
                self.well_formed(),
                start == *old(self),
                self.descends_from(&start),
                forall|x1: int, y1: int|
                    0 <= x1 < start.size()[0] && 0 <= y1 < start.size()[1] && #[trigger] start.cell_alive(x1, y1)
                        ==> self.cell_alive(x1, y1),
                forall|x1: int, y1: int|
                    offset[0] <= x1 < offset[0] + subset_size[0] && offset[1] <= y1 < offset[1] + subset_size[1]
                        ==> #[trigger] start.cell_alive(x1, y1),
                self.arc_consistent(),
                allc == (forall|x: int, y: int|
                    offset[0] <= x < offset[0] + subset_size[0] && offset[1] <= y < offset[1] + subset_size[1]
                        ==> #[trigger] start.cell_collapsed(x, y)),
                allc ==> *self == start,
                x_end == offset[0] + subset_size[0],
                y_end == offset[1] + subset_size[1],
                x_end <= self.size()[0],
                y_end <= self.size()[1],
                offset[0] <= x <= x_end,
                forall|x1: int, y1: int|
                    offset[0] <= x1 < x && offset[1] <= y1 < y_end ==> #[trigger] self.cell_collapsed(x1, y1),
            decreases x_end - x,
        {
            let mut y: usize = offset[1];
            while y < y_end
                invariant
                    self.well_formed(),
                    start == *old(self),
                    self.descends_from(&start),
                    forall|x1: int, y1: int|
                        0 <= x1 < start.size()[0] && 0 <= y1 < start.size()[1] && #[trigger] start.cell_alive(x1, y1)
                            ==> self.cell_alive(x1, y1),
                    forall|x1: int, y1: int|
                        offset[0] <= x1 < offset[0] + subset_size[0] && offset[1] <= y1 < offset[1] + subset_size[1]
                            ==> #[trigger] start.cell_alive(x1, y1),
                    self.arc_consistent(),
                    allc == (forall|x: int, y: int|
                        offset[0] <= x < offset[0] + subset_size[0] && offset[1] <= y < offset[1] + subset_size[1]
                            ==> #[trigger] start.cell_collapsed(x, y)),
                    allc ==> *self == start,
                    x_end == offset[0] + subset_size[0],
                    y_end == offset[1] + subset_size[1],
                    x_end <= self.size()[0],
                    y_end <= self.size()[1],
                    offset[0] <= x < x_end,
                    offset[1] <= y <= y_end,
                    forall|x1: int, y1: int|
                        ((offset[0] <= x1 < x && offset[1] <= y1 < y_end) || (x1 == x && offset[1] <= y1 < y))
                            ==> #[trigger] self.cell_collapsed(x1, y1),
                decreases y_end - y,
            {
                let ghost iter_start = *self;
                assert(start.cell_alive(x as int, y as int));
                let possible_states = self.alive_patterns(x, y);
                proof {
                    if allc {
                        assert(start.cell_collapsed(x as int, y as int));
                        start.lemma_collapsed_one_state(x as int, y as int);
                    }
                }
                let mut target: u128 = 0;
                if possible_states.len() != 1 {
                    let weights = self.weights_of(&possible_states);
                    let total = crate::world::ms::state_choice::total_weight(&weights);
                    proof {
                        let some = choose|p: int| 0 <= p < self.values().len() && #[trigger] self.alive(x as int, y as int, p);
                        assert(possible_states@.contains(some as usize));
                        assert(weights.len() >= 1);
                        assert(crate::world::ms::state_choice::prefix_weight(weights@, 0) == 0);
                        assert(crate::world::ms::state_choice::prefix_weight(weights@, 1) == weights@[0] as int);
                        crate::world::ms::state_choice::lemma_prefix_weight_bounds(weights@, 1, weights.len() as int);
                    }
                    target = crate::world::random::random_below(total);
                }
                if !self.collapse_cell(x, y, target) {
                    proof {
                        MSGrid::lemma_descends_trans(self, &iter_start, &start);
                    }
                    return false;
                }
                proof {
                    MSGrid::lemma_descends_trans(self, &iter_start, &start);
                    assert(self.cell_collapsed(x as int, y as int));
                    assert forall|x1: int, y1: int|
                        ((offset[0] <= x1 < x && offset[1] <= y1 < y_end) || (x1 == x && offset[1] <= y1 < y + 1))
                            implies #[trigger] self.cell_collapsed(x1, y1) by {
                        if (x1, y1) != (x as int, y as int) {
                            assert(iter_start.cell_collapsed(x1, y1));
                            let p = choose|p: int| #[trigger] iter_start.collapsed_to(x1, y1, p);
                            assert(start.cell_alive(x1, y1));
                            assert(iter_start.cell_alive(x1, y1));
                            MSGrid::lemma_descends_collapsed(self, &iter_start, x1, y1, p);
                        }
                    }
                    assert forall|x1: int, y1: int|
                        0 <= x1 < start.size()[0] && 0 <= y1 < start.size()[1] && #[trigger] start.cell_alive(x1, y1)
                            implies self.cell_alive(x1, y1) by {
                        assert(iter_start.cell_alive(x1, y1));
                    }
                }
                y += 1;
            }
            x += 1;
        }
        true
    }
}

} // verus!

verus! {

/// The side of the square subsets that `collapse_grid` collapses one after
/// another.
pub const SUBSET_SIZE: usize = 10;

/// The counts of a grid of count tables, as nested sequences.
pub open spec fn count_view(g: Seq<Vec<Vec<Vec<usize>>>>) -> Seq<Seq<Seq<Seq<usize>>>> {
    Seq::new(g.len(), |x: int| Seq::new(g[x]@.len(), |y: int| grid_view(g[x]@[y]@)))
}

/// A copy of a grid of count tables.
fn copy_counts(g: &Vec<Vec<Vec<Vec<usize>>>>) -> (r: Vec<Vec<Vec<Vec<usize>>>>)
    ensures
        count_view(r@) == count_view(g@),
{
    let mut r: Vec<Vec<Vec<Vec<usize>>>> = Vec::new();
    let mut x: usize = 0;
    while x < g.len()
        invariant
            x <= g.len(),
            r.len() == x,
            forall|i: int| 0 <= i < x ==> #[trigger] r@[i]@.len() == g@[i]@.len(),
            forall|i: int, j: int|
                0 <= i < x && 0 <= j < g@[i]@.len() ==> #[trigger] grid_view(r@[i]@[j]@) == grid_view(
                    g@[i]@[j]@,
                ),
        decreases g.len() - x,
    {
        let mut column: Vec<Vec<Vec<usize>>> = Vec::new();
        let mut y: usize = 0;
        while y < g[x].len()
            invariant
                x < g.len(),
                y <= g@[x as int]@.len(),
                column.len() == y,
                forall|j: int| 0 <= j < y ==> #[trigger] grid_view(column@[j]@) == grid_view(
                    g@[x as int]@[j]@,
                ),
            decreases g@[x as int]@.len() - y,
        {
            column.push(crate::world::grid::copy_grid(&g[x][y]));
            y += 1;
        }
        r.push(column);
        x += 1;
    }
    assert(count_view(r@) =~= count_view(g@)) by {
        assert forall|i: int| 0 <= i < g.len() implies #[trigger] count_view(r@)[i] =~= count_view(
            g@,
        )[i] by {}
    }
    r
}

impl MSGrid {
    /// A grid whose count tables were put back to those of `b` is `b` again,
    /// as far as the specifications see.
    proof fn lemma_restored(a: &MSGrid, a0: &MSGrid, b: &MSGrid)
        requires
            b.well_formed(),
            a0.well_formed(),
            a0.descends_from(b),
            a.pattern_collection == a0.pattern_collection,
            a.pattern_supports == a0.pattern_supports,
            a.grid_size == a0.grid_size,
            count_view(a.support_count_grid@) == count_view(b.support_count_grid@),
        ensures
            a.well_formed(),
            a.descends_from(b),
            forall|x: int, y: int|
                0 <= x < a.size()[0] && 0 <= y < a.size()[1] ==> #[trigger] a.cell_alive(x, y)
                    == b.cell_alive(x, y),
            b.arc_consistent() ==> a.arc_consistent(),
            forall|x: int, y: int, p: int, d: int|
                0 <= x < a.size()[0] && 0 <= y < a.size()[1] && 0 <= p < a.values().len() && 0 <= d < DIRECTION_COUNT
                    ==> #[trigger] a.count(x, y, p, d) == b.count(x, y, p, d),
    {
        let ga = a.support_count_grid@;
        let gb = b.support_count_grid@;
        let n = b.values().len();
        assert(ga.len() == count_view(ga).len());
        assert forall|x: int| 0 <= x < a.size()[0] implies #[trigger] ga[x]@.len() == gb[x]@.len() by {
            assert(count_view(ga)[x].len() == count_view(gb)[x].len());
        }
        assert forall|x: int, y: int|
            0 <= x < a.size()[0] && 0 <= y < a.size()[1] implies #[trigger] ga[x]@[y]@.len() == n by {
            assert(count_view(ga)[x][y].len() == count_view(gb)[x][y].len());
        }
        assert forall|x: int, y: int, p: int|
            0 <= x < a.size()[0] && 0 <= y < a.size()[1] && 0 <= p < n implies #[trigger] ga[x]@[y]@[p]@
            == gb[x]@[y]@[p]@ by {
            assert(count_view(ga)[x][y][p] == count_view(gb)[x][y][p]);
        }
        assert(a.well_formed());
        assert forall|p: int, d: int| #[trigger] a.supports(p, d) == b.supports(p, d) by {
            assert(a0.supports(p, d) == b.supports(p, d));
        }
        assert(a.support_keys() == a0.support_keys());
        assert forall|x: int, y: int, p: int, d: int|
            0 <= x < a.size()[0] && 0 <= y < a.size()[1] && 0 <= p < n && 0 <= d < DIRECTION_COUNT
                implies #[trigger] a.count(x, y, p, d) == b.count(x, y, p, d) by {
            assert(ga[x]@[y]@[p]@ == gb[x]@[y]@[p]@);
        }
        assert forall|x: int, y: int|
            0 <= x < a.size()[0] && 0 <= y < a.size()[1] implies #[trigger] a.cell_alive(x, y)
            == b.cell_alive(x, y) by {
            assert forall|q: int| 0 <= q < n implies #[trigger] a.alive(x, y, q) == b.alive(x, y, q) by {
                if a.alive(x, y, q) {
                    assert forall|d: int| 0 <= d < DIRECTION_COUNT implies #[trigger] b.count(x, y, q, d) > 0 by {
                        assert(a.count(x, y, q, d) > 0);
                    }
                }
                if b.alive(x, y, q) {
                    assert forall|d: int| 0 <= d < DIRECTION_COUNT implies #[trigger] a.count(x, y, q, d) > 0 by {
                        assert(b.count(x, y, q, d) > 0);
                    }
                }
            }
            if a.cell_alive(x, y) {
                let q = choose|q: int| 0 <= q < n && #[trigger] a.alive(x, y, q);
                assert(b.alive(x, y, q));
            }
            if b.cell_alive(x, y) {
                let q = choose|q: int| 0 <= q < n && #[trigger] b.alive(x, y, q);
                assert(a.alive(x, y, q));
            }
        }
        if b.arc_consistent() {
            MSGrid::lemma_descends_keeps_rules(b, a);
            assert forall|x: int, y: int, p: int, d: int|
                0 <= x < a.size()[0] && 0 <= y < a.size()[1] && 0 <= p < n && 0 <= d < DIRECTION_COUNT
                    && in_grid(step_cell(x, y, d), a.size()) && a.alive(x, y, p)
                    implies #[trigger] a.count(x, y, p, d) == count_where(
                a.supports(p, d),
                a.counted(no_pending(), x, y, d),
            ) by {
                MSGrid::lemma_descends_alive(a, b, x, y, p);
                assert(b.count(x, y, p, d) == count_where(b.supports(p, d), b.counted(no_pending(), x, y, d)));
                let sq = b.supports(p, d);
                let c = step_cell(x, y, d);
                assert forall|i: int| 0 <= i < sq.len() implies b.counted(no_pending(), x, y, d)(#[trigger] sq[i])
                    == a.counted(no_pending(), x, y, d)(sq[i]) by {
                    let q = sq[i] as int;
                    assert forall|e1: int| 0 <= e1 < DIRECTION_COUNT implies #[trigger] a.count(
                        c.0,
                        c.1,
                        q,
                        e1,
                    ) == b.count(c.0, c.1, q, e1) by {
                    }
                    MSGrid::lemma_alive_same_at(b, a, c.0, c.1, q);
                    MSGrid::lemma_stillborn_same(b, a, q);
                }
                lemma_count_where_same(sq, b.counted(no_pending(), x, y, d), a.counted(no_pending(), x, y, d));
            }
        }
    }

    /// Whether every cell still has a possible pattern.
    pub fn every_cell_alive(&self) -> (r: bool)
        requires
            self.well_formed(),
        ensures
            r == self.all_cells_alive(),
    {
        let mut x: usize = 0;
        while x < self.grid_size[0]
            invariant
                self.well_formed(),
                x <= self.size()[0],
                forall|x1: int, y1: int|
                    0 <= x1 < x && 0 <= y1 < self.size()[1] ==> #[trigger] self.cell_alive(x1, y1),
            decreases self.size()[0] - x,
        {
            let mut y: usize = 0;
            while y < self.grid_size[1]
                invariant
                    self.well_formed(),
                    x < self.size()[0],
                    y <= self.size()[1],
                    forall|x1: int, y1: int|
                        (0 <= x1 < x && 0 <= y1 < self.size()[1]) || (x1 == x && 0 <= y1 < y)
                            ==> #[trigger] self.cell_alive(x1, y1),
                decreases self.size()[1] - y,
            {
                if !self.any_alive(x, y) {
                    return false;
                }
                y += 1;
            }
            x += 1;
        }
        true
    }

    /// Every cell is collapsed to a single pattern.
    pub open spec fn all_cells_collapsed(&self) -> bool {
        forall|x: int, y: int|
            0 <= x < self.size()[0] && 0 <= y < self.size()[1] ==> #[trigger] self.cell_collapsed(x, y)
    }

    /// Cell `[x][y]` lies in a subset that `collapse_grid` works on before
    /// subset `[kx][ky]`: subsets go column of subsets by column of subsets.
    pub open spec fn subset_before(x: int, y: int, kx: int, ky: int) -> bool {
        ||| x / (SUBSET_SIZE as int) < kx
        ||| x / (SUBSET_SIZE as int) == kx && y / (SUBSET_SIZE as int) < ky
    }

    /// Every cell of every subset before subset `[kx][ky]` is collapsed.
    pub open spec fn collapsed_before(&self, kx: int, ky: int) -> bool {
        forall|x: int, y: int|
            0 <= x < self.size()[0] && 0 <= y < self.size()[1] && MSGrid::subset_before(x, y, kx, ky)
                ==> #[trigger] self.cell_collapsed(x, y)
    }

    /// Some cell of the grid in subset `[kx][ky]` is not collapsed.
    pub open spec fn subset_unfinished(&self, kx: int, ky: int) -> bool {
        exists|x: int, y: int|
            0 <= x < self.size()[0] && 0 <= y < self.size()[1] && x / (SUBSET_SIZE as int) == kx && y / (
            SUBSET_SIZE as int) == ky && !#[trigger] self.cell_collapsed(x, y)
    }

    /// Two grids with the same counts have the same collapsed cells.
    proof fn lemma_same_counts_collapsed(a: &MSGrid, b: &MSGrid, x: int, y: int)
        requires
            a.values() == b.values(),
            forall|x1: int, y1: int, p: int, d: int|
                0 <= x1 < a.size()[0] && 0 <= y1 < a.size()[1] && 0 <= p < a.values().len() && 0 <= d < DIRECTION_COUNT
                    ==> #[trigger] a.count(x1, y1, p, d) == b.count(x1, y1, p, d),
            0 <= x < a.size()[0],
            0 <= y < a.size()[1],
        ensures
            a.cell_collapsed(x, y) == b.cell_collapsed(x, y),
    {
        assert forall|p: int| 0 <= p < a.values().len() implies #[trigger] a.alive(x, y, p) == b.alive(x, y, p) by {
            if a.alive(x, y, p) {
                assert forall|d: int| 0 <= d < DIRECTION_COUNT implies #[trigger] b.count(x, y, p, d) > 0 by {
                    assert(a.count(x, y, p, d) > 0);
                }
            }
            if b.alive(x, y, p) {
                assert forall|d: int| 0 <= d < DIRECTION_COUNT implies #[trigger] a.count(x, y, p, d) > 0 by {
                    assert(b.count(x, y, p, d) > 0);
                }
            }
        }
        if a.cell_collapsed(x, y) {
            let p = choose|p: int| #[trigger] a.collapsed_to(x, y, p);
            assert forall|q: int| 0 <= q < b.values().len() && q != p implies !#[trigger] b.alive(x, y, q) by {
                assert(!a.alive(x, y, q));
            }
            assert(b.collapsed_to(x, y, p));
        }
        if b.cell_collapsed(x, y) {
            let p = choose|p: int| #[trigger] b.collapsed_to(x, y, p);
            assert forall|q: int| 0 <= q < a.values().len() && q != p implies !#[trigger] a.alive(x, y, q) by {
                assert(!b.alive(x, y, q));
            }
            assert(a.collapsed_to(x, y, p));
        }
    }

    /// A collapsed cell stays collapsed, to the same pattern, in a grid that
    /// descends from it and keeps every cell alive.
    pub proof fn lemma_collapsed_kept(a: &MSGrid, b: &MSGrid)
        requires
            a.descends_from(b),
            a.all_cells_alive(),
        ensures
            forall|x: int, y: int|
                0 <= x < a.size()[0] && 0 <= y < a.size()[1] && #[trigger] b.cell_collapsed(x, y)
                    ==> a.cell_collapsed(x, y),
    {
        assert forall|x: int, y: int|
            0 <= x < a.size()[0] && 0 <= y < a.size()[1] && #[trigger] b.cell_collapsed(x, y) implies a.cell_collapsed(x, y) by {
            let p = choose|p: int| #[trigger] b.collapsed_to(x, y, p);
            assert(a.cell_alive(x, y));
            assert forall|r: int| 0 <= r < a.values().len() && r != p implies !#[trigger] a.alive(x, y, r) by {
                if a.alive(x, y, r) {
                    assert forall|d: int| 0 <= d < DIRECTION_COUNT implies #[trigger] b.count(x, y, r, d) > 0 by {
                        assert(a.count(x, y, r, d) > 0);
                    }
                    assert(b.alive(x, y, r));
                }
            }
            let q = choose|q: int| 0 <= q < a.values().len() && #[trigger] a.alive(x, y, q);
            assert(q == p);
            assert(a.collapsed_to(x, y, p));
        }
    }

    /// Whether every cell is collapsed to a single pattern.
    pub fn is_fully_collapsed(&self) -> (r: bool)
        requires
            self.well_formed(),
        ensures
            r == self.all_cells_collapsed(),
    {
        let mut x: usize = 0;
        while x < self.grid_size[0]
            invariant
                self.well_formed(),
                x <= self.size()[0],
                forall|x1: int, y1: int|
                    0 <= x1 < x && 0 <= y1 < self.size()[1] ==> #[trigger] self.cell_collapsed(x1, y1),
            decreases self.size()[0] - x,
        {
            let mut y: usize = 0;
            while y < self.grid_size[1]
                invariant
                    self.well_formed(),
                    x < self.size()[0],
                    y <= self.size()[1],
                    forall|x1: int, y1: int|
                        (0 <= x1 < x && 0 <= y1 < self.size()[1]) || (x1 == x && 0 <= y1 < y)
                            ==> #[trigger] self.cell_collapsed(x1, y1),
                decreases self.size()[1] - y,
            {
                let states = self.alive_patterns(x, y);
                if states.len() != 1 {
                    proof {
                        if self.cell_collapsed(x as int, y as int) {
                            let p = choose|p: int| #[trigger] self.collapsed_to(x as int, y as int, p);
                            assert(states@.contains(p as usize));
                            let i = choose|i: int| 0 <= i < states.len() && states@[i] == p as usize;
                            if states.len() > 1 {
                                let j = if i == 0 { 1int } else { 0int };
                                assert(self.alive(x as int, y as int, states@[j] as int));
                            }
                        }
                    }
                    return false;
                }
                proof {
                    let p = states@[0] as int;
                    assert(states@.contains(p as usize));
                    assert forall|q: int| 0 <= q < self.values().len() && q != p implies !#[trigger] self.alive(
                        x as int,
                        y as int,
                        q,
                    ) by {
                        if self.alive(x as int, y as int, q) {
                            assert(states@.contains(q as usize));
                        }
                    }
                    assert(self.collapsed_to(x as int, y as int, p));
                }
                y += 1;
            }
            x += 1;
        }
        true
    }

    /// Collapses the grid subset by subset, in squares of `SUBSET_SIZE`
    /// cells, column of subsets by column of subsets. A subset that fails is
    /// rolled back to how it was before and tried again; after twenty
    /// failures on one subset the grid is left as it was before that subset
    /// and the work stops.
    pub fn collapse_grid(&mut self)
        requires
            old(self).well_formed(),
            old(self).all_cells_alive(),
            old(self).arc_consistent(),
        ensures
            final(self).well_formed(),
            final(self).descends_from(&*old(self)),
            final(self).all_cells_alive(),
            final(self).arc_consistent(),
            final(self).all_cells_collapsed() || exists|kx: int, ky: int|
                0 <= kx <= old(self).size()[0] / SUBSET_SIZE && 0 <= ky <= old(self).size()[1] / SUBSET_SIZE
                    && #[trigger] final(self).collapsed_before(kx, ky) && final(self).subset_unfinished(kx, ky),
    {
        let ghost start = *self;
        let gs0 = self.grid_size[0];
        let gs1 = self.grid_size[1];
        let mut x: usize = 0;
        while x <= gs0 / SUBSET_SIZE
            invariant
                self.well_formed(),
                start == *old(self),
                self.descends_from(&start),
                self.all_cells_alive(),
                self.arc_consistent(),
                gs0 == self.size()[0],
                gs1 == self.size()[1],
                x <= gs0 / SUBSET_SIZE + 1,
                self.collapsed_before(x as int, 0),
            decreases gs0 / SUBSET_SIZE + 1 - x,
        {
            let mut y: usize = 0;
            while y <= gs1 / SUBSET_SIZE
                invariant
                    self.well_formed(),
                    start == *old(self),
                    self.descends_from(&start),
                    self.all_cells_alive(),
                    self.arc_consistent(),
                    gs0 == self.size()[0],
                    gs1 == self.size()[1],
                    x <= gs0 / SUBSET_SIZE,
                    y <= gs1 / SUBSET_SIZE + 1,
                    self.collapsed_before(x as int, y as int),
                decreases gs1 / SUBSET_SIZE + 1 - y,
            {
                let offset = [x * SUBSET_SIZE, y * SUBSET_SIZE];
                let rest_x = gs0 - x * SUBSET_SIZE;
                let rest_y = gs1 - y * SUBSET_SIZE;
                let size = [
                    if SUBSET_SIZE < rest_x { SUBSET_SIZE } else { rest_x },
                    if SUBSET_SIZE < rest_y { SUBSET_SIZE } else { rest_y },
                ];
                let ghost before = *self;
                let before_state = copy_counts(&self.support_count_grid);
                let mut result = false;
                let mut fail_count: usize = 0;
                while !result
                    invariant
                        self.well_formed(),
                        start == *old(self),
                        before.descends_from(&start),
                        self.descends_from(&before),
                        self.all_cells_alive(),
                        self.arc_consistent(),
                        before.well_formed(),
                        before.all_cells_alive(),
                        before.arc_consistent(),
                        count_view(before_state@) == count_view(before.support_count_grid@),
                        gs0 == self.size()[0],
                        gs1 == self.size()[1],
                        offset[0] + size[0] <= gs0,
                        offset[1] + size[1] <= gs1,
                        fail_count < 20,
                        x <= gs0 / SUBSET_SIZE,
                        y <= gs1 / SUBSET_SIZE,
                        offset[0] == x * SUBSET_SIZE,
                        offset[1] == y * SUBSET_SIZE,
                        size[0] == (if SUBSET_SIZE < gs0 - x * SUBSET_SIZE { SUBSET_SIZE as int } else { gs0 - x * SUBSET_SIZE }),
                        size[1] == (if SUBSET_SIZE < gs1 - y * SUBSET_SIZE { SUBSET_SIZE as int } else { gs1 - y * SUBSET_SIZE }),
                        before.collapsed_before(x as int, y as int),
                        result ==> forall|x1: int, y1: int|
                            offset[0] <= x1 < offset[0] + size[0] && offset[1] <= y1 < offset[1] + size[1]
                                ==> #[trigger] self.cell_collapsed(x1, y1),
                        !result ==> forall|x1: int, y1: int, p: int, d: int|
                            0 <= x1 < gs0 && 0 <= y1 < gs1 && 0 <= p < self.values().len() && 0 <= d < DIRECTION_COUNT
                                ==> #[trigger] self.count(x1, y1, p, d) == before.count(x1, y1, p, d),
                    decreases 20 - fail_count, if result { 0int } else { 1int },
                {
                    let ghost pre = *self;
                    result = self.collapse_subset(offset, size);
                    proof {
                        if result {
                            assert forall|x1: int, y1: int| 0 <= x1 < self.size()[0] && 0 <= y1 < self.size()[1] implies #[trigger] self.cell_alive(x1, y1) by {
                                assert(pre.cell_alive(x1, y1));
                            }
                        }
                    }
                    if !result {
                        fail_count += 1;
                        let ghost failed = *self;
                        self.support_count_grid = copy_counts(&before_state);
                        proof {
                            MSGrid::lemma_descends_trans(&failed, &before, &start);
                            MSGrid::lemma_restored(self, &failed, &before);
                            assert forall|x1: int, y1: int| 0 <= x1 < self.size()[0] && 0 <= y1 < self.size()[1] implies #[trigger] self.cell_alive(x1, y1) by {
                                assert(before.cell_alive(x1, y1));
                            }
                        }
                        if fail_count >= 20 {
                            proof {
                                MSGrid::lemma_descends_trans(self, &before, &start);
                                MSGrid::lemma_collapsed_kept(self, &before);
                                assert forall|x1: int, y1: int|
                                    0 <= x1 < self.size()[0] && 0 <= y1 < self.size()[1]
                                        && MSGrid::subset_before(
                                        x1,
                                        y1,
                                        x as int,
                                        y as int,
                                    ) implies #[trigger] self.cell_collapsed(x1, y1) by {
                                    assert(before.cell_collapsed(x1, y1));
                                }
                                assert(self.collapsed_before(x as int, y as int));
                                let (x1, y1) = choose|x1: int, y1: int|
                                    offset[0] <= x1 < offset[0] + size[0] && offset[1] <= y1 < offset[1] + size[1]
                                        && !#[trigger] pre.cell_collapsed(x1, y1);
                                MSGrid::lemma_same_counts_collapsed(&pre, &before, x1, y1);
                                MSGrid::lemma_same_counts_collapsed(self, &before, x1, y1);
                                assert(x1 / (SUBSET_SIZE as int) == x && y1 / (SUBSET_SIZE as int) == y);
                                assert(self.subset_unfinished(x as int, y as int));
                            }
                            return;
                        }
                    }
                }
                proof {
                    MSGrid::lemma_descends_trans(self, &before, &start);
                    MSGrid::lemma_collapsed_kept(self, &before);
                    assert forall|x1: int, y1: int|
                        0 <= x1 < self.size()[0] && 0 <= y1 < self.size()[1] && MSGrid::subset_before(
                            x1,
                            y1,
                            x as int,
                            y + 1,
                        ) implies #[trigger] self.cell_collapsed(x1, y1) by {
                        if !MSGrid::subset_before(x1, y1, x as int, y as int) {
                            assert(offset[0] <= x1 < offset[0] + size[0]);
                            assert(offset[1] <= y1 < offset[1] + size[1]);
                        } else {
                            assert(before.cell_collapsed(x1, y1));
                        }
                    }
                }
                y += 1;
            }
            proof {
                assert forall|x1: int, y1: int|
                    0 <= x1 < self.size()[0] && 0 <= y1 < self.size()[1] && MSGrid::subset_before(
                        x1,
                        y1,
                        x + 1,
                        0,
                    ) implies #[trigger] self.cell_collapsed(x1, y1) by {
                    assert(MSGrid::subset_before(x1, y1, x as int, y as int));
                }
            }
            x += 1;
        }
        proof {
            assert forall|x1: int, y1: int|
                0 <= x1 < self.size()[0] && 0 <= y1 < self.size()[1] implies #[trigger] self.cell_collapsed(x1, y1) by {
                assert(MSGrid::subset_before(x1, y1, x as int, 0));
            }
        }
    }
}

} // verus!

verus! {

impl MSGrid {
    /// The first pattern from `p` on that is still possible at cell `[x][y]`.
    pub open spec fn first_alive_from(&self, x: int, y: int, p: int) -> int
        decreases self.values().len() - p,
    {
        if p >= self.values().len() {
            p
        } else if self.alive(x, y, p) {
            p
        } else {
            self.first_alive_from(x, y, p + 1)
        }
    }

    /// The tiles shown for cell `[x][y]`: those of its first possible
    /// pattern.
    pub open spec fn cell_tiles(&self, x: int, y: int) -> Seq<Seq<WorldTileType>> {
        self.values()[self.first_alive_from(x, y, 0)].0
    }

    /// The tiles of the first `k` cells of column `x`, stacked top to bottom.
    pub open spec fn stacked_tiles(&self, x: int, k: int) -> Seq<Seq<WorldTileType>>
        decreases k,
    {
        if k <= 1 {
            self.cell_tiles(x, 0)
        } else {
            let above = self.stacked_tiles(x, k - 1);
            Seq::new(above.len(), |i: int| above[i] + self.cell_tiles(x, k - 1)[i])
        }
    }

    /// The tiles of the first `k` columns of cells, placed left to right.
    pub open spec fn placed_tiles(&self, k: int) -> Seq<Seq<WorldTileType>>
        decreases k,
    {
        if k <= 1 {
            self.stacked_tiles(0, self.size()[1] as int)
        } else {
            self.placed_tiles(k - 1) + self.stacked_tiles(k - 1, self.size()[1] as int)
        }
    }

    /// The first possible pattern from `p` on is possible and lies at or
    /// before any possible pattern `q` from `p` on.
    proof fn lemma_first_alive_from(&self, x: int, y: int, p: int, q: int)
        requires
            0 <= p <= q < self.values().len(),
            self.alive(x, y, q),
        ensures
            p <= self.first_alive_from(x, y, p) <= q,
            self.alive(x, y, self.first_alive_from(x, y, p)),
        decreases q - p,
    {
        if !self.alive(x, y, p) {
            self.lemma_first_alive_from(x, y, p + 1, q);
        }
    }

    /// A cell collapsed to pattern `p` shows the tiles of `p`.
    pub proof fn lemma_collapsed_cell_tiles(&self, x: int, y: int, p: int)
        requires
            self.collapsed_to(x, y, p),
        ensures
            self.cell_tiles(x, y) == self.values()[p].0,
    {
        self.lemma_first_alive_from(x, y, 0, p);
        let r = self.first_alive_from(x, y, 0);
        if r != p {
            assert(!self.alive(x, y, r));
        }
    }

    /// The tiles shown for a cell with a possible pattern fill an `s` by `s`
    /// square when every pattern is one.
    proof fn lemma_cell_tiles_shape(&self, x: int, y: int, s: usize)
        requires
            self.well_formed(),
            self.cell_alive(x, y),
            all_square(self.values(), s),
        ensures
            is_rect(self.cell_tiles(x, y), s as int, s as int),
    {
        let q = choose|q: int| 0 <= q < self.values().len() && #[trigger] self.alive(x, y, q);
        self.lemma_first_alive_from(x, y, 0, q);
        let r = self.first_alive_from(x, y, 0);
        assert(self.pattern_collection.patterns@[r].well_formed());
        assert(self.values()[r] == self.pattern_collection.patterns@[r].value());
        assert(self.values()[r].1 == [s, s]);
    }

    /// Column `x` of cells, stacked over its first `k` cells, has `s` columns
    /// of `k * s` tiles, and tile `[i][j]` of cell `[x][y]` stands at
    /// `[i][y * s + j]`.
    pub proof fn lemma_stacked_tiles(&self, x: int, k: int, s: usize)
        requires
            self.well_formed(),
            self.all_cells_alive(),
            0 <= x < self.size()[0],
            1 <= k <= self.size()[1],
            all_square(self.values(), s),
        ensures
            is_rect(self.stacked_tiles(x, k), s as int, k * s),
            forall|y: int, i: int, j: int|
                0 <= y < k && 0 <= i < s && 0 <= j < s ==> self.stacked_tiles(x, k)[i][y * s + j]
                    == #[trigger] self.cell_tiles(x, y)[i][j],
        decreases k,
    {
        assert(self.cell_alive(x, k - 1));
        self.lemma_cell_tiles_shape(x, k - 1, s);
        if k > 1 {
            self.lemma_stacked_tiles(x, k - 1, s);
            let above = self.stacked_tiles(x, k - 1);
            let cell = self.cell_tiles(x, k - 1);
            let st = self.stacked_tiles(x, k);
            assert((k - 1) * s + s == k * s) by (nonlinear_arith);
            assert forall|i: int| 0 <= i < s implies #[trigger] st[i].len() == k * s by {
                assert(st[i] == above[i] + cell[i]);
            }
            assert forall|y: int, i: int, j: int|
                0 <= y < k && 0 <= i < s && 0 <= j < s implies st[i][y * s + j]
                    == #[trigger] self.cell_tiles(x, y)[i][j] by {
                assert(st[i] == above[i] + cell[i]);
                if y < k - 1 {
                    assert(y * s + j < (k - 1) * s) by (nonlinear_arith)
                        requires
                            0 <= y < k - 1,
                            0 <= j < s,
                    ;
                    assert(0 <= y * s + j) by (nonlinear_arith)
                        requires
                            0 <= y,
                            0 <= j,
                            s >= 0,
                    ;
                } else {
                    assert(y * s + j == (k - 1) * s + j);
                }
            }
        } else {
            assert(1 * s == s);
            assert forall|y: int, i: int, j: int|
                0 <= y < k && 0 <= i < s && 0 <= j < s implies self.stacked_tiles(x, k)[i][y * s + j]
                    == #[trigger] self.cell_tiles(x, y)[i][j] by {
                assert(y == 0);
                assert(y * s + j == j);
            }
        }
    }

    /// The first `k` columns of cells, placed left to right, have `k * s`
    /// columns of `size()[1] * s` tiles, and tile `[i][j]` of cell `[x][y]`
    /// stands at `[x * s + i][y * s + j]`.
    pub proof fn lemma_placed_tiles(&self, k: int, s: usize)
        requires
            self.well_formed(),
            self.all_cells_alive(),
            1 <= k <= self.size()[0],
            self.size()[1] >= 1,
            all_square(self.values(), s),
        ensures
            is_rect(self.placed_tiles(k), k * s, self.size()[1] * s),
            forall|x: int, y: int, i: int, j: int|
                0 <= x < k && 0 <= y < self.size()[1] && 0 <= i < s && 0 <= j < s ==> self.placed_tiles(k)[x * s
                    + i][y * s + j] == #[trigger] self.cell_tiles(x, y)[i][j],
        decreases k,
    {
        let h = self.size()[1] as int;
        self.lemma_stacked_tiles(k - 1, h, s);
        let col = self.stacked_tiles(k - 1, h);
        if k > 1 {
            self.lemma_placed_tiles(k - 1, s);
            let left = self.placed_tiles(k - 1);
            let pt = self.placed_tiles(k);
            assert(pt == left + col);
            assert((k - 1) * s + s == k * s) by (nonlinear_arith);
            assert forall|c: int| 0 <= c < k * s implies #[trigger] pt[c].len() == h * s by {
                if c < (k - 1) * s {
                    assert(pt[c] == left[c]);
                } else {
                    assert(pt[c] == col[c - (k - 1) * s]);
                }
            }
            assert forall|x: int, y: int, i: int, j: int|
                0 <= x < k && 0 <= y < h && 0 <= i < s && 0 <= j < s implies pt[x * s + i][y * s + j]
                    == #[trigger] self.cell_tiles(x, y)[i][j] by {
                if x < k - 1 {
                    assert(x * s + i < (k - 1) * s) by (nonlinear_arith)
                        requires
                            0 <= x < k - 1,
                            0 <= i < s,
                    ;
                    assert(0 <= x * s + i) by (nonlinear_arith)
                        requires
                            0 <= x,
                            0 <= i,
                            s >= 0,
                    ;
                    assert(pt[x * s + i] == left[x * s + i]);
                } else {
                    assert(x * s + i == (k - 1) * s + i);
                    assert(pt[x * s + i] == col[i]);
                }
            }
        } else {
            assert(1 * s == s);
            assert forall|x: int, y: int, i: int, j: int|
                0 <= x < k && 0 <= y < h && 0 <= i < s && 0 <= j < s implies self.placed_tiles(k)[x * s + i][y * s
                    + j] == #[trigger] self.cell_tiles(x, y)[i][j] by {
                assert(x == 0);
                assert(x * s + i == i);
            }
        }
    }

    /// The first pattern still possible at cell `[x][y]`.
    fn first_alive(&self, x: usize, y: usize) -> (r: usize)
        requires
            self.well_formed(),
            x < self.size()[0],
            y < self.size()[1],
            self.cell_alive(x as int, y as int),
        ensures
            r == self.first_alive_from(x as int, y as int, 0),
            r < self.values().len(),
    {
        let n = self.pattern_collection.patterns.len();
        let ghost some = choose|q: int| 0 <= q < self.values().len() && #[trigger] self.alive(x as int, y as int, q);
        let mut p: usize = 0;
        while p < n
            invariant
                self.well_formed(),
                x < self.size()[0],
                y < self.size()[1],
                n == self.values().len(),
                0 <= some < n,
                self.alive(x as int, y as int, some),
                p <= some,
                self.first_alive_from(x as int, y as int, 0) == self.first_alive_from(x as int, y as int, p as int),
            decreases n - p,
        {
            if self.is_alive(x, y, p) {
                return p;
            }
            p += 1;
        }
        0
    }

    /// The grid of tiles in which each cell shows its first possible
    /// pattern: the patterns of each column of cells stacked top to bottom,
    /// and the columns placed left to right.
    pub fn to_tile_grid(&self) -> (r: TileGrid)
        requires
            self.well_formed(),
            self.all_cells_alive(),
            self.size()[0] >= 1,
            self.size()[1] >= 1,
            self.values().len() >= 1,
            all_square(self.values(), self.values()[0].1[0]),
            self.values()[0].1[0] >= 1,
            self.size()[0] * self.values()[0].1[0] <= usize::MAX,
            self.size()[1] * self.values()[0].1[0] <= usize::MAX,
        ensures
            r.tiles() == self.placed_tiles(self.size()[0] as int),
            r.grid_size == [
                (self.size()[0] * self.values()[0].1[0]) as usize,
                (self.size()[1] * self.values()[0].1[0]) as usize,
            ],
            r.well_formed(),
            forall|x: int, y: int, i: int, j: int|
                0 <= x < self.size()[0] && 0 <= y < self.size()[1] && 0 <= i < self.values()[0].1[0] && 0 <= j
                    < self.values()[0].1[0] ==> r.tiles()[x * self.values()[0].1[0] + i][y * self.values()[0].1[0]
                    + j] == #[trigger] self.cell_tiles(x, y)[i][j],
            forall|x: int, y: int, p: int, i: int, j: int|
                #![trigger self.collapsed_to(x, y, p), self.values()[p].0[i][j]]
                0 <= x < self.size()[0] && 0 <= y < self.size()[1] && 0 <= i < self.values()[0].1[0] && 0 <= j
                    < self.values()[0].1[0] && self.collapsed_to(x, y, p) ==> r.tiles()[x * self.values()[0].1[0]
                    + i][y * self.values()[0].1[0] + j] == self.values()[p].0[i][j],
    {
        let ghost s = self.values()[0].1[0];
        let mut grid = self.column_grid(0);
        let mut x: usize = 1;
        while x < self.grid_size[0]
            invariant
                self.well_formed(),
                self.all_cells_alive(),
                self.size()[1] >= 1,
                self.values().len() >= 1,
                s == self.values()[0].1[0],
                all_square(self.values(), s),
                s >= 1,
                self.size()[0] * s <= usize::MAX,
                self.size()[1] * s <= usize::MAX,
                1 <= x <= self.size()[0],
                grid.tiles() == self.placed_tiles(x as int),
                grid.grid_size == [(x * s) as usize, (self.size()[1] * s) as usize],
            decreases self.size()[0] - x,
        {
            let column = self.column_grid(x);
            proof {
                assert(x * s + s <= self.size()[0] * s && (x + 1) * s == x * s + s) by (nonlinear_arith)
                    requires
                        x + 1 <= self.size()[0],
                        s >= 1,
                ;
            }
            grid = grid.chain_right(column);
            x += 1;
        }
        proof {
            self.lemma_placed_tiles(self.size()[0] as int, s);
            assert forall|x: int, y: int, p: int, i: int, j: int|
                #![trigger self.collapsed_to(x, y, p), self.values()[p].0[i][j]]
                0 <= x < self.size()[0] && 0 <= y < self.size()[1] && 0 <= i < s && 0 <= j < s
                    && self.collapsed_to(x, y, p) implies grid.tiles()[x * s + i][y * s + j]
                    == self.values()[p].0[i][j] by {
                self.lemma_collapsed_cell_tiles(x, y, p);
                assert(self.cell_tiles(x, y)[i][j] == self.values()[p].0[i][j]);
            }
        }
        grid
    }

    /// The tiles of column `x` of cells, stacked top to bottom.
    fn column_grid(&self, x: usize) -> (r: TileGrid)
        requires
            self.well_formed(),
            self.all_cells_alive(),
            x < self.size()[0],
            self.size()[1] >= 1,
            self.values().len() >= 1,
            all_square(self.values(), self.values()[0].1[0]),
            self.values()[0].1[0] >= 1,
            self.size()[1] * self.values()[0].1[0] <= usize::MAX,
        ensures
            r.tiles() == self.stacked_tiles(x as int, self.size()[1] as int),
            r.tiles().len() == self.values()[0].1[0],
            r.grid_size == [self.values()[0].1[0], (self.size()[1] * self.values()[0].1[0]) as usize],
    {
        let ghost s = self.values()[0].1[0];
        let mut column = self.cell_grid(x, 0);
        let mut y: usize = 1;
        while y < self.grid_size[1]
            invariant
                self.well_formed(),
                self.all_cells_alive(),
                x < self.size()[0],
                self.values().len() >= 1,
                s == self.values()[0].1[0],
                all_square(self.values(), s),
                s >= 1,
                self.size()[1] * s <= usize::MAX,
                1 <= y <= self.size()[1],
                column.tiles() == self.stacked_tiles(x as int, y as int),
                column.tiles().len() == s,
                column.grid_size == [s, (y * s) as usize],
            decreases self.size()[1] - y,
        {
            let cell = self.cell_grid(x, y);
            proof {
                assert(y * s + s <= self.size()[1] * s && (y + 1) * s == y * s + s) by (nonlinear_arith)
                    requires
                        y + 1 <= self.size()[1],
                        s >= 1,
                ;
            }
            column = column.chain_below(cell);
            y += 1;
        }
        column
    }

    /// The tiles of the first pattern still possible at cell `[x][y]`.
    fn cell_grid(&self, x: usize, y: usize) -> (r: TileGrid)
        requires
            self.well_formed(),
            self.all_cells_alive(),
            x < self.size()[0],
            y < self.size()[1],
            self.values().len() >= 1,
            all_square(self.values(), self.values()[0].1[0]),
            self.values()[0].1[0] >= 1,
        ensures
            r.tiles() == self.cell_tiles(x as int, y as int),
            r.tiles().len() == self.values()[0].1[0],
            r.data.len() == self.values()[0].1[0],
            r.grid_size == [self.values()[0].1[0], self.values()[0].1[0]],
    {
        assert(self.cell_alive(x as int, y as int));
        let p = self.first_alive(x, y);
        let pattern = self.pattern_collection.get(p);
        proof {
            assert(self.values()[p as int].1 == [self.values()[0].1[0], self.values()[0].1[0]]);
            assert(self.pattern_collection.patterns@[p as int].well_formed());
            assert(pattern.value() == self.values()[p as int]);
            assert(grid_view(pattern.tiles@)[0] == pattern.tiles@[0]@);
        }
        pattern.get_grid()
    }
}

} // verus!

verus! {

impl MSGrid {
    /// In an arc consistent grid, every possible pattern has, towards each
    /// neighbour in the grid, a pattern that may stand next to it and is
    /// possible in that neighbour or can never be possible anywhere.
    pub proof fn lemma_possible_patterns_supported(&self, x: int, y: int, d: int, p: int)
        requires
            self.well_formed(),
            self.arc_consistent(),
            0 <= x < self.size()[0],
            0 <= y < self.size()[1],
            0 <= d < DIRECTION_COUNT,
            0 <= p < self.values().len(),
            in_grid(step_cell(x, y, d), self.size()),
            self.alive(x, y, p),
        ensures
            exists|s: usize|
                #[trigger] self.supports(p, d).contains(s) && (self.alive(
                    step_cell(x, y, d).0,
                    step_cell(x, y, d).1,
                    s as int,
                ) || self.stillborn(s as int)),
    {
        let sq = self.supports(p, d);
        let f = self.counted(no_pending(), x, y, d);
        assert(self.count(x, y, p, d) > 0);
        assert(self.count(x, y, p, d) == count_where(sq, f));
        lemma_count_where_witness(sq, f);
        let i = choose|i: int| 0 <= i < sq.len() && f(#[trigger] sq[i]);
        assert(sq.contains(sq[i]));
    }

    /// Law of a finished collapse: in an arc consistent grid, when a cell is
    /// collapsed to pattern `p` and its neighbour in direction `d` to pattern
    /// `q`, then `q` may stand next to `p` in that direction, or some pattern
    /// that can never be possible anywhere may.
    pub proof fn lemma_collapsed_neighbours_agree(&self, x: int, y: int, d: int, p: int, q: int)
        requires
            self.well_formed(),
            self.arc_consistent(),
            0 <= x < self.size()[0],
            0 <= y < self.size()[1],
            0 <= d < DIRECTION_COUNT,
            in_grid(step_cell(x, y, d), self.size()),
            self.collapsed_to(x, y, p),
            self.collapsed_to(step_cell(x, y, d).0, step_cell(x, y, d).1, q),
        ensures
            self.supports(p, d).contains(q as usize) || exists|s: usize|
                #[trigger] self.supports(p, d).contains(s) && self.stillborn(s as int),
    {
        let c = step_cell(x, y, d);
        self.lemma_possible_patterns_supported(x, y, d, p);
        let s = choose|s: usize|
            #[trigger] self.supports(p, d).contains(s) && (self.alive(c.0, c.1, s as int) || self.stillborn(
                s as int,
            ));
        if !self.stillborn(s as int) {
            let k = choose|k: int| 0 <= k < self.supports(p, d).len() && self.supports(p, d)[k] == s;
            assert(self.pattern_supports@[p]@[d]@[k] < self.values().len());
            assert(s as int == q);
        }
    }
}

} // verus!
