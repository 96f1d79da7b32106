use vstd::prelude::*;

use crate::world::grid::{
    cut_rect, flipped_x, grid_view, is_rect, lemma_flips_involutive, lemma_grid_ext, lemma_rotation_four_times,
    lemma_transforms_rect, rotated, window,
};
use crate::world::wfc::pattern_data::PatternData;
use crate::world::wfc::tile_compare::{grids_equal, sorted_positions};
use crate::world::wfc::tile_order::{grid_order, is_sorting, lemma_grid_order};
use vstd::relations::injective_on;
use vstd::set_lib::{lemma_int_range, lemma_len_subset, lemma_map_size, lemma_subset_equality, set_int_range};
use crate::world::tile_grid::{filled_grid, filled_rows, resized_grid, resized_rows};
use crate::world::world_tile_type::WorldTileType;

verus! {

/// A rectangle of tiles, stored column by column: `data[x][y]`.
#[derive(Debug)]
pub struct TileGrid {
    pub data: Vec<Vec<WorldTileType>>,
    pub grid_size: [usize; 2],
}

impl TileGrid {
    /// The tiles of the grid.
    pub open spec fn tiles(&self) -> Seq<Seq<WorldTileType>> {
        grid_view(self.data@)
    }

    /// The grid holds `grid_size[0]` columns of `grid_size[1]` tiles.
    pub open spec fn well_formed(&self) -> bool {
        is_rect(self.tiles(), self.grid_size[0] as int, self.grid_size[1] as int)
    }

    pub fn new_filled(tile_type: WorldTileType, grid_size: [usize; 2]) -> (r: Self)
        ensures
            r.grid_size == grid_size,
            r.tiles() == filled_grid(tile_type, grid_size[0] as int, grid_size[1] as int),
            r.well_formed(),
    {
        TileGrid { grid_size, data: filled_rows(tile_type, grid_size[0], grid_size[1]) }
    }

    pub fn set(&mut self, x: usize, y: usize, tile_type: WorldTileType)
        requires
            x < old(self).data.len(),
            y < old(self).data@[x as int].len(),
        ensures
            final(self).grid_size == old(self).grid_size,
            final(self).tiles() == old(self).tiles().update(
                x as int,
                old(self).tiles()[x as int].update(y as int, tile_type),
            ),
    {
        self.data[x][y] = tile_type;
        assert(self.tiles() =~= old(self).tiles().update(
            x as int,
            old(self).tiles()[x as int].update(y as int, tile_type),
        ));
    }

    pub fn get(&self, x: usize, y: usize) -> (r: WorldTileType)
        requires
            x < self.data.len(),
            y < self.data@[x as int].len(),
        ensures
            r == self.tiles()[x as int][y as int],
    {
        self.data[x][y]
    }

    /// Cuts or pads every column with water to `new_size[1]` tiles, then cuts
    /// or pads the grid with water columns to `new_size[0]` columns.
    pub fn resize(&mut self, new_size: [usize; 2])
        ensures
            final(self).grid_size == new_size,
            final(self).tiles() == resized_grid(
                old(self).tiles(),
                new_size[0] as int,
                new_size[1] as int,
                WorldTileType::Water,
            ),
    {
        self.grid_size = new_size;
        self.data = resized_rows(&self.data, new_size[0], new_size[1], WorldTileType::Water);
    }
}


/// The tiles and size of a pattern.
pub type PatternShape = (Seq<Seq<WorldTileType>>, [usize; 2]);

/// A pattern turned a quarter.
pub open spec fn turned(v: PatternShape) -> PatternShape {
    (rotated(v.0, v.1[0] as int, v.1[1] as int), [v.1[1], v.1[0]])
}

/// A pattern mirrored along its first axis.
pub open spec fn mirrored(v: PatternShape) -> PatternShape {
    (flipped_x(v.0, v.1[0] as int, v.1[1] as int), v.1)
}

/// The eight patterns made of the `px` by `py` window of `g` at `[x][y]`:
/// the mirror images of the window turned zero, two, one and three
/// quarters, then those four turns themselves.
pub open spec fn window_variants(g: Seq<Seq<WorldTileType>>, x: int, y: int, px: usize, py: usize) -> Seq<PatternShape> {
    let p: PatternShape = (window(g, x, y, px as int, py as int), [px, py]);
    let r1 = turned(p);
    let r2 = turned(r1);
    let r3 = turned(r2);
    seq![mirrored(p), mirrored(r2), mirrored(r1), mirrored(r3), p, r2, r1, r3]
}

/// The variants of the windows at `[x][y]` for `y` below `h`.
pub open spec fn column_variants(g: Seq<Seq<WorldTileType>>, x: int, h: int, px: usize, py: usize) -> Seq<PatternShape>
    decreases h,
{
    if h <= 0 {
        Seq::empty()
    } else {
        column_variants(g, x, h - 1, px, py) + window_variants(g, x, h - 1, px, py)
    }
}

/// The variants of the windows at `[x][y]` for `x` below `w` and `y` below
/// `h`, `x` before `y`.
pub open spec fn all_variants(g: Seq<Seq<WorldTileType>>, w: int, h: int, px: usize, py: usize) -> Seq<PatternShape>
    decreases w,
{
    if w <= 0 {
        Seq::empty()
    } else {
        all_variants(g, w - 1, h, px, py) + column_variants(g, w - 1, h, px, py)
    }
}

/// Runs of equal tiles in `s`, each as its tiles, the size of its first
/// pattern and its length.
pub open spec fn runs(s: Seq<PatternShape>) -> Seq<(Seq<Seq<WorldTileType>>, [usize; 2], nat)>
    decreases s.len(),
{
    if s.len() == 0 {
        Seq::empty()
    } else {
        let r = runs(s.drop_last());
        let e = s.last();
        if r.len() > 0 && r.last().0 == e.0 {
            r.update(r.len() - 1, (r.last().0, r.last().1, r.last().2 + 1))
        } else {
            r.push((e.0, e.1, 1nat))
        }
    }
}

/// The runs have lengths of at least one and at most the length of `s`.
pub proof fn lemma_runs_counts(s: Seq<PatternShape>)
    ensures
        forall|k: int| 0 <= k < runs(s).len() ==> 1 <= (#[trigger] runs(s)[k]).2 <= s.len(),
        s.len() > 0 ==> runs(s).len() > 0,
    decreases s.len(),
{
    if s.len() > 0 {
        lemma_runs_counts(s.drop_last());
        let r = runs(s.drop_last());
        let e = s.last();
        if r.len() > 0 && r.last().0 == e.0 {
            let u = r.update(r.len() - 1, (r.last().0, r.last().1, r.last().2 + 1));
            assert(runs(s) == u);
            assert forall|k: int| 0 <= k < u.len() implies 1 <= (#[trigger] u[k]).2 <= s.len() by {
                if k < r.len() - 1 {
                    assert(u[k] == r[k]);
                }
            }
        } else {
            let u = r.push((e.0, e.1, 1nat));
            assert(runs(s) == u);
            assert forall|k: int| 0 <= k < u.len() implies 1 <= (#[trigger] u[k]).2 <= s.len() by {
                if k < r.len() {
                    assert(u[k] == r[k]);
                }
            }
        }
    }
}

/// The tiles of each pattern.
pub open spec fn shape_tiles(s: Seq<PatternShape>) -> Seq<Seq<Seq<WorldTileType>>> {
    s.map_values(|v: PatternShape| v.0)
}

/// The patterns of `s` in the order `order` gives.
pub open spec fn in_order(s: Seq<PatternShape>, order: Seq<usize>) -> Seq<PatternShape> {
    order.map_values(|i: usize| s[i as int])
}

/// Pattern `k` of `r` has the tiles, size and count of run `k`.
pub open spec fn describes(r: Seq<PatternData>, g: Seq<(Seq<Seq<WorldTileType>>, [usize; 2], nat)>) -> bool {
    &&& r.len() == g.len()
    &&& forall|k: int|
        0 <= k < r.len() ==> (#[trigger] r[k]).tile_view() == g[k].0 && r[k].size() == g[k].1 && r[k].count()
            == g[k].2
}

/// The sum of the lengths of some runs.
pub open spec fn run_total(r: Seq<(Seq<Seq<WorldTileType>>, [usize; 2], nat)>) -> int
    decreases r.len(),
{
    if r.len() == 0 {
        0
    } else {
        run_total(r.drop_last()) + r.last().2
    }
}

/// The sum of the counts of some patterns.
pub open spec fn count_total(r: Seq<PatternData>) -> int
    decreases r.len(),
{
    if r.len() == 0 {
        0
    } else {
        count_total(r.drop_last()) + r.last().count()
    }
}

/// Patterns that describe some runs count as many as the runs are long.
pub proof fn lemma_count_total(r: Seq<PatternData>, g: Seq<(Seq<Seq<WorldTileType>>, [usize; 2], nat)>)
    requires
        describes(r, g),
    ensures
        count_total(r) == run_total(g),
    decreases r.len(),
{
    if r.len() > 0 {
        assert(describes(r.drop_last(), g.drop_last())) by {
            assert forall|k: int| 0 <= k < r.len() - 1 implies (#[trigger] r.drop_last()[k]).tile_view() == g.drop_last()[k].0
                && r.drop_last()[k].size() == g.drop_last()[k].1 && r.drop_last()[k].count() == g.drop_last()[k].2 by {
                assert(r.drop_last()[k] == r[k]);
                assert(g.drop_last()[k] == g[k]);
            }
        }
        lemma_count_total(r.drop_last(), g.drop_last());
        assert(r.last().count() == g.last().2);
    }
}

/// The patterns of `s` come in ascending order of tiles.
pub open spec fn ascending(s: Seq<PatternShape>) -> bool {
    forall|i: int, j: int| 0 <= i < j < s.len() ==> grid_order(#[trigger] s[i].0, #[trigger] s[j].0) <= 0
}

/// The runs of patterns in ascending order of tiles come in strictly
/// ascending order of tiles, the last with the tiles of the last pattern,
/// and their lengths add up to the number of patterns.
pub proof fn lemma_runs_ascending(s: Seq<PatternShape>)
    requires
        ascending(s),
    ensures
        forall|k: int| 0 <= k < runs(s).len() - 1 ==> grid_order(#[trigger] runs(s)[k].0, runs(s)[k + 1].0) < 0,
        s.len() > 0 ==> runs(s).len() > 0 && runs(s).last().0 == s.last().0,
        run_total(runs(s)) == s.len(),
    decreases s.len(),
{
    if s.len() > 0 {
        let s1 = s.drop_last();
        assert(ascending(s1)) by {
            assert forall|i: int, j: int| 0 <= i < j < s1.len() implies grid_order(#[trigger] s1[i].0, #[trigger] s1[j].0) <= 0 by {
                assert(s1[i] == s[i] && s1[j] == s[j]);
            }
        }
        lemma_runs_ascending(s1);
        let r = runs(s1);
        let e = s.last();
        if r.len() > 0 && r.last().0 == e.0 {
            let u = r.update(r.len() - 1, (r.last().0, r.last().1, r.last().2 + 1));
            assert(runs(s) == u);
            assert(u.drop_last() =~= r.drop_last());
            assert forall|k: int| 0 <= k < u.len() - 1 implies grid_order(#[trigger] u[k].0, u[k + 1].0) < 0 by {
                assert(u[k] == r[k]);
                assert(u[k + 1].0 == r[k + 1].0);
            }
        } else {
            let u = r.push((e.0, e.1, 1nat));
            assert(runs(s) == u);
            assert(u.drop_last() == r);
            if r.len() > 0 {
                assert(r.last().0 == s1.last().0);
                assert(s1.last() == s[s.len() - 2]);
                assert(grid_order(s[s.len() - 2].0, s[s.len() - 1].0) <= 0);
                lemma_grid_order(r.last().0, e.0, e.0);
            }
            assert forall|k: int| 0 <= k < u.len() - 1 implies grid_order(#[trigger] u[k].0, u[k + 1].0) < 0 by {
                assert(u[k] == r[k]);
                if k + 1 < r.len() {
                    assert(u[k + 1] == r[k + 1]);
                }
            }
        }
    }
}

impl TileGrid {
    /// The variants of every window with its first cell strictly before the
    /// last possible one along each axis.
    pub open spec fn window_shapes(&self, px: usize, py: usize) -> Seq<PatternShape> {
        all_variants(self.tiles(), self.grid_size[0] - px, self.grid_size[1] - py, px, py)
    }

    /// The patterns of the grid: every `P_SIZE_X` by `P_SIZE_Y` window whose
    /// first cell lies strictly before the last possible one along each
    /// axis, in all eight turns and mirror images, sorted by their tiles,
    /// with equal tiles counted once and how often they occurred.
    pub fn get_patterns<const P_SIZE_X: usize, const P_SIZE_Y: usize>(&self) -> (r: Vec<PatternData>)
        requires
            self.well_formed(),
            P_SIZE_X <= self.grid_size[0],
            P_SIZE_Y <= self.grid_size[1],
            8 * (self.grid_size[0] - P_SIZE_X) * (self.grid_size[1] - P_SIZE_Y) <= u32::MAX,
        ensures
            exists|order: Seq<usize>|
                #[trigger] is_sorting(order, shape_tiles(self.window_shapes(P_SIZE_X, P_SIZE_Y))) && describes(
                    r@,
                    runs(in_order(self.window_shapes(P_SIZE_X, P_SIZE_Y), order)),
                ),
            forall|k: int| 0 <= k < r.len() - 1 ==> grid_order(#[trigger] r@[k].tile_view(), r@[k + 1].tile_view()) < 0,
            forall|k: int| 0 <= k < r.len() ==> #[trigger] r@[k].count() >= 1,
            count_total(r@) == 8 * (self.grid_size[0] - P_SIZE_X) * (self.grid_size[1] - P_SIZE_Y),
            counts_of(r@, self.window_shapes(P_SIZE_X, P_SIZE_Y)),
            turns_counted_alike(r@),
    {
        let w = self.grid_size[0] - P_SIZE_X;
        let h = self.grid_size[1] - P_SIZE_Y;
        let ghost g = self.tiles();
        let mut all: Vec<PatternData> = Vec::new();
        let mut x: usize = 0;
        assert(8 * x * h == 0) by (nonlinear_arith)
            requires
                x == 0,
        ;
        while x < w
            invariant
                self.well_formed(),
                g == self.tiles(),
                w == self.grid_size[0] - P_SIZE_X,
                h == self.grid_size[1] - P_SIZE_Y,
                x <= w,
                all@.map_values(|p: PatternData| (p.tile_view(), p.size())) == all_variants(g, x as int, h as int, P_SIZE_X, P_SIZE_Y),
                all.len() == 8 * x * h,
            decreases w - x,
        {
            let mut y: usize = 0;
            let ghost front = all@.map_values(|p: PatternData| (p.tile_view(), p.size()));
            while y < h
                invariant
                    self.well_formed(),
                    g == self.tiles(),
                    w == self.grid_size[0] - P_SIZE_X,
                    h == self.grid_size[1] - P_SIZE_Y,
                    x < w,
                    y <= h,
                    front == all_variants(g, x as int, h as int, P_SIZE_X, P_SIZE_Y),
                    all@.map_values(|p: PatternData| (p.tile_view(), p.size())) == front + column_variants(g, x as int, y as int, P_SIZE_X, P_SIZE_Y),
                    all.len() == 8 * x * h + 8 * y,
                decreases h - y,
            {
                proof {
                    assert forall|i: int| x <= i < x + P_SIZE_X implies y + P_SIZE_Y <= #[trigger] self.data@[i].len() by {
                        assert(g[i] == self.data@[i]@);
                    }
                }
                let tiles = cut_rect(&self.data, x, y, P_SIZE_X, P_SIZE_Y);
                let pattern = PatternData::new(tiles, [P_SIZE_X, P_SIZE_Y], 1);
                let pattern_rot1 = pattern.rotation();
                let pattern_rot2 = pattern_rot1.rotation();
                let pattern_rot3 = pattern_rot2.rotation();
                let ghost before = all@;
                all.push(pattern.flip_x());
                all.push(pattern_rot2.flip_x());
                all.push(pattern_rot1.flip_x());
                all.push(pattern_rot3.flip_x());
                all.push(pattern);
                all.push(pattern_rot2);
                all.push(pattern_rot1);
                all.push(pattern_rot3);
                proof {
                    let m = |p: PatternData| (p.tile_view(), p.size());
                    assert(all@.map_values(m) =~= before.map_values(m) + window_variants(g, x as int, y as int, P_SIZE_X, P_SIZE_Y));
                    assert(column_variants(g, x as int, y + 1, P_SIZE_X, P_SIZE_Y) == column_variants(g, x as int, y as int, P_SIZE_X, P_SIZE_Y) + window_variants(g, x as int, y as int, P_SIZE_X, P_SIZE_Y));
                    assert(all@.map_values(m) =~= front + column_variants(g, x as int, y + 1, P_SIZE_X, P_SIZE_Y));
                    assert(8 * x * h + 8 * y + 8 == 8 * x * h + 8 * (y + 1));
                }
                y += 1;
            }
            proof {
                assert(8 * x * h + 8 * h == 8 * (x + 1) * h) by (nonlinear_arith);
            }
            x += 1;
        }
        let ghost shapes = all@.map_values(|p: PatternData| (p.tile_view(), p.size()));
        let order = sorted_positions(&all);
        let mut acc: Vec<PatternData> = Vec::new();
        let mut i: usize = 0;
        proof {
            assert(all@.map_values(|p: PatternData| p.tile_view()) =~= shape_tiles(shapes));
        }
        while i < order.len()
            invariant
                shapes == all@.map_values(|p: PatternData| (p.tile_view(), p.size())),
                is_sorting(order@, all@.map_values(|p: PatternData| p.tile_view())),
                all.len() <= u32::MAX,
                i <= order.len(),
                describes(acc@, runs(in_order(shapes, order@.take(i as int)))),
            decreases order.len() - i,
        {
            let ghost prev = in_order(shapes, order@.take(i as int));
            let ghost next = in_order(shapes, order@.take(i + 1));
            proof {
                assert(next.drop_last() =~= prev);
                lemma_runs_counts(prev);
                assert(order@[i as int] < all.len());
            }
            let current = &all[order[i]];
            let starts_run = if acc.len() == 0 {
                true
            } else {
                let last = acc.len() - 1;
                !grids_equal(&current.tiles, &acc[last].tiles)
            };
            proof {
                let r = runs(prev);
                assert(next.last() == (current.tile_view(), current.size()));
                assert(acc.len() > 0 ==> r.last() == runs(prev)[acc.len() - 1]);
            }
            if starts_run {
                acc.push(PatternData::new(crate::world::grid::copy_grid(&current.tiles), current.size, 1));
            } else {
                let mut last = acc.pop().unwrap();
                last.occurrence_count = last.occurrence_count + 1;
                acc.push(last);
            }
            proof {
                assert(describes(acc@, runs(next)));
            }
            i += 1;
        }
        proof {
            assert(order@.take(order.len() as int) =~= order@);
            assert(shapes == self.window_shapes(P_SIZE_X, P_SIZE_Y));
            assert(is_sorting(order@, shape_tiles(self.window_shapes(P_SIZE_X, P_SIZE_Y))));
            let sorted = in_order(shapes, order@);
            assert(ascending(sorted)) by {
                assert forall|a: int, b: int| 0 <= a < b < sorted.len() implies grid_order(#[trigger] sorted[a].0, #[trigger] sorted[b].0) <= 0 by {
                    assert(shape_tiles(shapes)[order@[a] as int] == sorted[a].0);
                    assert(shape_tiles(shapes)[order@[b] as int] == sorted[b].0);
                }
            }
            lemma_runs_ascending(sorted);
            lemma_runs_counts(sorted);
            lemma_count_total(acc@, runs(sorted));
            assert(counts_of(acc@, shapes) && turns_counted_alike(acc@)) by {
                lemma_runs_in_order(shapes, order@, acc@);
                self.lemma_window_shapes_fitting_and_closed(P_SIZE_X, P_SIZE_Y);
                lemma_patterns_closed(shapes, P_SIZE_X, P_SIZE_Y, acc@);
            }
        }
        acc
    }
}


/// The tiles of a pattern fill a rectangle of its size.
pub open spec fn shape_rect(v: PatternShape) -> bool {
    is_rect(v.0, v.1[0] as int, v.1[1] as int)
}

/// How often `v` occurs in `s`.
pub open spec fn occurrences(s: Seq<PatternShape>, v: PatternShape) -> nat
    decreases s.len(),
{
    if s.len() == 0 {
        0
    } else {
        occurrences(s.drop_last(), v) + if s.last() == v {
            1nat
        } else {
            0nat
        }
    }
}

/// Occurrences add up over a concatenation.
pub proof fn lemma_occurrences_concat(a: Seq<PatternShape>, b: Seq<PatternShape>, v: PatternShape)
    ensures
        occurrences(a + b, v) == occurrences(a, v) + occurrences(b, v),
    decreases b.len(),
{
    if b.len() > 0 {
        assert((a + b).drop_last() =~= a + b.drop_last());
        lemma_occurrences_concat(a, b.drop_last(), v);
    } else {
        assert(a + b =~= a);
    }
}

/// Turning and mirroring keep the tiles a rectangle of the shape's size.
proof fn lemma_shape_turns_rect(v: PatternShape)
    requires
        shape_rect(v),
    ensures
        shape_rect(turned(v)),
        shape_rect(mirrored(v)),
{
    lemma_transforms_rect(v.0, v.1[0] as int, v.1[1] as int);
}

/// Four quarter turns and two mirrorings give a pattern back, and turning
/// the mirror image is mirroring the pattern turned three quarters.
proof fn lemma_shape_turn_laws(v: PatternShape)
    requires
        shape_rect(v),
    ensures
        turned(turned(turned(turned(v)))) == v,
        mirrored(mirrored(v)) == v,
        turned(mirrored(v)) == mirrored(turned(turned(turned(v)))),
{
    let g = v.0;
    let w = v.1[0] as int;
    let h = v.1[1] as int;
    lemma_rotation_four_times(g, w, h);
    let t4 = turned(turned(turned(turned(v))));
    assert(t4.1 =~= v.1);
    lemma_flips_involutive(g, w, h);
    assert(mirrored(mirrored(v)).1 =~= v.1);
    let a = turned(mirrored(v));
    let b = mirrored(turned(turned(turned(v))));
    lemma_shape_turns_rect(v);
    lemma_shape_turns_rect(mirrored(v));
    lemma_shape_turns_rect(turned(v));
    lemma_shape_turns_rect(turned(turned(v)));
    lemma_shape_turns_rect(turned(turned(turned(v))));
    assert(a.1 =~= b.1);
    assert forall|x: int, y: int| 0 <= x < h && 0 <= y < w implies a.0[x][y] == b.0[x][y] by {
        assert(a.0[x][y] == g[y][x]);
        assert(b.0[x][y] == g[y][x]);
    }
    lemma_grid_ext(a.0, b.0, h, w);
}

/// Turning and mirroring tell apart patterns whose tiles fill their size.
proof fn lemma_shape_turns_injective(a: PatternShape, b: PatternShape)
    requires
        shape_rect(a),
        shape_rect(b),
    ensures
        turned(a) == turned(b) ==> a == b,
        mirrored(a) == mirrored(b) ==> a == b,
{
    lemma_shape_turn_laws(a);
    lemma_shape_turn_laws(b);
}

/// The eight patterns of a window of the grid are closed under turning and
/// mirroring: every pattern occurs among them as often as its quarter turn
/// and as its mirror image, and the window itself occurs among them.
pub proof fn lemma_window_variants_closed(
    g: Seq<Seq<WorldTileType>>,
    gw: int,
    gh: int,
    x: int,
    y: int,
    px: usize,
    py: usize,
    v: PatternShape,
)
    requires
        is_rect(g, gw, gh),
        0 <= x,
        x + px <= gw,
        0 <= y,
        y + py <= gh,
        shape_rect(v),
    ensures
        occurrences(window_variants(g, x, y, px, py), turned(v)) == occurrences(window_variants(g, x, y, px, py), v),
        occurrences(window_variants(g, x, y, px, py), mirrored(v)) == occurrences(window_variants(g, x, y, px, py), v),
        occurrences(window_variants(g, x, y, px, py), (window(g, x, y, px as int, py as int), [px, py])) >= 1,
{
    let p: PatternShape = (window(g, x, y, px as int, py as int), [px, py]);
    assert(shape_rect(p)) by {
        assert forall|i: int| 0 <= i < px implies #[trigger] p.0[i].len() == py by {
            assert(g[x + i].len() == gh);
        }
    }
    let r1 = turned(p);
    let r2 = turned(r1);
    let r3 = turned(r2);
    lemma_shape_turns_rect(p);
    lemma_shape_turns_rect(r1);
    lemma_shape_turns_rect(r2);
    lemma_shape_turns_rect(r3);
    lemma_shape_turn_laws(p);
    lemma_shape_turn_laws(r1);
    lemma_shape_turn_laws(r2);
    lemma_shape_turn_laws(r3);
    let a0 = mirrored(p);
    let a1 = mirrored(r2);
    let a2 = mirrored(r1);
    let a3 = mirrored(r3);
    let wv = window_variants(g, x, y, px, py);
    assert(wv =~= seq![a0, a1, a2, a3, p, r2, r1, r3]);
    assert(turned(a0) == a3 && turned(a1) == a2 && turned(a2) == a0 && turned(a3) == a1);
    lemma_shape_turns_injective(a0, v);
    lemma_shape_turns_injective(a1, v);
    lemma_shape_turns_injective(a2, v);
    lemma_shape_turns_injective(a3, v);
    lemma_shape_turns_injective(p, v);
    lemma_shape_turns_injective(r1, v);
    lemma_shape_turns_injective(r2, v);
    lemma_shape_turns_injective(r3, v);
    assert forall|u: PatternShape| #[trigger] occurrences(wv, u) == (if a0 == u { 1nat } else { 0nat }) + (if a1 == u {
        1nat
    } else {
        0nat
    }) + (if a2 == u { 1nat } else { 0nat }) + (if a3 == u { 1nat } else { 0nat }) + (if p == u { 1nat } else {
        0nat
    }) + (if r2 == u { 1nat } else { 0nat }) + (if r1 == u { 1nat } else { 0nat }) + (if r3 == u { 1nat } else {
        0nat
    }) by {
        let s0 = Seq::<PatternShape>::empty();
        let s1 = s0.push(a0);
        let s2 = s1.push(a1);
        let s3 = s2.push(a2);
        let s4 = s3.push(a3);
        let s5 = s4.push(p);
        let s6 = s5.push(r2);
        let s7 = s6.push(r1);
        let s8 = s7.push(r3);
        assert(wv =~= s8);
        assert(s8.drop_last() =~= s7);
        assert(s7.drop_last() =~= s6);
        assert(s6.drop_last() =~= s5);
        assert(s5.drop_last() =~= s4);
        assert(s4.drop_last() =~= s3);
        assert(s3.drop_last() =~= s2);
        assert(s2.drop_last() =~= s1);
        assert(s1.drop_last() =~= s0);
        assert(occurrences(s0, u) == 0);
        assert(occurrences(s1, u) == occurrences(s0, u) + (if a0 == u { 1nat } else { 0nat }));
        assert(occurrences(s2, u) == occurrences(s1, u) + (if a1 == u { 1nat } else { 0nat }));
        assert(occurrences(s3, u) == occurrences(s2, u) + (if a2 == u { 1nat } else { 0nat }));
        assert(occurrences(s4, u) == occurrences(s3, u) + (if a3 == u { 1nat } else { 0nat }));
        assert(occurrences(s5, u) == occurrences(s4, u) + (if p == u { 1nat } else { 0nat }));
        assert(occurrences(s6, u) == occurrences(s5, u) + (if r2 == u { 1nat } else { 0nat }));
        assert(occurrences(s7, u) == occurrences(s6, u) + (if r1 == u { 1nat } else { 0nat }));
        assert(occurrences(s8, u) == occurrences(s7, u) + (if r3 == u { 1nat } else { 0nat }));
    }
    assert(occurrences(wv, turned(v)) == occurrences(wv, v));
    assert(occurrences(wv, mirrored(v)) == occurrences(wv, v));
    assert(occurrences(wv, p) >= 1);
}

/// The patterns of the windows at `[x][y]` for `y` below `h` are closed
/// under turning and mirroring, and each of those windows occurs among them.
proof fn lemma_column_variants_closed(
    g: Seq<Seq<WorldTileType>>,
    gw: int,
    gh: int,
    x: int,
    h: int,
    px: usize,
    py: usize,
    v: PatternShape,
)
    requires
        is_rect(g, gw, gh),
        0 <= x,
        x + px <= gw,
        h + py <= gh,
        shape_rect(v),
    ensures
        occurrences(column_variants(g, x, h, px, py), turned(v)) == occurrences(column_variants(g, x, h, px, py), v),
        occurrences(column_variants(g, x, h, px, py), mirrored(v)) == occurrences(column_variants(g, x, h, px, py), v),
        forall|y: int|
            0 <= y < h ==> occurrences(
                column_variants(g, x, h, px, py),
                (#[trigger] window(g, x, y, px as int, py as int), [px, py]),
            ) >= 1,
    decreases h,
{
    if h > 0 {
        lemma_column_variants_closed(g, gw, gh, x, h - 1, px, py, v);
        lemma_window_variants_closed(g, gw, gh, x, h - 1, px, py, v);
        let a = column_variants(g, x, h - 1, px, py);
        let b = window_variants(g, x, h - 1, px, py);
        assert(column_variants(g, x, h, px, py) == a + b);
        lemma_occurrences_concat(a, b, v);
        lemma_occurrences_concat(a, b, turned(v));
        lemma_occurrences_concat(a, b, mirrored(v));
        assert forall|y: int| 0 <= y < h implies occurrences(
            a + b,
            (#[trigger] window(g, x, y, px as int, py as int), [px, py]),
        ) >= 1 by {
            let u: PatternShape = (window(g, x, y, px as int, py as int), [px, py]);
            lemma_occurrences_concat(a, b, u);
        }
    }
}

/// The patterns of the windows at `[x][y]` for `x` below `w` and `y` below
/// `h` are closed under turning and mirroring, and each of those windows
/// occurs among them.
proof fn lemma_all_variants_closed(
    g: Seq<Seq<WorldTileType>>,
    gw: int,
    gh: int,
    w: int,
    h: int,
    px: usize,
    py: usize,
    v: PatternShape,
)
    requires
        is_rect(g, gw, gh),
        w + px <= gw,
        h + py <= gh,
        shape_rect(v),
    ensures
        occurrences(all_variants(g, w, h, px, py), turned(v)) == occurrences(all_variants(g, w, h, px, py), v),
        occurrences(all_variants(g, w, h, px, py), mirrored(v)) == occurrences(all_variants(g, w, h, px, py), v),
        forall|x: int, y: int|
            0 <= x < w && 0 <= y < h ==> occurrences(
                all_variants(g, w, h, px, py),
                (#[trigger] window(g, x, y, px as int, py as int), [px, py]),
            ) >= 1,
    decreases w,
{
    if w > 0 {
        lemma_all_variants_closed(g, gw, gh, w - 1, h, px, py, v);
        lemma_column_variants_closed(g, gw, gh, w - 1, h, px, py, v);
        let a = all_variants(g, w - 1, h, px, py);
        let b = column_variants(g, w - 1, h, px, py);
        assert(all_variants(g, w, h, px, py) == a + b);
        lemma_occurrences_concat(a, b, v);
        lemma_occurrences_concat(a, b, turned(v));
        lemma_occurrences_concat(a, b, mirrored(v));
        assert forall|x: int, y: int| 0 <= x < w && 0 <= y < h implies occurrences(
            a + b,
            (#[trigger] window(g, x, y, px as int, py as int), [px, py]),
        ) >= 1 by {
            let u: PatternShape = (window(g, x, y, px as int, py as int), [px, py]);
            lemma_occurrences_concat(a, b, u);
        }
    }
}

impl TileGrid {
    /// The patterns `get_patterns` counts are closed under turning and
    /// mirroring: every pattern occurs among the patterns of the windows as
    /// often as its quarter turn and as its mirror image, and every window
    /// occurs among them.
    pub proof fn lemma_window_shapes_closed(&self, px: usize, py: usize, v: PatternShape)
        requires
            self.well_formed(),
            px <= self.grid_size[0],
            py <= self.grid_size[1],
            shape_rect(v),
        ensures
            occurrences(self.window_shapes(px, py), turned(v)) == occurrences(self.window_shapes(px, py), v),
            occurrences(self.window_shapes(px, py), mirrored(v)) == occurrences(self.window_shapes(px, py), v),
            forall|x: int, y: int|
                0 <= x < self.grid_size[0] - px && 0 <= y < self.grid_size[1] - py ==> occurrences(
                    self.window_shapes(px, py),
                    (#[trigger] window(self.tiles(), x, y, px as int, py as int), [px, py]),
                ) >= 1,
    {
        lemma_all_variants_closed(
            self.tiles(),
            self.grid_size[0] as int,
            self.grid_size[1] as int,
            self.grid_size[0] - px,
            self.grid_size[1] - py,
            px,
            py,
            v,
        );
    }
}

/// The positions in `s` of the patterns with tiles `t`.
pub open spec fn tile_positions(s: Seq<PatternShape>, t: Seq<Seq<WorldTileType>>) -> Set<int> {
    Set::new(|i: int| 0 <= i < s.len() && s[i].0 == t)
}

/// How many patterns of `s` have tiles `t`.
pub open spec fn tile_count(s: Seq<PatternShape>, t: Seq<Seq<WorldTileType>>) -> nat {
    tile_positions(s, t).len()
}

/// The positions of some tiles are finite.
proof fn lemma_tile_positions_finite(s: Seq<PatternShape>, t: Seq<Seq<WorldTileType>>)
    ensures
        tile_positions(s, t).finite(),
{
    lemma_int_range(0, s.len() as int);
    lemma_len_subset(tile_positions(s, t), set_int_range(0, s.len() as int));
}

/// Appending a pattern adds one to the count of its tiles.
proof fn lemma_tile_count_push(s: Seq<PatternShape>, e: PatternShape, t: Seq<Seq<WorldTileType>>)
    ensures
        tile_count(s.push(e), t) == tile_count(s, t) + if e.0 == t {
            1nat
        } else {
            0nat
        },
{
    lemma_tile_positions_finite(s, t);
    if e.0 == t {
        assert(tile_positions(s.push(e), t) =~= tile_positions(s, t).insert(s.len() as int));
    } else {
        assert(tile_positions(s.push(e), t) =~= tile_positions(s, t));
    }
}

/// Counting by tiles counts a pattern where no other pattern of `s` has its
/// tiles.
proof fn lemma_tile_count_occurrences(s: Seq<PatternShape>, v: PatternShape)
    requires
        forall|i: int| 0 <= i < s.len() && (#[trigger] s[i]).0 == v.0 ==> s[i] == v,
    ensures
        tile_count(s, v.0) == occurrences(s, v),
    decreases s.len(),
{
    if s.len() == 0 {
        assert(tile_positions(s, v.0) =~= Set::empty());
    } else {
        let s1 = s.drop_last();
        assert forall|i: int| 0 <= i < s1.len() && (#[trigger] s1[i]).0 == v.0 implies s1[i] == v by {
            assert(s1[i] == s[i]);
        }
        lemma_tile_count_occurrences(s1, v);
        assert(s1.push(s.last()) =~= s);
        lemma_tile_count_push(s1, s.last(), v.0);
    }
}

/// Some pattern of `s` is `v`.
#[verifier::opaque]
pub open spec fn among(s: Seq<PatternShape>, v: PatternShape) -> bool {
    exists|i: int| 0 <= i < s.len() && s[i] == v
}

/// The runs of patterns in ascending order of tiles have distinct tiles,
/// each as long as the number of patterns with its tiles and starting with
/// a pattern of `s`, and the tiles of every pattern have a run.
#[verifier::spinoff_prover]
#[verifier::rlimit(80)]
proof fn lemma_runs_tile_counts(s: Seq<PatternShape>)
    requires
        ascending(s),
    ensures
        forall|k: int| 0 <= k < runs(s).len() ==> (#[trigger] runs(s)[k]).2 == tile_count(s, runs(s)[k].0),
        forall|k1: int, k2: int|
            0 <= k1 < runs(s).len() && 0 <= k2 < runs(s).len() && k1 != k2 ==> (#[trigger] runs(s)[k1]).0
                != (#[trigger] runs(s)[k2]).0,
        forall|i: int| 0 <= i < s.len() ==> exists|k: int| 0 <= k < runs(s).len() && #[trigger] runs(s)[k].0 == (#[trigger] s[i]).0,
        forall|k: int| 0 <= k < runs(s).len() ==> among(s, (#[trigger] runs(s)[k].0, runs(s)[k].1)),
    decreases s.len(),
{
    if s.len() == 0 {
        return;
    }
    let s1 = s.drop_last();
    let e = s.last();
    let n1 = s1.len() as int;
    assert(ascending(s1)) by {
        assert forall|i: int, j: int| 0 <= i < j < s1.len() implies grid_order(#[trigger] s1[i].0, #[trigger] s1[j].0) <= 0 by {
            assert(s1[i] == s[i] && s1[j] == s[j]);
        }
    }
    lemma_runs_tile_counts(s1);
    lemma_runs_ascending(s1);
    let r = runs(s1);
    assert(s1.push(e) =~= s);
    assert forall|t: Seq<Seq<WorldTileType>>| #[trigger] tile_count(s, t) == tile_count(s1, t) + if e.0 == t {
        1nat
    } else {
        0nat
    } by {
        lemma_tile_count_push(s1, e, t);
    }
    if r.len() > 0 && r.last().0 == e.0 {
        let u = r.update(r.len() - 1, (r.last().0, r.last().1, r.last().2 + 1));
        assert(runs(s) == u);
        assert forall|k: int| 0 <= k < u.len() implies (#[trigger] u[k]).2 == tile_count(s, u[k].0) by {
            if k < r.len() - 1 {
                assert(u[k] == r[k]);
                assert(r[k].0 != r[r.len() - 1].0);
            }
        }
        assert forall|i: int| 0 <= i < s.len() implies exists|k: int| 0 <= k < u.len() && #[trigger] u[k].0 == (#[trigger] s[i]).0 by {
            if i < n1 {
                assert(s[i] == s1[i]);
                let k = choose|k: int| 0 <= k < r.len() && #[trigger] r[k].0 == s1[i].0;
                assert(u[k].0 == r[k].0);
            } else {
                assert(u[r.len() - 1].0 == s[i].0);
            }
        }
        assert forall|k: int| 0 <= k < u.len() implies among(s, (#[trigger] u[k].0, u[k].1)) by {
            reveal(among);
            assert(u[k].0 == r[k].0 && u[k].1 == r[k].1);
            assert(among(s1, (r[k].0, r[k].1)));
            let i = choose|i: int| 0 <= i < s1.len() && #[trigger] s1[i] == (r[k].0, r[k].1);
            assert(s[i] == s1[i]);
        }
        assert forall|k1: int, k2: int|
            0 <= k1 < u.len() && 0 <= k2 < u.len() && k1 != k2 implies (#[trigger] u[k1]).0 != (#[trigger] u[k2]).0 by {
            assert(u[k1].0 == r[k1].0 && u[k2].0 == r[k2].0);
        }
    } else {
        let u = r.push((e.0, e.1, 1nat));
        assert(runs(s) == u);
        assert forall|k: int| 0 <= k < r.len() implies (#[trigger] r[k]).0 != e.0 by {
            reveal(among);
            assert(among(s1, (r[k].0, r[k].1)));
            let i = choose|i: int| 0 <= i < s1.len() && #[trigger] s1[i] == (r[k].0, r[k].1);
            if r[k].0 == e.0 {
                assert(s[i] == s1[i]);
                assert(s[n1] == e);
                assert(r.last().0 == s1.last().0);
                assert(s1.last() == s[n1 - 1]);
                if i < n1 - 1 {
                    assert(grid_order(s[i].0, s[n1 - 1].0) <= 0);
                }
                assert(grid_order(s[n1 - 1].0, s[n1].0) <= 0);
                lemma_grid_order(s[n1 - 1].0, e.0, e.0);
                assert(s1.last().0 == e.0);
            }
        }
        assert(tile_count(s1, e.0) == 0) by {
            assert forall|i: int| 0 <= i < s1.len() implies (#[trigger] s1[i]).0 != e.0 by {
                let k = choose|k: int| 0 <= k < r.len() && #[trigger] r[k].0 == s1[i].0;
                assert(r[k].0 != e.0);
            }
            assert(tile_positions(s1, e.0) =~= Set::empty());
        }
        assert forall|k: int| 0 <= k < u.len() implies (#[trigger] u[k]).2 == tile_count(s, u[k].0) by {
            if k < r.len() {
                assert(u[k] == r[k]);
                assert(r[k].0 != e.0);
            }
        }
        assert forall|i: int| 0 <= i < s.len() implies exists|k: int| 0 <= k < u.len() && #[trigger] u[k].0 == (#[trigger] s[i]).0 by {
            if i < n1 {
                assert(s[i] == s1[i]);
                let k = choose|k: int| 0 <= k < r.len() && #[trigger] r[k].0 == s1[i].0;
                assert(u[k] == r[k]);
            } else {
                assert(u[r.len() as int].0 == s[i].0);
            }
        }
        assert forall|k: int| 0 <= k < u.len() implies among(s, (#[trigger] u[k].0, u[k].1)) by {
            reveal(among);
            if k < r.len() {
                assert(u[k] == r[k]);
                assert(among(s1, (r[k].0, r[k].1)));
                let i = choose|i: int| 0 <= i < s1.len() && #[trigger] s1[i] == (r[k].0, r[k].1);
                assert(s[i] == s1[i]);
            } else {
                assert(s[n1] == (u[k].0, u[k].1));
            }
        }
        assert forall|k1: int, k2: int|
            0 <= k1 < u.len() && 0 <= k2 < u.len() && k1 != k2 implies (#[trigger] u[k1]).0 != (#[trigger] u[k2]).0 by {
            if k1 < r.len() && k2 < r.len() {
                assert(u[k1] == r[k1] && u[k2] == r[k2]);
            } else if k1 < r.len() {
                assert(u[k1] == r[k1]);
            } else {
                assert(u[k2] == r[k2]);
            }
        }
    }
}

/// Putting the patterns in another order keeps the count of every tiles.
proof fn lemma_in_order_tile_count(s: Seq<PatternShape>, order: Seq<usize>, t: Seq<Seq<WorldTileType>>)
    requires
        is_sorting(order, shape_tiles(s)),
    ensures
        tile_count(in_order(s, order), t) == tile_count(s, t),
{
    let n = s.len() as int;
    let f = |j: int| order[j] as int;
    let all = set_int_range(0, n);
    lemma_int_range(0, n);
    assert(injective_on(f, all)) by {
        assert forall|j1: int, j2: int| all.contains(j1) && all.contains(j2) && #[trigger] f(j1) == #[trigger] f(j2) implies j1
            == j2 by {
            if j1 < j2 {
                assert(order[j1] != order[j2]);
            } else if j2 < j1 {
                assert(order[j2] != order[j1]);
            }
        }
    }
    lemma_map_size(all, all.map(f), f);
    assert(all.map(f).subset_of(all)) by {
        assert forall|i: int| #[trigger] all.map(f).contains(i) implies all.contains(i) by {
            let j = choose|j: int| all.contains(j) && i == f(j);
            assert(order[j] < shape_tiles(s).len());
        }
    }
    lemma_subset_equality(all.map(f), all);
    let x = tile_positions(in_order(s, order), t);
    let y = tile_positions(s, t);
    assert(x.subset_of(all));
    lemma_len_subset(x, all);
    assert(injective_on(f, x)) by {
        assert forall|j1: int, j2: int| x.contains(j1) && x.contains(j2) && #[trigger] f(j1) == #[trigger] f(j2) implies j1
            == j2 by {
            assert(all.contains(j1) && all.contains(j2));
        }
    }
    assert(x.map(f) =~= y) by {
        assert forall|i: int| #[trigger] x.map(f).contains(i) implies y.contains(i) by {
            let j = choose|j: int| x.contains(j) && i == f(j);
            assert(order[j] < shape_tiles(s).len());
            assert(in_order(s, order)[j] == s[order[j] as int]);
        }
        assert forall|i: int| #[trigger] y.contains(i) implies x.map(f).contains(i) by {
            assert(all.contains(i));
            assert(all.map(f).contains(i));
            let j = choose|j: int| all.contains(j) && i == f(j);
            assert(in_order(s, order)[j] == s[order[j] as int]);
            assert(x.contains(j));
        }
    }
    lemma_map_size(x, y, f);
}

/// The tiles of `v` fill a rectangle of `px` by `py` or of `py` by `px`.
pub open spec fn shape_fits(v: PatternShape, px: usize, py: usize) -> bool {
    &&& shape_rect(v)
    &&& (v.1 == [px, py] || v.1 == [py, px])
}

/// Among patterns that fit, the tiles tell the pattern, and turning and
/// mirroring keep a pattern fitting.
proof fn lemma_fits(a: PatternShape, b: PatternShape, px: usize, py: usize)
    requires
        shape_fits(a, px, py),
        shape_fits(b, px, py),
    ensures
        a.0 == b.0 ==> a == b,
        shape_fits(turned(a), px, py),
        shape_fits(mirrored(a), px, py),
{
    lemma_shape_turns_rect(a);
    if a.0 == b.0 {
        assert(a.1[0] == b.1[0] && a.1[1] == b.1[1]);
        assert(a.1 =~= b.1);
    }
    if a.1 == [px, py] {
        assert(turned(a).1 =~= [py, px]);
    } else {
        assert(turned(a).1 =~= [px, py]);
    }
}

/// Every pattern of a window of the grid fits.
proof fn lemma_window_variants_fit(
    g: Seq<Seq<WorldTileType>>,
    gw: int,
    gh: int,
    x: int,
    y: int,
    px: usize,
    py: usize,
)
    requires
        is_rect(g, gw, gh),
        0 <= x,
        x + px <= gw,
        0 <= y,
        y + py <= gh,
    ensures
        forall|i: int| 0 <= i < 8 ==> shape_fits(#[trigger] window_variants(g, x, y, px, py)[i], px, py),
        window_variants(g, x, y, px, py).len() == 8,
{
    let p: PatternShape = (window(g, x, y, px as int, py as int), [px, py]);
    assert(shape_rect(p)) by {
        assert forall|i: int| 0 <= i < px implies #[trigger] p.0[i].len() == py by {
            assert(g[x + i].len() == gh);
        }
    }
    assert(shape_fits(p, px, py));
    lemma_fits(p, p, px, py);
    lemma_fits(turned(p), p, px, py);
    lemma_fits(turned(turned(p)), p, px, py);
    lemma_fits(turned(turned(turned(p))), p, px, py);
}

/// Every pattern of the windows at `[x][y]` for `y` below `h` fits.
proof fn lemma_column_variants_fit(
    g: Seq<Seq<WorldTileType>>,
    gw: int,
    gh: int,
    x: int,
    h: int,
    px: usize,
    py: usize,
)
    requires
        is_rect(g, gw, gh),
        0 <= x,
        x + px <= gw,
        h + py <= gh,
    ensures
        forall|i: int|
            0 <= i < column_variants(g, x, h, px, py).len() ==> shape_fits(
                #[trigger] column_variants(g, x, h, px, py)[i],
                px,
                py,
            ),
    decreases h,
{
    if h > 0 {
        lemma_column_variants_fit(g, gw, gh, x, h - 1, px, py);
        lemma_window_variants_fit(g, gw, gh, x, h - 1, px, py);
        let a = column_variants(g, x, h - 1, px, py);
        let b = window_variants(g, x, h - 1, px, py);
        assert(column_variants(g, x, h, px, py) == a + b);
        assert forall|i: int| 0 <= i < (a + b).len() implies shape_fits(#[trigger] (a + b)[i], px, py) by {
            if i < a.len() {
                assert((a + b)[i] == a[i]);
            } else {
                assert((a + b)[i] == b[i - a.len()]);
            }
        }
    }
}

/// Every pattern of the windows at `[x][y]` for `x` below `w` and `y` below
/// `h` fits.
proof fn lemma_all_variants_fit(
    g: Seq<Seq<WorldTileType>>,
    gw: int,
    gh: int,
    w: int,
    h: int,
    px: usize,
    py: usize,
)
    requires
        is_rect(g, gw, gh),
        w + px <= gw,
        h + py <= gh,
    ensures
        forall|i: int|
            0 <= i < all_variants(g, w, h, px, py).len() ==> shape_fits(#[trigger] all_variants(g, w, h, px, py)[i], px, py),
    decreases w,
{
    if w > 0 {
        lemma_all_variants_fit(g, gw, gh, w - 1, h, px, py);
        lemma_column_variants_fit(g, gw, gh, w - 1, h, px, py);
        let a = all_variants(g, w - 1, h, px, py);
        let b = column_variants(g, w - 1, h, px, py);
        assert(all_variants(g, w, h, px, py) == a + b);
        assert forall|i: int| 0 <= i < (a + b).len() implies shape_fits(#[trigger] (a + b)[i], px, py) by {
            if i < a.len() {
                assert((a + b)[i] == a[i]);
            } else {
                assert((a + b)[i] == b[i - a.len()]);
            }
        }
    }
}

/// Some pattern of `r` has the tiles of pattern `k` turned a quarter and
/// is counted as often.
pub open spec fn has_turn(r: Seq<PatternData>, k: int) -> bool {
    exists|k2: int|
        0 <= k2 < r.len() && #[trigger] r[k2].tile_view() == turned((r[k].tile_view(), r[k].size())).0
            && r[k2].count() == r[k].count()
}

/// Some pattern of `r` has the tiles of pattern `k` mirrored and is counted
/// as often.
pub open spec fn has_mirror(r: Seq<PatternData>, k: int) -> bool {
    exists|k3: int|
        0 <= k3 < r.len() && #[trigger] r[k3].tile_view() == mirrored((r[k].tile_view(), r[k].size())).0
            && r[k3].count() == r[k].count()
}

/// Every pattern of `r` has its quarter turn and its mirror image among the
/// patterns of `r`, counted as often.
pub open spec fn turns_counted_alike(r: Seq<PatternData>) -> bool {
    forall|k: int| 0 <= k < r.len() ==> #[trigger] has_turn(r, k) && has_mirror(r, k)
}

/// Patterns that describe the runs of some patterns put in ascending order
/// count, each, the patterns with their tiles, start with one of those
/// patterns, and hold the tiles of every pattern.
proof fn lemma_runs_in_order(ws: Seq<PatternShape>, order: Seq<usize>, r: Seq<PatternData>)
    requires
        is_sorting(order, shape_tiles(ws)),
        ascending(in_order(ws, order)),
        describes(r, runs(in_order(ws, order))),
    ensures
        counts_of(r, ws),
{
    let sorted = in_order(ws, order);
    let rr = runs(sorted);
    lemma_runs_tile_counts(sorted);
    assert forall|t: Seq<Seq<WorldTileType>>| #[trigger] tile_count(sorted, t) == tile_count(ws, t) by {
        lemma_in_order_tile_count(ws, order, t);
    }
    assert forall|k: int| 0 <= k < r.len() implies #[trigger] r[k].count() == tile_count(ws, r[k].tile_view()) by {
        assert(rr[k].2 == tile_count(sorted, rr[k].0));
    }
    assert forall|k: int| 0 <= k < r.len() implies among(ws, (#[trigger] r[k].tile_view(), r[k].size())) by {
        reveal(among);
        assert(among(sorted, (rr[k].0, rr[k].1)));
        let j = choose|j: int| 0 <= j < sorted.len() && sorted[j] == (rr[k].0, rr[k].1);
        assert(order[j] < shape_tiles(ws).len());
        assert(sorted[j] == ws[order[j] as int]);
    }
    assert forall|i: int| 0 <= i < ws.len() implies exists|k: int| 0 <= k < r.len() && r[k].tile_view() == (
    #[trigger] ws[i]).0 by {
        let t = ws[i].0;
        lemma_tile_positions_finite(ws, t);
        lemma_tile_positions_finite(sorted, t);
        assert(tile_positions(ws, t).contains(i));
        assert(tile_count(ws, t) >= 1) by {
            if tile_count(ws, t) == 0 {
                assert(tile_positions(ws, t) =~= Set::empty());
            }
        }
        assert(tile_count(sorted, t) == tile_count(ws, t));
        assert(exists|j: int| #[trigger] tile_positions(sorted, t).contains(j)) by {
            if !exists|j: int| #[trigger] tile_positions(sorted, t).contains(j) {
                assert(tile_positions(sorted, t) =~= Set::empty());
            }
        }
        let j = choose|j: int| #[trigger] tile_positions(sorted, t).contains(j);
        let k = choose|k: int| 0 <= k < rr.len() && #[trigger] rr[k].0 == (#[trigger] sorted[j]).0;
        assert(r[k].tile_view() == t);
    }
}

/// Some pattern of `ws` has the tiles of `v`, given that `v` is counted at
/// least once among them.
proof fn lemma_counted_present(ws: Seq<PatternShape>, t: Seq<Seq<WorldTileType>>)
    requires
        tile_count(ws, t) >= 1,
    ensures
        exists|i: int| 0 <= i < ws.len() && (#[trigger] ws[i]).0 == t,
{
    if !exists|i: int| 0 <= i < ws.len() && (#[trigger] ws[i]).0 == t {
        assert(tile_positions(ws, t) =~= Set::empty());
    }
}

/// The patterns of `ws` fit and are closed under turning and mirroring.
pub open spec fn fitting_and_closed(ws: Seq<PatternShape>, px: usize, py: usize) -> bool {
    &&& forall|i: int| 0 <= i < ws.len() ==> shape_fits(#[trigger] ws[i], px, py)
    &&& forall|v: PatternShape|
        #![trigger turned(v)]
        #![trigger mirrored(v)]
        shape_rect(v) ==> occurrences(ws, turned(v)) == occurrences(ws, v) && occurrences(ws, mirrored(v))
            == occurrences(ws, v)
}

/// Patterns that each count the patterns of `ws` with their tiles, start
/// with a pattern of `ws` and hold the tiles of every pattern of `ws`.
pub open spec fn counts_of(r: Seq<PatternData>, ws: Seq<PatternShape>) -> bool {
    &&& forall|k: int| 0 <= k < r.len() ==> #[trigger] r[k].count() == tile_count(ws, r[k].tile_view())
    &&& forall|k: int| 0 <= k < r.len() ==> among(ws, (#[trigger] r[k].tile_view(), r[k].size()))
    &&& forall|i: int| 0 <= i < ws.len() ==> exists|k: int| 0 <= k < r.len() && r[k].tile_view() == (#[trigger] ws[i]).0
}

/// A pattern counted as often as the patterns of `ws` with its tiles has
/// its quarter turn and its mirror image counted as often.
proof fn lemma_result_turns(ws: Seq<PatternShape>, px: usize, py: usize, r: Seq<PatternData>, k: int)
    requires
        fitting_and_closed(ws, px, py),
        counts_of(r, ws),
        0 <= k < r.len(),
    ensures
        has_turn(r, k),
        has_mirror(r, k),
{
    let v: PatternShape = (r[k].tile_view(), r[k].size());
    assert(among(ws, v));
    reveal(among);
    let i0 = choose|i: int| 0 <= i < ws.len() && ws[i] == v;
    assert(shape_fits(ws[i0], px, py));
    lemma_fits(v, v, px, py);
    let tv = turned(v);
    let mv = mirrored(v);
    lemma_fits(tv, tv, px, py);
    lemma_fits(mv, mv, px, py);
    assert forall|i: int| 0 <= i < ws.len() && (#[trigger] ws[i]).0 == v.0 implies ws[i] == v by {
        lemma_fits(ws[i], v, px, py);
    }
    assert forall|i: int| 0 <= i < ws.len() && (#[trigger] ws[i]).0 == tv.0 implies ws[i] == tv by {
        lemma_fits(ws[i], tv, px, py);
    }
    assert forall|i: int| 0 <= i < ws.len() && (#[trigger] ws[i]).0 == mv.0 implies ws[i] == mv by {
        lemma_fits(ws[i], mv, px, py);
    }
    lemma_tile_count_occurrences(ws, v);
    lemma_tile_count_occurrences(ws, tv);
    lemma_tile_count_occurrences(ws, mv);
    assert(occurrences(ws, tv) == occurrences(ws, v));
    assert(occurrences(ws, mv) == occurrences(ws, v));
    assert(tile_count(ws, v.0) >= 1) by {
        lemma_tile_positions_finite(ws, v.0);
        assert(tile_positions(ws, v.0).contains(i0));
        if tile_count(ws, v.0) == 0 {
            assert(tile_positions(ws, v.0) =~= Set::empty());
        }
    }
    lemma_counted_present(ws, tv.0);
    lemma_counted_present(ws, mv.0);
    let i2 = choose|i: int| 0 <= i < ws.len() && (#[trigger] ws[i]).0 == tv.0;
    let i3 = choose|i: int| 0 <= i < ws.len() && (#[trigger] ws[i]).0 == mv.0;
    let k2 = choose|k2: int| 0 <= k2 < r.len() && r[k2].tile_view() == (#[trigger] ws[i2]).0;
    let k3 = choose|k3: int| 0 <= k3 < r.len() && r[k3].tile_view() == (#[trigger] ws[i3]).0;
    assert(r[k2].count() == tile_count(ws, r[k2].tile_view()));
    assert(r[k3].count() == tile_count(ws, r[k3].tile_view()));
}

/// Patterns that count the patterns of a fitting and closed `ws` are closed
/// under turning and mirroring with equal counts.
proof fn lemma_patterns_closed(ws: Seq<PatternShape>, px: usize, py: usize, r: Seq<PatternData>)
    requires
        fitting_and_closed(ws, px, py),
        counts_of(r, ws),
    ensures
        turns_counted_alike(r),
{
    assert forall|k: int| 0 <= k < r.len() implies #[trigger] has_turn(r, k) && has_mirror(r, k) by {
        lemma_result_turns(ws, px, py, r, k);
    }
}

impl TileGrid {
    /// The patterns of the windows fit and are closed under turning and
    /// mirroring.
    proof fn lemma_window_shapes_fitting_and_closed(&self, px: usize, py: usize)
        requires
            self.well_formed(),
            px <= self.grid_size[0],
            py <= self.grid_size[1],
        ensures
            fitting_and_closed(self.window_shapes(px, py), px, py),
    {
        let g = self.tiles();
        let gw = self.grid_size[0] as int;
        let gh = self.grid_size[1] as int;
        lemma_all_variants_fit(g, gw, gh, gw - px, gh - py, px, py);
        assert forall|v: PatternShape|
            #![trigger turned(v)]
            #![trigger mirrored(v)]
            shape_rect(v) implies occurrences(self.window_shapes(px, py), turned(v)) == occurrences(
                self.window_shapes(px, py),
                v,
            ) && occurrences(self.window_shapes(px, py), mirrored(v)) == occurrences(self.window_shapes(px, py), v) by {
            self.lemma_window_shapes_closed(px, py, v);
        }
    }
}

} // verus!
