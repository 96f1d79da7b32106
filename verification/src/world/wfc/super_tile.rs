use vstd::prelude::*;

use crate::world::grid::{grid_view, is_rect};
use crate::world::sums::{lemma_sum_constant, lemma_sum_nonneg, sum_int};
use crate::world::tile_grid::{filled_grid, filled_rows};
use crate::world::wfc::pattern_overlap::PatternOverlap;
use crate::world::wfc::pattern_palette::{max_size_of, PatternArray, PatternId, PatternPalette};
use crate::world::wfc::pattern_store::{count_column, count_grid, count_table, lemma_count_nonneg, lemma_count_switch_off};
use crate::world::world_tile_type::WorldTileType;
use crate::world::world_tile_type_flags::{all_bits, tile_bit, WorldTileTypeFlags};

verus! {

/// The number of cells of pattern `i`.
pub open spec fn pattern_area(palette: &PatternPalette, i: int) -> int {
    palette.size_of(i)[0] * palette.size_of(i)[1]
}

/// The number of cells of all patterns.
pub open spec fn palette_area(palette: &PatternPalette) -> int {
    sum_int(Seq::new(palette.pattern_count(), |i: int| pattern_area(palette, i)))
}

/// `t` is a table of the size of pattern `id` with every entry set.
pub open spec fn full_offsets(palette: &PatternPalette, id: PatternId, t: Vec<Vec<bool>>) -> bool {
    &&& grid_view(t@) == filled_grid(true, palette.size_of(id.0 as int)[0] as int, palette.size_of(id.0 as int)[1] as int)
    &&& is_rect(grid_view(t@), palette.size_of(id.0 as int)[0] as int, palette.size_of(id.0 as int)[1] as int)
}

/// A cell of a wave function collapse: which placements of which patterns
/// over it are still possible, the tile types it may still take, and how
/// many placements are left.
pub struct SuperTile {
    pattern_states: PatternArray<Vec<Vec<bool>>>,
    possible_flags: WorldTileTypeFlags,
    entropy: usize,
}

impl SuperTile {
    /// Whether pattern `id` may still lie over the cell with the cell at
    /// `[x][y]` within it.
    pub closed spec fn enabled(&self, id: int, x: int, y: int) -> bool {
        self.pattern_states.0@[id]@[x]@[y]
    }

    /// The placement tables, by pattern.
    pub closed spec fn tables(&self) -> Seq<Seq<Seq<bool>>> {
        Seq::new(self.pattern_states.0@.len(), |i: int| grid_view(self.pattern_states.0@[i]@))
    }

    /// The tile types the cell may still take.
    pub closed spec fn flags(&self) -> WorldTileTypeFlags {
        self.possible_flags
    }

    /// The number of placements still possible.
    pub closed spec fn entropy_value(&self) -> usize {
        self.entropy
    }

    /// The entropy is the number of placements still possible.
    pub closed spec fn entropy_consistent(&self) -> bool {
        self.entropy == count_table(self.pattern_states.0@)
    }

    /// The placement tables of the two cells have the same shape.
    pub open spec fn same_shape(&self, other: &SuperTile) -> bool {
        &&& self.tables().len() == other.tables().len()
        &&& forall|i: int| 0 <= i < self.tables().len() ==> (#[trigger] self.tables()[i]).len() == other.tables()[i].len()
        &&& forall|i: int, x: int|
            0 <= i < self.tables().len() && 0 <= x < self.tables()[i].len() ==> (#[trigger] self.tables()[i][x]).len()
                == other.tables()[i][x].len()
    }

    /// Having the same shape is transitive.
    pub proof fn lemma_same_shape_trans(a: &SuperTile, b: &SuperTile, c: &SuperTile)
        requires
            a.same_shape(b),
            b.same_shape(c),
        ensures
            a.same_shape(c),
    {
        assert forall|i: int| 0 <= i < a.tables().len() implies (#[trigger] a.tables()[i]).len() == c.tables()[i].len() by {
            assert(b.tables()[i].len() == c.tables()[i].len());
        }
        assert forall|i: int, x: int|
            0 <= i < a.tables().len() && 0 <= x < a.tables()[i].len() implies (#[trigger] a.tables()[i][x]).len()
                == c.tables()[i][x].len() by {
            assert(b.tables()[i][x].len() == c.tables()[i][x].len());
        }
    }

    /// Well-formedness depends only on the shape of the tables, the flags
    /// and the entropy.
    pub proof fn lemma_well_formed_by_shape(a: &SuperTile, b: &SuperTile, palette: &PatternPalette)
        requires
            b.well_formed(palette),
            a.same_shape(b),
            a.entropy_consistent(),
            a.flags().well_formed(),
        ensures
            a.well_formed(palette),
    {
        assert forall|i: int|
            0 <= i < palette.pattern_count() implies is_rect(
                #[trigger] grid_view(a.pattern_states.0@[i]@),
                palette.size_of(i)[0] as int,
                palette.size_of(i)[1] as int,
            ) by {
            assert(is_rect(grid_view(b.pattern_states.0@[i]@), palette.size_of(i)[0] as int, palette.size_of(i)[1] as int));
            assert(a.tables()[i] == grid_view(a.pattern_states.0@[i]@));
            assert(b.tables()[i] == grid_view(b.pattern_states.0@[i]@));
            assert forall|x: int| 0 <= x < palette.size_of(i)[0] implies #[trigger] grid_view(a.pattern_states.0@[i]@)[x].len() == palette.size_of(i)[1] by {
                assert(a.tables()[i][x].len() == b.tables()[i][x].len());
            }
        }
    }

    /// One table per pattern of its size, the flags well formed, and the
    /// entropy the number of placements still possible.
    pub closed spec fn well_formed(&self, palette: &PatternPalette) -> bool {
        &&& palette.well_formed()
        &&& self.pattern_states.0.len() == palette.pattern_count()
        &&& forall|i: int|
            0 <= i < palette.pattern_count() ==> is_rect(
                #[trigger] grid_view(self.pattern_states.0@[i]@),
                palette.size_of(i)[0] as int,
                palette.size_of(i)[1] as int,
            )
        &&& self.possible_flags.well_formed()
        &&& self.entropy == count_table(self.pattern_states.0@)
    }

    /// A cell over which every placement of every pattern is possible, and
    /// which may take every tile type.
    pub fn new(palette: &PatternPalette) -> (r: Self)
        requires
            palette.well_formed(),
            palette_area(palette) <= usize::MAX,
        ensures
            r.well_formed(palette),
            r.flags()@ == all_bits(),
            r.entropy_value() == palette_area(palette),
            forall|i: int|
                0 <= i < palette.pattern_count() ==> #[trigger] r.tables()[i] == filled_grid(
                    true,
                    palette.size_of(i)[0] as int,
                    palette.size_of(i)[1] as int,
                ),
    {
        let offsets_for = (|pattern_id: PatternId| -> (t: Vec<Vec<bool>>)
            requires
                palette.well_formed(),
                pattern_id.0 < palette.pattern_count(),
            ensures
                full_offsets(palette, pattern_id, t),
            {
                let size = palette.get_size(&pattern_id);
                filled_rows(true, size[0], size[1])
            });
        let pattern_states = palette.get_pattern_array(offsets_for);
        let n = pattern_states.0.len();
        let mut entropy: usize = 0;
        let mut i: usize = 0;
        while i < n
            invariant
                palette.well_formed(),
                palette_area(palette) <= usize::MAX,
                n == palette.pattern_count(),
                pattern_states.0.len() == n,
                forall|k: int| 0 <= k < n ==> full_offsets(palette, PatternId(k as usize), #[trigger] pattern_states.0@[k]),
                i <= n,
                entropy == sum_int(Seq::new(i as nat, |k: int| pattern_area(palette, k))),
            decreases n - i,
        {
            let size = palette.get_size(&PatternId(i));
            proof {
                let s = Seq::new(n as nat, |k: int| pattern_area(palette, k));
                assert forall|k: int| 0 <= k < n implies s[k] >= 0 by {
                    let a = palette.size_of(k)[0] as int;
                    let b = palette.size_of(k)[1] as int;
                    assert(a * b >= 0) by (nonlinear_arith) requires a >= 0, b >= 0;
                }
                lemma_prefix_sum_le(s, i + 1);
                assert(Seq::new((i + 1) as nat, |k: int| pattern_area(palette, k)) =~= s.take(i + 1));
                assert(s.take(i + 1).drop_last() =~= Seq::new(i as nat, |k: int| pattern_area(palette, k)));
            }
            entropy = entropy + size[0] * size[1];
            i += 1;
        }
        let r = SuperTile {
            possible_flags: WorldTileTypeFlags::all(),
            entropy,
            pattern_states,
        };
        proof {
            let t = r.pattern_states.0@;
            assert forall|k: int| 0 <= k < n implies #[trigger] count_grid(t[k]@) == pattern_area(palette, k) by {
                assert(full_offsets(palette, PatternId(k as usize), t[k]));
                let w = palette.size_of(k)[0] as int;
                let h = palette.size_of(k)[1] as int;
                let g = t[k]@;
                assert forall|x: int| 0 <= x < w implies #[trigger] count_column(g[x]@) == h by {
                    assert(g[x]@ == grid_view(g)[x]);
                    assert(Seq::new(g[x]@.len(), |y: int| if g[x]@[y] { 1int } else { 0int }) =~= Seq::new(h as nat, |_y: int| 1int));
                    lemma_sum_constant(h as nat, 1);
                }
                assert(Seq::new(g.len(), |x: int| count_column(g[x]@)) =~= Seq::new(w as nat, |_x: int| h));
                lemma_sum_constant(w as nat, h);
            }
            assert(Seq::new(t.len(), |k: int| count_grid(t[k]@)) =~= Seq::new(n as nat, |k: int| pattern_area(palette, k)));
            assert(Seq::new(n as nat, |k: int| pattern_area(palette, k)) =~= Seq::new(palette.pattern_count(), |k: int| pattern_area(palette, k)));
            assert forall|k: int|
                0 <= k < palette.pattern_count() implies is_rect(
                    #[trigger] grid_view(r.pattern_states.0@[k]@),
                    palette.size_of(k)[0] as int,
                    palette.size_of(k)[1] as int,
                ) by {
                assert(full_offsets(palette, PatternId(k as usize), r.pattern_states.0@[k]));
            }
            assert forall|k: int|
                0 <= k < palette.pattern_count() implies #[trigger] r.tables()[k] == filled_grid(
                    true,
                    palette.size_of(k)[0] as int,
                    palette.size_of(k)[1] as int,
                ) by {
                assert(full_offsets(palette, PatternId(k as usize), r.pattern_states.0@[k]));
            }
        }
        r
    }

    /// The number of tile types the cell may still take.
    pub fn get_type_count(&self) -> (r: u32)
        ensures
            r == self.flags().type_count(),
    {
        self.possible_flags.count()
    }

    /// The number of placements still possible.
    pub fn entropy(&self) -> (r: usize)
        ensures
            r == self.entropy_value(),
    {
        self.entropy
    }

    /// The tile type the cell stands for.
    pub fn to_tile_type(&self) -> (r: WorldTileType)
        ensures
            r == crate::world::world_tile_type_flags::tile_type_of_bits(self.flags()@),
    {
        self.possible_flags.get_tile_type()
    }
}

/// A prefix sum of numbers that are not negative is at most the whole sum.
pub proof fn lemma_prefix_sum_le(s: Seq<int>, k: int)
    requires
        0 <= k <= s.len(),
        forall|i: int| 0 <= i < s.len() ==> s[i] >= 0,
    ensures
        sum_int(s.take(k)) <= sum_int(s),
    decreases s.len(),
{
    if k < s.len() {
        assert(s.drop_last().take(k) =~= s.take(k));
        lemma_prefix_sum_le(s.drop_last(), k);
    } else {
        assert(s.take(k) =~= s);
    }
}


impl SuperTile {
    /// The still possible placements of pattern `id` over the first `w`
    /// columns of its table, column by column, as (pattern, offset) pairs.
    pub open spec fn enabled_in(&self, id: int, w: int, h: int) -> Seq<(int, [usize; 2])>
        decreases w,
    {
        if w <= 0 {
            Seq::empty()
        } else {
            self.enabled_in(id, w - 1, h) + self.enabled_in_column(id, w - 1, h)
        }
    }

    /// The still possible placements of pattern `id` in column `x` of its
    /// table, over its first `h` rows.
    pub open spec fn enabled_in_column(&self, id: int, x: int, h: int) -> Seq<(int, [usize; 2])>
        decreases h,
    {
        if h <= 0 {
            Seq::empty()
        } else {
            let before = self.enabled_in_column(id, x, h - 1);
            if self.enabled(id, x, h - 1) {
                before.push((id, [x as usize, (h - 1) as usize]))
            } else {
                before
            }
        }
    }

    /// The still possible placements of the first `k` patterns.
    pub open spec fn enabled_upto(&self, palette: &PatternPalette, k: int) -> Seq<(int, [usize; 2])>
        decreases k,
    {
        if k <= 0 {
            Seq::empty()
        } else {
            self.enabled_upto(palette, k - 1) + self.enabled_in(
                k - 1,
                palette.size_of(k - 1)[0] as int,
                palette.size_of(k - 1)[1] as int,
            )
        }
    }

    /// The still possible placements in the first `h` rows of column `x`
    /// of pattern `id` are as many as its `true` entries there.
    proof fn lemma_column_len(&self, id: int, x: int, h: int)
        requires
            0 <= h,
        ensures
            self.enabled_in_column(id, x, h).len() == sum_int(
                Seq::new(h as nat, |y: int| if self.enabled(id, x, y) { 1int } else { 0int }),
            ),
        decreases h,
    {
        if h > 0 {
            self.lemma_column_len(id, x, h - 1);
            assert(Seq::new(h as nat, |y: int| if self.enabled(id, x, y) { 1int } else { 0int }).drop_last()
                =~= Seq::new((h - 1) as nat, |y: int| if self.enabled(id, x, y) { 1int } else { 0int }));
        }
    }

    /// The still possible placements in the first `w` columns of pattern
    /// `id`, each `h` high, are as many as the `true` entries there.
    proof fn lemma_in_len(&self, id: int, w: int, h: int)
        requires
            0 <= w,
            0 <= h,
            0 <= id < self.pattern_states.0@.len(),
            w <= self.pattern_states.0@[id]@.len(),
            forall|x: int| 0 <= x < w ==> #[trigger] self.pattern_states.0@[id]@[x]@.len() == h,
        ensures
            self.enabled_in(id, w, h).len() == sum_int(
                Seq::new(w as nat, |x: int| count_column(self.pattern_states.0@[id]@[x]@)),
            ),
        decreases w,
    {
        if w > 0 {
            self.lemma_in_len(id, w - 1, h);
            self.lemma_column_len(id, w - 1, h);
            let c = self.pattern_states.0@[id]@[w - 1]@;
            assert(Seq::new(h as nat, |y: int| if self.enabled(id, w - 1, y) { 1int } else { 0int }) =~= Seq::new(
                c.len(),
                |y: int| if c[y] { 1int } else { 0int },
            ));
            assert(Seq::new(w as nat, |x: int| count_column(self.pattern_states.0@[id]@[x]@)).drop_last() =~= Seq::new(
                (w - 1) as nat,
                |x: int| count_column(self.pattern_states.0@[id]@[x]@),
            ));
        }
    }

    /// The still possible placements of the first `k` patterns are as many
    /// as the `true` entries of their tables.
    proof fn lemma_upto_len(&self, palette: &PatternPalette, k: int)
        requires
            self.well_formed(palette),
            0 <= k <= palette.pattern_count(),
        ensures
            self.enabled_upto(palette, k).len() == sum_int(
                Seq::new(k as nat, |i: int| count_grid(self.pattern_states.0@[i]@)),
            ),
        decreases k,
    {
        if k > 0 {
            self.lemma_upto_len(palette, k - 1);
            let id = k - 1;
            let size = palette.size_of(id);
            assert(is_rect(grid_view(self.pattern_states.0@[id]@), size[0] as int, size[1] as int));
            assert forall|x: int| 0 <= x < size[0] implies #[trigger] self.pattern_states.0@[id]@[x]@.len() == size[1] by {
                assert(grid_view(self.pattern_states.0@[id]@)[x] == self.pattern_states.0@[id]@[x]@);
            }
            self.lemma_in_len(id, size[0] as int, size[1] as int);
            assert(Seq::new(size[0] as nat, |x: int| count_column(self.pattern_states.0@[id]@[x]@)) =~= Seq::new(
                self.pattern_states.0@[id]@.len(),
                |x: int| count_column(self.pattern_states.0@[id]@[x]@),
            ));
            assert(Seq::new(k as nat, |i: int| count_grid(self.pattern_states.0@[i]@)).drop_last() =~= Seq::new(
                (k - 1) as nat,
                |i: int| count_grid(self.pattern_states.0@[i]@),
            ));
        }
    }

    /// The entropy of a well-formed cell is the number of placements still
    /// possible over it, as `enabled_patterns` lists them.
    pub proof fn lemma_entropy_counts_enabled(&self, palette: &PatternPalette)
        requires
            self.well_formed(palette),
        ensures
            self.entropy_value() == self.enabled_upto(palette, palette.pattern_count() as int).len(),
    {
        self.lemma_upto_len(palette, palette.pattern_count() as int);
        assert(Seq::new(palette.pattern_count(), |i: int| count_grid(self.pattern_states.0@[i]@)) =~= Seq::new(
            self.pattern_states.0@.len(),
            |i: int| count_grid(self.pattern_states.0@[i]@),
        ));
    }

    /// The placement tables and `enabled` agree.
    pub proof fn lemma_tables_enabled(&self)
        ensures
            forall|i: int, a: int, b: int|
                0 <= i < self.tables().len() && 0 <= a < self.tables()[i].len() && 0 <= b < self.tables()[i][a].len()
                    ==> #[trigger] self.tables()[i][a][b] == self.enabled(i, a, b),
    {
    }

    /// Every still possible placement, pattern by pattern, column by column,
    /// row by row; as many as the entropy counts.
    pub fn enabled_patterns(&self, palette: &PatternPalette) -> (r: Vec<PatternOverlap>)
        requires
            self.well_formed(palette),
        ensures
            r.len() == self.enabled_upto(palette, palette.pattern_count() as int).len(),
            r.len() == self.entropy_value(),
            forall|i: int|
                0 <= i < r.len() ==> (#[trigger] r@[i]).pattern_id().0 == self.enabled_upto(
                    palette,
                    palette.pattern_count() as int,
                )[i].0 && r@[i].offset_in() == self.enabled_upto(palette, palette.pattern_count() as int)[i].1,
    {
        let n = self.pattern_states.0.len();
        let mut r: Vec<PatternOverlap> = Vec::new();
        let ghost mut model: Seq<(int, [usize; 2])> = Seq::empty();
        let mut id: usize = 0;
        while id < n
            invariant
                self.well_formed(palette),
                n == palette.pattern_count(),
                id <= n,
                model == self.enabled_upto(palette, id as int),
                r.len() == model.len(),
                forall|i: int| 0 <= i < r.len() ==> (#[trigger] r@[i]).pattern_id().0 == model[i].0 && r@[i].offset_in() == model[i].1,
            decreases n - id,
        {
            let size = palette.get_size(&PatternId(id));
            proof {
                assert(is_rect(grid_view(self.pattern_states.0@[id as int]@), size[0] as int, size[1] as int));
            }
            let mut x: usize = 0;
            let ghost front = model;
            while x < size[0]
                invariant
                    self.well_formed(palette),
                    n == palette.pattern_count(),
                    id < n,
                    size == palette.size_of(id as int),
                    is_rect(grid_view(self.pattern_states.0@[id as int]@), size[0] as int, size[1] as int),
                    x <= size[0],
                    model == front + self.enabled_in(id as int, x as int, size[1] as int),
                    r.len() == model.len(),
                    forall|i: int| 0 <= i < r.len() ==> (#[trigger] r@[i]).pattern_id().0 == model[i].0 && r@[i].offset_in() == model[i].1,
                decreases size[0] - x,
            {
                assert(grid_view(self.pattern_states.0@[id as int]@)[x as int] == self.pattern_states.0@[id as int]@[x as int]@);
                let mut y: usize = 0;
                let ghost front2 = model;
                while y < size[1]
                    invariant
                        self.well_formed(palette),
                        n == palette.pattern_count(),
                        id < n,
                        size == palette.size_of(id as int),
                        is_rect(grid_view(self.pattern_states.0@[id as int]@), size[0] as int, size[1] as int),
                        grid_view(self.pattern_states.0@[id as int]@)[x as int] == self.pattern_states.0@[id as int]@[x as int]@,
                        x < size[0],
                        y <= size[1],
                        model == front2 + self.enabled_in_column(id as int, x as int, y as int),
                        r.len() == model.len(),
                        forall|i: int| 0 <= i < r.len() ==> (#[trigger] r@[i]).pattern_id().0 == model[i].0 && r@[i].offset_in() == model[i].1,
                    decreases size[1] - y,
                {
                    if self.pattern_states.0[id][x][y] {
                        r.push(PatternOverlap { offset: [x, y], pattern: PatternId(id) });
                        proof {
                            model = model.push((id as int, [x, y]));
                        }
                    }
                    y += 1;
                    assert(model =~= front2 + self.enabled_in_column(id as int, x as int, y as int));
                }
                x += 1;
                assert(model =~= front + self.enabled_in(id as int, x as int, size[1] as int));
            }
            id += 1;
            assert(model =~= self.enabled_upto(palette, id as int));
        }
        proof {
            self.lemma_entropy_counts_enabled(palette);
        }
        r
    }

    /// Rules out the placement of `pattern_id` with the cell at `offset_pos`
    /// within it; `true` when it was still possible, which lowers the
    /// entropy by one.
    pub fn disable_pattern(&mut self, pattern_id: PatternId, offset_pos: [usize; 2]) -> (r: bool)
        requires
            pattern_id.0 < old(self).tables().len(),
            offset_pos[0] < old(self).tables()[pattern_id.0 as int].len(),
            offset_pos[1] < old(self).tables()[pattern_id.0 as int][offset_pos[0] as int].len(),
            old(self).entropy_consistent(),
        ensures
            r == old(self).enabled(pattern_id.0 as int, offset_pos[0] as int, offset_pos[1] as int),
            final(self).tables() == old(self).tables().update(
                pattern_id.0 as int,
                old(self).tables()[pattern_id.0 as int].update(
                    offset_pos[0] as int,
                    old(self).tables()[pattern_id.0 as int][offset_pos[0] as int].update(offset_pos[1] as int, false),
                ),
            ),
            final(self).entropy_value() == if r { old(self).entropy_value() - 1 } else { old(self).entropy_value() as int },
            final(self).entropy_consistent(),
            final(self).flags() == old(self).flags(),
            !final(self).enabled(pattern_id.0 as int, offset_pos[0] as int, offset_pos[1] as int),
            !r ==> final(self).tables() == old(self).tables() && final(self).entropy_value() == old(
                self,
            ).entropy_value(),
    {
        let id = pattern_id.0;
        let ghost t = old(self).tables();
        assert(t[id as int] == grid_view(self.pattern_states.0@[id as int]@));
        assert(grid_view(self.pattern_states.0@[id as int]@)[offset_pos[0] as int] == self.pattern_states.0@[id as int]@[offset_pos[0] as int]@);
        if self.pattern_states.0[id][offset_pos[0]][offset_pos[1]] {
            let ghost t1 = self.pattern_states.0@;
            self.pattern_states.0[id][offset_pos[0]][offset_pos[1]] = false;
            proof {
                lemma_count_switch_off(t1, self.pattern_states.0@, id as int, offset_pos[0] as int, offset_pos[1] as int);
                lemma_count_nonneg(self.pattern_states.0@);
                assert(self.tables() =~= t.update(
                    id as int,
                    t[id as int].update(offset_pos[0] as int, t[id as int][offset_pos[0] as int].update(offset_pos[1] as int, false)),
                )) by {
                    assert(grid_view(self.pattern_states.0@[id as int]@) =~= t[id as int].update(
                        offset_pos[0] as int,
                        t[id as int][offset_pos[0] as int].update(offset_pos[1] as int, false),
                    ));
                }
            }
            self.entropy = self.entropy - 1;
            return true;
        }
        proof {
            assert(t[id as int][offset_pos[0] as int][offset_pos[1] as int] == self.pattern_states.0@[id as int]@[offset_pos[0] as int]@[offset_pos[1] as int]);
            assert(t[id as int][offset_pos[0] as int].update(offset_pos[1] as int, false) =~= t[id as int][offset_pos[0] as int]);
            assert(t[id as int].update(offset_pos[0] as int, t[id as int][offset_pos[0] as int]) =~= t[id as int]);
            assert(t.update(id as int, t[id as int]) =~= t);
        }
        false
    }
}


/// Narrowing a set twice by the same set narrows it once, and narrowing a
/// set by one it lies within leaves it as it is.
proof fn lemma_narrow_twice(a: u8, b: u8)
    by (bit_vector)
    ensures
        (a & b) & a == a & b,
        (a & b) & b == a & b,
        a & b == a ==> a ^ (a & b) == 0,
        a ^ (a & b) == 0 ==> a & b == a,
{
}

/// The tables after keeping only the placements whose tile at the cell is
/// of a type in `tile_flags`.
pub open spec fn filtered_tables(
    t: Seq<Seq<Seq<bool>>>,
    palette: &PatternPalette,
    tile_flags: u8,
) -> Seq<Seq<Seq<bool>>> {
    Seq::new(
        t.len(),
        |i: int|
            Seq::new(
                t[i].len(),
                |x: int| Seq::new(t[i][x].len(), |y: int| t[i][x][y] && tile_flags & tile_bit(palette.tiles_of(i)[x][y]) != 0),
            ),
    )
}

impl SuperTile {
    /// Narrows the tile types of the cell to those also in `tile_flags`.
    /// When that removes any, every placement whose tile at the cell is not
    /// of a type in `tile_flags` is ruled out. Returns the removed types.
    pub fn set_flag(&mut self, tile_flags: WorldTileTypeFlags, palette: &PatternPalette) -> (r: WorldTileTypeFlags)
        requires
            old(self).well_formed(palette),
        ensures
            final(self).well_formed(palette),
            final(self).flags()@ == old(self).flags()@ & tile_flags@,
            r@ == old(self).flags()@ ^ (old(self).flags()@ & tile_flags@),
            r@ == 0 ==> final(self).tables() == old(self).tables(),
            r@ != 0 ==> final(self).tables() == filtered_tables(old(self).tables(), palette, tile_flags@),
            final(self).flags().type_count() <= old(self).flags().type_count(),
            final(self).entropy_value() <= old(self).entropy_value(),
            final(self).flags()@ & tile_flags@ == final(self).flags()@,
            old(self).flags()@ & tile_flags@ == old(self).flags()@ ==> r@ == 0 && final(self).tables()
                == old(self).tables() && final(self).flags()@ == old(self).flags()@ && final(self).entropy_value()
                == old(self).entropy_value(),
    {
        let new_flags = self.possible_flags.intersection(tile_flags);
        let removed_flags = self.possible_flags.symmetric_difference(new_flags);
        self.possible_flags = new_flags;
        proof {
            lemma_narrow_twice(old(self).flags()@, tile_flags@);
            crate::world::wfc::super_grid::lemma_subset_count(old(self).flags(), self.possible_flags);
        }
        if removed_flags.is_empty() {
            return removed_flags;
        }
        let ghost t0 = old(self).tables();
        let ghost target = filtered_tables(t0, palette, tile_flags@);
        let n = self.pattern_states.0.len();
        let mut id: usize = 0;
        while id < n
            invariant
                self.entropy <= old(self).entropy,
                palette.well_formed(),
                n == palette.pattern_count(),
                self.pattern_states.0.len() == n,
                self.possible_flags.well_formed(),
                self.possible_flags@ == old(self).flags()@ & tile_flags@,
                self.entropy == count_table(self.pattern_states.0@),
                self.same_shape(&*old(self)),
                t0 == old(self).tables(),
                target == filtered_tables(t0, palette, tile_flags@),
                old(self).well_formed(palette),
                id <= n,
                forall|i: int| 0 <= i < n ==> #[trigger] self.tables()[i] == if i < id { target[i] } else { t0[i] },
            decreases n - id,
        {
            let size = palette.get_size(&PatternId(id));
            proof {
                assert(is_rect(grid_view(old(self).pattern_states.0@[id as int]@), size[0] as int, size[1] as int));
                assert(t0[id as int] == grid_view(old(self).pattern_states.0@[id as int]@));
            }
            let mut x: usize = 0;
            while x < size[0]
                invariant
                    self.entropy <= old(self).entropy,
                    palette.well_formed(),
                    n == palette.pattern_count(),
                    self.pattern_states.0.len() == n,
                    self.possible_flags.well_formed(),
                    self.possible_flags@ == old(self).flags()@ & tile_flags@,
                    self.entropy == count_table(self.pattern_states.0@),
                    self.same_shape(&*old(self)),
                    t0 == old(self).tables(),
                    target == filtered_tables(t0, palette, tile_flags@),
                    id < n,
                    size == palette.size_of(id as int),
                    is_rect(t0[id as int], size[0] as int, size[1] as int),
                    x <= size[0],
                    forall|i: int| 0 <= i < n && i != id ==> #[trigger] self.tables()[i] == if i < id { target[i] } else { t0[i] },
                    forall|x1: int| 0 <= x1 < size[0] ==> #[trigger] self.tables()[id as int][x1] == if x1 < x { target[id as int][x1] } else { t0[id as int][x1] },
                decreases size[0] - x,
            {
                let mut y: usize = 0;
                while y < size[1]
                    invariant
                        self.entropy <= old(self).entropy,
                        palette.well_formed(),
                        n == palette.pattern_count(),
                        self.pattern_states.0.len() == n,
                        self.possible_flags.well_formed(),
                        self.possible_flags@ == old(self).flags()@ & tile_flags@,
                        self.entropy == count_table(self.pattern_states.0@),
                        self.same_shape(&*old(self)),
                        t0 == old(self).tables(),
                        target == filtered_tables(t0, palette, tile_flags@),
                        id < n,
                        size == palette.size_of(id as int),
                        is_rect(t0[id as int], size[0] as int, size[1] as int),
                        x < size[0],
                        y <= size[1],
                        forall|i: int| 0 <= i < n && i != id ==> #[trigger] self.tables()[i] == if i < id { target[i] } else { t0[i] },
                        forall|x1: int| 0 <= x1 < size[0] && x1 != x ==> #[trigger] self.tables()[id as int][x1] == if x1 < x { target[id as int][x1] } else { t0[id as int][x1] },
                        forall|y1: int| 0 <= y1 < size[1] ==> #[trigger] self.tables()[id as int][x as int][y1] == if y1 < y { target[id as int][x as int][y1] } else { t0[id as int][x as int][y1] },
                    decreases size[1] - y,
                {
                    let ghost before = *self;
                    assert(self.tables()[id as int] == grid_view(self.pattern_states.0@[id as int]@));
                    assert(grid_view(self.pattern_states.0@[id as int]@)[x as int] == self.pattern_states.0@[id as int]@[x as int]@);
                    if self.pattern_states.0[id][x][y] {
                        let tile = palette.get_tile_type(&PatternId(id), [x, y]);
                        let keep = tile_flags.contains(WorldTileTypeFlags::from_tile_type(tile));
                        proof {
                            crate::world::world_tile_type_flags::lemma_contains_bit(tile_flags@);
                        }
                        assert(keep == tile_flags.has(palette.tiles_of(id as int)[x as int][y as int]));
                        if !keep {
                            let ghost t1 = self.pattern_states.0@;
                            self.pattern_states.0[id][x][y] = false;
                            proof {
                                lemma_count_switch_off(t1, self.pattern_states.0@, id as int, x as int, y as int);
                                lemma_count_nonneg(self.pattern_states.0@);
                                assert forall|i: int| 0 <= i < n && i != id implies #[trigger] self.tables()[i] == before.tables()[i] by {}
                                assert(grid_view(self.pattern_states.0@[id as int]@) =~= before.tables()[id as int].update(
                                    x as int,
                                    before.tables()[id as int][x as int].update(y as int, false),
                                ));
                                assert(self.tables()[id as int] == before.tables()[id as int].update(
                                    x as int,
                                    before.tables()[id as int][x as int].update(y as int, false),
                                ));
                                assert(self.same_shape(&before));
                                SuperTile::lemma_same_shape_trans(self, &before, &*old(self));
                            }
                            self.entropy = self.entropy - 1;
                        }
                    }
                    y += 1;
                }
                x += 1;
            }
            proof {
                assert(self.tables()[id as int] =~= target[id as int]);
            }
            id += 1;
        }
        proof {
            assert(self.tables() =~= target);
            SuperTile::lemma_well_formed_by_shape(self, &*old(self), palette);
        }
        removed_flags
    }
}


impl SuperTile {
    /// What pattern `id` offers at position `[x][y]` of the patterns: the
    /// flag of its tile there, if its placement with the cell there is still
    /// possible.
    pub open spec fn offered_by(&self, palette: &PatternPalette, id: int, x: int, y: int) -> u8 {
        if palette.size_of(id)[0] > x && palette.size_of(id)[1] > y && self.enabled(id, x, y) {
            tile_bit(palette.tiles_of(id)[x][y])
        } else {
            0
        }
    }

    /// The union of what the first `k` patterns offer at `[x][y]`.
    pub open spec fn offered_upto(&self, palette: &PatternPalette, x: int, y: int, k: int) -> u8
        decreases k,
    {
        if k <= 0 {
            0
        } else {
            self.offered_upto(palette, x, y, k - 1) | self.offered_by(palette, k - 1, x, y)
        }
    }

    /// The intersection, starting from all tile types, of what the patterns
    /// offer at the positions before `[x][y]`, column by column over `rows`
    /// rows.
    pub open spec fn offered_through(&self, palette: &PatternPalette, rows: int, x: int, y: int) -> u8
        decreases x, y,
    {
        if x <= 0 && y <= 0 {
            all_bits()
        } else if y <= 0 {
            self.offered_through(palette, rows, x - 1, rows)
        } else {
            self.offered_through(palette, rows, x, y - 1) & self.offered_upto(palette, x, y - 1, palette.pattern_count() as int)
        }
    }

    /// Sets the tile types of the cell to those that every position of the
    /// largest pattern size is offered by some still possible placement, and
    /// returns the types this removed or added.
    pub fn recalculate_possible_flags(&mut self, palette: &PatternPalette) -> (r: WorldTileTypeFlags)
        requires
            old(self).well_formed(palette),
        ensures
            final(self).well_formed(palette),
            final(self).tables() == old(self).tables(),
            final(self).flags()@ == old(self).offered_through(palette, palette.max_size()[1] as int, palette.max_size()[0] as int, 0),
            r@ == old(self).flags()@ ^ final(self).flags()@,
    {
        let max_size = palette.get_max_size();
        let n = self.pattern_states.0.len();
        proof {
            palette.lemma_well_formed();
        }
        let mut acc = WorldTileTypeFlags::all();
        let mut x: usize = 0;
        while x < max_size[0]
            invariant
                self.well_formed(palette),
                max_size == palette.max_size(),
                n == palette.pattern_count(),
                x <= max_size[0],
                acc@ == self.offered_through(palette, max_size[1] as int, x as int, 0),
                acc.well_formed(),
            decreases max_size[0] - x,
        {
            let mut y: usize = 0;
            while y < max_size[1]
                invariant
                    self.well_formed(palette),
                    max_size == palette.max_size(),
                    n == palette.pattern_count(),
                    x < max_size[0],
                    y <= max_size[1],
                    acc@ == self.offered_through(palette, max_size[1] as int, x as int, y as int),
                    acc.well_formed(),
                decreases max_size[1] - y,
            {
                let mut offered = WorldTileTypeFlags::empty();
                let mut id: usize = 0;
                while id < n
                    invariant
                        self.well_formed(palette),
                        n == palette.pattern_count(),
                        id <= n,
                        offered@ == self.offered_upto(palette, x as int, y as int, id as int),
                        offered.well_formed(),
                    decreases n - id,
                {
                    let size = palette.get_size(&PatternId(id));
                    if size[0] > x && size[1] > y {
                        proof {
                            assert(is_rect(grid_view(self.pattern_states.0@[id as int]@), size[0] as int, size[1] as int));
                            assert(grid_view(self.pattern_states.0@[id as int]@)[x as int] == self.pattern_states.0@[id as int]@[x as int]@);
                        }
                        if self.pattern_states.0[id][x][y] {
                            let flag = WorldTileTypeFlags::from_tile_type(palette.get_tile_type(&PatternId(id), [x, y]));
                            offered = offered.union(flag);
                        } else {
                            proof {
                                crate::world::wfc::pattern_store::lemma_or_zero(offered@);
                            }
                        }
                    } else {
                        proof {
                            crate::world::wfc::pattern_store::lemma_or_zero(offered@);
                        }
                    }
                    id += 1;
                }
                acc = acc.intersection(offered);
                y += 1;
            }
            x += 1;
        }
        let removed_flags = self.possible_flags.symmetric_difference(acc);
        self.possible_flags = acc;
        removed_flags
    }

    /// The placements among `overlaps` whose tile at the cell is of a type
    /// the cell may still take.
    pub open spec fn candidates_in(&self, palette: &PatternPalette, overlaps: Seq<(int, [usize; 2])>) -> Seq<(int, [usize; 2])>
        decreases overlaps.len(),
    {
        if overlaps.len() == 0 {
            Seq::empty()
        } else {
            let before = self.candidates_in(palette, overlaps.drop_last());
            let o = overlaps.last();
            if self.flags().has(palette.tiles_of(o.0)[o.1[0] as int][o.1[1] as int]) {
                before.push(o)
            } else {
                before
            }
        }
    }

    /// The still possible placements whose tile at the cell is of a type the
    /// cell may still take.
    pub open spec fn candidates(&self, palette: &PatternPalette) -> Seq<(int, [usize; 2])> {
        self.candidates_in(palette, self.enabled_upto(palette, palette.pattern_count() as int))
    }

    /// Collapses the cell to the tile type of one candidate placement, drawn
    /// evenly at random, as `set_flag` does, and returns the tile types the
    /// cell had before, with that type switched.
    pub fn pop_random_pattern(&mut self, palette: &PatternPalette) -> (r: WorldTileTypeFlags)
        requires
            old(self).well_formed(palette),
            old(self).candidates(palette).len() > 0,
        ensures
            final(self).well_formed(palette),
            exists|i: int|
                0 <= i < old(self).candidates(palette).len() && #[trigger] old(self).candidates(palette)[i] == old(self).candidates(palette)[i] && {
                    let o = old(self).candidates(palette)[i];
                    let f = tile_bit(palette.tiles_of(o.0)[o.1[0] as int][o.1[1] as int]);
                    &&& final(self).flags()@ == old(self).flags()@ & f
                    &&& r@ == old(self).flags()@ ^ f
                    &&& old(self).flags()@ ^ (old(self).flags()@ & f) == 0 ==> final(self).tables() == old(self).tables()
                    &&& old(self).flags()@ ^ (old(self).flags()@ & f) != 0 ==> final(self).tables() == filtered_tables(
                        old(self).tables(),
                        palette,
                        f,
                    )
                },
    {
        let overlaps = self.enabled_patterns(palette);
        let ghost model = self.enabled_upto(palette, palette.pattern_count() as int);
        proof {
            self.lemma_enabled_in_range(palette);
        }
        let mut candidates: Vec<PatternOverlap> = Vec::new();
        let ghost mut cmodel: Seq<(int, [usize; 2])> = Seq::empty();
        let mut k: usize = 0;
        while k < overlaps.len()
            invariant
                self.well_formed(palette),
                model == self.enabled_upto(palette, palette.pattern_count() as int),
                overlaps.len() == model.len(),
                forall|i: int| 0 <= i < overlaps.len() ==> (#[trigger] overlaps@[i]).pattern_id().0 == model[i].0 && overlaps@[i].offset_in() == model[i].1,
                forall|i: int| 0 <= i < model.len() ==> 0 <= (#[trigger] model[i]).0 < palette.pattern_count() && model[i].1[0] < palette.size_of(model[i].0)[0] && model[i].1[1] < palette.size_of(model[i].0)[1],
                k <= overlaps.len(),
                cmodel == self.candidates_in(palette, model.take(k as int)),
                candidates.len() == cmodel.len(),
                forall|i: int| 0 <= i < candidates.len() ==> (#[trigger] candidates@[i]).pattern_id().0 == cmodel[i].0 && candidates@[i].offset_in() == cmodel[i].1,
                forall|i: int| 0 <= i < cmodel.len() ==> 0 <= (#[trigger] cmodel[i]).0 < palette.pattern_count() && cmodel[i].1[0] < palette.size_of(cmodel[i].0)[0] && cmodel[i].1[1] < palette.size_of(cmodel[i].0)[1],
            decreases overlaps.len() - k,
        {
            let overlap = overlaps[k];
            assert(model.take(k + 1).drop_last() =~= model.take(k as int));
            let tile = palette.get_tile_type(&overlap.pattern, overlap.offset);
            proof {
                crate::world::world_tile_type_flags::lemma_contains_bit(self.possible_flags@);
            }
            if self.possible_flags.contains(WorldTileTypeFlags::from_tile_type(tile)) {
                candidates.push(overlap);
                proof {
                    cmodel = cmodel.push(model[k as int]);
                }
            }
            k += 1;
        }
        assert(model.take(overlaps.len() as int) =~= model);
        let random = crate::world::random::random_below(candidates.len() as u128) as usize;
        let chosen = candidates[random];
        let new_flag = WorldTileTypeFlags::from_tile_type(palette.get_tile_type(&chosen.pattern, chosen.offset));
        let possible = self.possible_flags;
        self.set_flag(new_flag, palette);
        proof {
            assert(old(self).candidates(palette)[random as int] == old(self).candidates(palette)[random as int]);
        }
        possible.symmetric_difference(new_flag)
    }

    /// The still possible placements lie inside their patterns.
    pub proof fn lemma_enabled_in_range(&self, palette: &PatternPalette)
        requires
            self.well_formed(palette),
        ensures
            forall|i: int|
                0 <= i < self.enabled_upto(palette, palette.pattern_count() as int).len() ==> 0 <= (#[trigger] self.enabled_upto(
                    palette,
                    palette.pattern_count() as int,
                )[i]).0 < palette.pattern_count() && self.enabled_upto(palette, palette.pattern_count() as int)[i].1[0]
                    < palette.size_of(self.enabled_upto(palette, palette.pattern_count() as int)[i].0)[0]
                    && self.enabled_upto(palette, palette.pattern_count() as int)[i].1[1]
                    < palette.size_of(self.enabled_upto(palette, palette.pattern_count() as int)[i].0)[1],
    {
        self.lemma_enabled_upto_in_range(palette, palette.pattern_count() as int);
    }

    proof fn lemma_enabled_upto_in_range(&self, palette: &PatternPalette, k: int)
        requires
            0 <= k <= palette.pattern_count(),
        ensures
            forall|i: int|
                0 <= i < self.enabled_upto(palette, k).len() ==> 0 <= (#[trigger] self.enabled_upto(palette, k)[i]).0 < k
                    && self.enabled_upto(palette, k)[i].1[0] < palette.size_of(self.enabled_upto(palette, k)[i].0)[0]
                    && self.enabled_upto(palette, k)[i].1[1] < palette.size_of(self.enabled_upto(palette, k)[i].0)[1],
        decreases k,
    {
        if k > 0 {
            self.lemma_enabled_upto_in_range(palette, k - 1);
            let w = palette.size_of(k - 1)[0] as int;
            let h = palette.size_of(k - 1)[1] as int;
            self.lemma_enabled_in_in_range(k - 1, w, h);
            let a = self.enabled_upto(palette, k - 1);
            let b = self.enabled_in(k - 1, w, h);
            assert forall|i: int| 0 <= i < (a + b).len() implies 0 <= (#[trigger] (a + b)[i]).0 < k && (a + b)[i].1[0] < palette.size_of((a + b)[i].0)[0]
                && (a + b)[i].1[1] < palette.size_of((a + b)[i].0)[1] by {
                if i >= a.len() {
                    assert((a + b)[i] == b[i - a.len()]);
                }
            }
        }
    }

    proof fn lemma_enabled_in_in_range(&self, id: int, w: int, h: int)
        requires
            0 <= h <= usize::MAX,
            w <= usize::MAX,
        ensures
            forall|i: int|
                0 <= i < self.enabled_in(id, w, h).len() ==> (#[trigger] self.enabled_in(id, w, h)[i]).0 == id
                    && 0 <= self.enabled_in(id, w, h)[i].1[0] < w && self.enabled_in(id, w, h)[i].1[1] < h,
        decreases w,
    {
        if w > 0 {
            self.lemma_enabled_in_in_range(id, w - 1, h);
            self.lemma_column_in_range(id, w - 1, h);
            let a = self.enabled_in(id, w - 1, h);
            let b = self.enabled_in_column(id, w - 1, h);
            assert forall|i: int| 0 <= i < (a + b).len() implies (#[trigger] (a + b)[i]).0 == id && 0 <= (a + b)[i].1[0] < w
                && (a + b)[i].1[1] < h by {
                if i >= a.len() {
                    assert((a + b)[i] == b[i - a.len()]);
                }
            }
        }
    }

    proof fn lemma_column_in_range(&self, id: int, x: int, h: int)
        requires
            0 <= x <= usize::MAX,
            h <= usize::MAX,
        ensures
            forall|i: int|
                0 <= i < self.enabled_in_column(id, x, h).len() ==> (#[trigger] self.enabled_in_column(id, x, h)[i]).0 == id
                    && self.enabled_in_column(id, x, h)[i].1[0] == x && self.enabled_in_column(id, x, h)[i].1[1] < h,
        decreases h,
    {
        if h > 0 {
            self.lemma_column_in_range(id, x, h - 1);
            let e: (int, [usize; 2]) = (id, [x as usize, (h - 1) as usize]);
            assert(e.1[0] == x && e.1[1] == h - 1);
            let before = self.enabled_in_column(id, x, h - 1);
            if self.enabled(id, x, h - 1) {
                assert(self.enabled_in_column(id, x, h) == before.push(e));
            }
        }
    }
}

} // verus!
