use vstd::prelude::*;

use crate::game::world_tile_type::WorldTileType;
use crate::world::grid::{copy_grid, grid_view, is_rect, lemma_grid_view_push};

verus! {

/// A rectangle of tiles, stored column by column: `data[x][y]`.
#[derive(Debug, Clone)]
pub struct TileGrid {
    pub data: Vec<Vec<WorldTileType>>,
    pub grid_size: [usize; 2],
}

/// A column of `n` copies of `t`.
pub open spec fn filled_column<T>(t: T, n: int) -> Seq<T> {
    Seq::new(n as nat, |_i: int| t)
}

/// `n` columns of `h` copies of `t`.
pub open spec fn filled_grid<T>(t: T, w: int, h: int) -> Seq<Seq<T>> {
    Seq::new(w as nat, |_i: int| filled_column(t, h))
}

/// A column cut or padded with `fill` to length `n`.
pub open spec fn resized_column<T>(c: Seq<T>, n: int, fill: T) -> Seq<T> {
    if n <= c.len() {
        c.take(n)
    } else {
        c + filled_column(fill, n - c.len())
    }
}

/// A grid resized: every column cut or padded with `fill` to `h`, then the
/// columns cut or padded with columns of `fill` to `w`.
pub open spec fn resized_grid<T>(g: Seq<Seq<T>>, w: int, h: int, fill: T) -> Seq<Seq<T>> {
    let cols = Seq::new(g.len(), |x: int| resized_column(g[x], h, fill));
    if w <= cols.len() {
        cols.take(w)
    } else {
        cols + filled_grid(fill, w - cols.len(), h)
    }
}

/// The grid after `TileGrid::shift`: each column gets `sy` tiles `t` in front
/// and keeps its first `h - sy` tiles, then `sx` columns of `h` tiles `t`
/// come in front and the first `w - sx` columns stay.
pub open spec fn shifted_grid(
    g: Seq<Seq<WorldTileType>>,
    w: int,
    h: int,
    sx: int,
    sy: int,
    t: WorldTileType,
) -> Seq<Seq<WorldTileType>> {
    let cols = Seq::new(g.len(), |x: int| filled_column(t, sy) + g[x].take(h - sy));
    filled_grid(t, sx, h) + cols.take(w - sx)
}

impl TileGrid {
    /// The tiles of the grid.
    pub open spec fn tiles(&self) -> Seq<Seq<WorldTileType>> {
        grid_view(self.data@)
    }

    /// The grid holds `grid_size[0]` columns of `grid_size[1]` tiles.
    pub open spec fn well_formed(&self) -> bool {
        is_rect(self.tiles(), self.grid_size[0] as int, self.grid_size[1] as int)
    }

    pub fn new_filled(tile_type: WorldTileType, grid_size: [usize; 2]) -> (r: Self)
        ensures
            r.grid_size == grid_size,
            r.tiles() == filled_grid(tile_type, grid_size[0] as int, grid_size[1] as int),
            r.well_formed(),
    {
        let data = filled_rows(tile_type, grid_size[0], grid_size[1]);
        let r = TileGrid { grid_size, data };
        assert(r.tiles() =~= filled_grid(tile_type, grid_size[0] as int, grid_size[1] as int));
        r
    }

    pub fn set(&mut self, x: usize, y: usize, tile_type: WorldTileType)
        requires
            x < old(self).data.len(),
            y < old(self).data@[x as int].len(),
        ensures
            final(self).grid_size == old(self).grid_size,
            final(self).tiles() == old(self).tiles().update(
                x as int,
                old(self).tiles()[x as int].update(y as int, tile_type),
            ),
    {
        self.data[x][y] = tile_type;
        assert(self.tiles() =~= old(self).tiles().update(
            x as int,
            old(self).tiles()[x as int].update(y as int, tile_type),
        ));
    }

    pub fn get(&self, x: usize, y: usize) -> (r: WorldTileType)
        requires
            x < self.data.len(),
            y < self.data@[x as int].len(),
        ensures
            r == self.tiles()[x as int][y as int],
    {
        self.data[x][y]
    }

    /// Cuts or pads every column with water to `new_size[1]` tiles, then cuts
    /// or pads the grid with water columns to `new_size[0]` columns.
    pub fn resize(&mut self, new_size: [usize; 2])
        ensures
            final(self).grid_size == new_size,
            final(self).tiles() == resized_grid(
                old(self).tiles(),
                new_size[0] as int,
                new_size[1] as int,
                WorldTileType::Water,
            ),
    {
        self.grid_size = new_size;
        self.data = resized_rows(&self.data, new_size[0], new_size[1], WorldTileType::Water);
    }

    /// Moves the tiles by `shift`, filling the freed places with `new` and
    /// dropping what leaves the grid.
    pub fn shift(&mut self, shift: [usize; 2], new: WorldTileType)
        requires
            shift[0] <= old(self).grid_size[0],
            shift[1] <= old(self).grid_size[1],
            forall|i: int|
                0 <= i < old(self).data.len() ==> #[trigger] old(self).data@[i].len()
                    >= old(self).grid_size[1] - shift[1],
            old(self).data.len() >= old(self).grid_size[0] - shift[0],
        ensures
            final(self).grid_size == old(self).grid_size,
            final(self).tiles() == shifted_grid(
                old(self).tiles(),
                old(self).grid_size[0] as int,
                old(self).grid_size[1] as int,
                shift[0] as int,
                shift[1] as int,
                new,
            ),
    {
        let ghost g = old(self).tiles();
        let w = self.grid_size[0];
        let h = self.grid_size[1];
        let ghost cols_spec = Seq::new(
            g.len(),
            |x: int| filled_column(new, shift[1] as int) + g[x].take(h - shift[1]),
        );
        let mut cols: Vec<Vec<WorldTileType>> = Vec::new();
        let mut x: usize = 0;
        while x < self.data.len()
            invariant
                x <= self.data.len(),
                g == grid_view(self.data@),
                h == self.grid_size[1],
                shift[1] <= h,
                cols_spec == Seq::new(
                    g.len(),
                    |x: int| filled_column(new, shift[1] as int) + g[x].take(h - shift[1]),
                ),
                forall|i: int| 0 <= i < self.data.len() ==> #[trigger] self.data@[i].len() >= h - shift[1],
                cols.len() == x,
                forall|i: int| 0 <= i < x ==> #[trigger] cols@[i]@ == cols_spec[i],
            decreases self.data.len() - x,
        {
            let mut column = filled_vec(new, shift[1]);
            let mut y: usize = 0;
            let ghost front = column@;
            while y < h - shift[1]
                invariant
                    x < self.data.len(),
                    y <= h - shift[1],
                    shift[1] <= h,
                    self.data@[x as int].len() >= h - shift[1],
                    column@ == front + self.data@[x as int]@.take(y as int),
                decreases h - shift[1] - y,
            {
                column.push(self.data[x][y]);
                y += 1;
                assert(column@ =~= front + self.data@[x as int]@.take(y as int));
            }
            cols.push(column);
            x += 1;
        }
        assert(grid_view(cols@) =~= cols_spec);
        let mut data: Vec<Vec<WorldTileType>> = Vec::new();
        let mut i: usize = 0;
        while i < shift[0]
            invariant
                i <= shift[0],
                data.len() == i,
                forall|k: int| 0 <= k < i ==> #[trigger] data@[k]@ == filled_column(new, h as int),
            decreases shift[0] - i,
        {
            data.push(filled_vec(new, h));
            i += 1;
        }
        let ghost front_cols = data@;
        let mut k: usize = 0;
        while k < w - shift[0]
            invariant
                k <= w - shift[0],
                shift[0] <= w,
                cols.len() >= w - shift[0],
                data.len() == shift[0] + k,
                data@.take(shift[0] as int) == front_cols,
                forall|j: int| 0 <= j < k ==> #[trigger] data@[shift[0] + j]@ == cols@[j]@,
            decreases w - shift[0] - k,
        {
            let column = copy_vec(&cols[k]);
            data.push(column);
            k += 1;
            assert(data@.take(shift[0] as int) =~= front_cols);
        }
        assert(grid_view(data@) =~= filled_grid(new, shift[0] as int, h as int) + cols_spec.take(
            w - shift[0],
        )) by {
            assert forall|j: int| 0 <= j < shift[0] implies data@[j] == front_cols[j] by {
                assert(data@.take(shift[0] as int)[j] == data@[j]);
            }
            let rhs = filled_grid(new, shift[0] as int, h as int) + cols_spec.take(w - shift[0]);
            assert forall|j: int| 0 <= j < w implies grid_view(data@)[j] == rhs[j] by {
                if j < shift[0] {
                    assert(data@.take(shift[0] as int)[j] == data@[j]);
                } else {
                    assert(data@[shift[0] + (j - shift[0])]@ == cols@[j - shift[0]]@);
                    assert(grid_view(cols@)[j - shift[0]] == cols@[j - shift[0]]@);
                }
            }
        }
        self.data = data;
    }

    /// The grid with the columns of `chain` appended below its own columns.
    pub fn chain_below(&self, chain: Self) -> (r: Self)
        requires
            chain.data.len() >= self.data.len(),
            self.grid_size[1] + chain.grid_size[1] <= usize::MAX,
        ensures
            r.grid_size == [self.grid_size[0], (self.grid_size[1] + chain.grid_size[1]) as usize],
            r.tiles() == Seq::new(
                self.tiles().len(),
                |x: int| self.tiles()[x] + chain.tiles()[x],
            ),
    {
        let new_size = [self.grid_size[0], self.grid_size[1] + chain.grid_size[1]];
        let ghost spec_tiles = Seq::new(
            self.tiles().len(),
            |x: int| self.tiles()[x] + chain.tiles()[x],
        );
        let mut data: Vec<Vec<WorldTileType>> = Vec::new();
        let mut x: usize = 0;
        while x < self.data.len()
            invariant
                x <= self.data.len(),
                chain.data.len() >= self.data.len(),
                spec_tiles == Seq::new(
                    self.tiles().len(),
                    |x: int| self.tiles()[x] + chain.tiles()[x],
                ),
                data.len() == x,
                forall|i: int| 0 <= i < x ==> #[trigger] data@[i]@ == spec_tiles[i],
            decreases self.data.len() - x,
        {
            let mut column = copy_vec(&self.data[x]);
            let mut y: usize = 0;
            let ghost front = column@;
            while y < chain.data[x].len()
                invariant
                    x < self.data.len(),
                    x < chain.data.len(),
                    y <= chain.data@[x as int].len(),
                    column@ == front + chain.data@[x as int]@.take(y as int),
                decreases chain.data@[x as int].len() - y,
            {
                column.push(chain.data[x][y]);
                y += 1;
                assert(column@ =~= front + chain.data@[x as int]@.take(y as int));
            }
            assert(column@ =~= spec_tiles[x as int]);
            data.push(column);
            x += 1;
        }
        let r = TileGrid { data, grid_size: new_size };
        assert(r.tiles() =~= spec_tiles);
        r
    }

    /// The grid with the columns of `chain` appended to the right.
    pub fn chain_right(&self, chain: Self) -> (r: Self)
        requires
            self.grid_size[0] + chain.grid_size[0] <= usize::MAX,
        ensures
            r.grid_size == [(self.grid_size[0] + chain.grid_size[0]) as usize, self.grid_size[1]],
            r.tiles() == self.tiles() + chain.tiles(),
    {
        let new_size = [self.grid_size[0] + chain.grid_size[0], self.grid_size[1]];
        let mut data = copy_grid(&self.data);
        let mut x: usize = 0;
        let ghost front = grid_view(data@);
        while x < chain.data.len()
            invariant
                x <= chain.data.len(),
                grid_view(data@) == front + chain.tiles().take(x as int),
            decreases chain.data.len() - x,
        {
            let ghost prev = data@;
            data.push(copy_vec(&chain.data[x]));
            proof {
                lemma_grid_view_push(prev, data@[prev.len() as int]);
            }
            x += 1;
            assert(grid_view(data@) =~= front + chain.tiles().take(x as int));
        }
        let r = TileGrid { data, grid_size: new_size };
        assert(r.tiles() =~= self.tiles() + chain.tiles());
        r
    }
}

/// A vector of `n` copies of `t`.
pub fn filled_vec<T: Copy>(t: T, n: usize) -> (r: Vec<T>)
    ensures
        r@ == Seq::new(n as nat, |_i: int| t),
{
    let mut r: Vec<T> = Vec::with_capacity(n);
    let mut i: usize = 0;
    while i < n
        invariant
            i <= n,
            r@ == Seq::new(i as nat, |_k: int| t),
        decreases n - i,
    {
        r.push(t);
        i += 1;
        assert(r@ =~= Seq::new(i as nat, |_k: int| t));
    }
    r
}

/// A copy of a vector.
pub fn copy_vec<T: Copy>(v: &Vec<T>) -> (r: Vec<T>)
    ensures
        r@ == v@,
{
    let mut r: Vec<T> = Vec::with_capacity(v.len());
    let mut i: usize = 0;
    while i < v.len()
        invariant
            i <= v.len(),
            r@ == v@.take(i as int),
        decreases v.len() - i,
    {
        r.push(v[i]);
        i += 1;
        assert(r@ =~= v@.take(i as int));
    }
    assert(r@ =~= v@);
    r
}

/// Cuts or pads a column with `fill` to `n` tiles.
fn resize_column<T: Copy>(column: &mut Vec<T>, n: usize, fill: T)
    ensures
        final(column)@ == resized_column(old(column)@, n as int, fill),
{
    if n <= column.len() {
        column.truncate(n);
    } else {
        let ghost before = column@;
        while column.len() < n
            invariant
                column.len() <= n,
                column@ == before + filled_column(fill, column.len() - before.len()),
            decreases n - column.len(),
        {
            column.push(fill);
            assert(column@ =~= before + filled_column(fill, column.len() - before.len()));
        }
    }
}

/// `w` columns of `h` copies of `t`.
pub fn filled_rows<T: Copy>(t: T, w: usize, h: usize) -> (r: Vec<Vec<T>>)
    ensures
        grid_view(r@) == filled_grid(t, w as int, h as int),
        is_rect(grid_view(r@), w as int, h as int),
{
    let mut data: Vec<Vec<T>> = Vec::new();
    let mut x: usize = 0;
    while x < w
        invariant
            x <= w,
            data.len() == x,
            forall|i: int| 0 <= i < x ==> #[trigger] data@[i]@ == filled_column(t, h as int),
        decreases w - x,
    {
        let column = filled_vec(t, h);
        data.push(column);
        x += 1;
    }
    assert(grid_view(data@) =~= filled_grid(t, w as int, h as int));
    data
}

/// The columns cut or padded with `fill` to `h` tiles, then cut or padded
/// with columns of `fill` to `w` columns.
pub fn resized_rows<T: Copy>(data: &Vec<Vec<T>>, w: usize, h: usize, fill: T) -> (r: Vec<Vec<T>>)
    ensures
        grid_view(r@) == resized_grid(grid_view(data@), w as int, h as int, fill),
{
    let ghost g = grid_view(data@);
    let mut cols: Vec<Vec<T>> = Vec::new();
    let mut x: usize = 0;
    while x < data.len()
        invariant
            x <= data.len(),
            g == grid_view(data@),
            cols.len() == x,
            forall|i: int| 0 <= i < x ==> #[trigger] cols@[i]@ == resized_column(g[i], h as int, fill),
        decreases data.len() - x,
    {
        let mut column = copy_vec(&data[x]);
        resize_column(&mut column, h, fill);
        cols.push(column);
        x += 1;
    }
    let ghost mid = Seq::new(g.len(), |i: int| resized_column(g[i], h as int, fill));
    assert(grid_view(cols@) =~= mid);
    if w <= cols.len() {
        cols.truncate(w);
        assert(grid_view(cols@) =~= mid.take(w as int));
    } else {
        let ghost before = cols@;
        while cols.len() < w
            invariant
                cols.len() <= w,
                cols.len() >= before.len(),
                cols@.take(before.len() as int) == before,
                forall|i: int|
                    before.len() <= i < cols.len() ==> #[trigger] cols@[i]@ == filled_column(fill, h as int),
            decreases w - cols.len(),
        {
            let column = filled_vec(fill, h);
            cols.push(column);
            assert(cols@.take(before.len() as int) =~= before);
        }
        assert(grid_view(cols@) =~= mid + filled_grid(fill, w - mid.len(), h as int)) by {
            assert forall|i: int| 0 <= i < before.len() implies cols@[i] == before[i] by {
                assert(cols@.take(before.len() as int)[i] == cols@[i]);
            }
        }
    }
    cols
}

} // verus!
