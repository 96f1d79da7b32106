use vstd::prelude::*;

verus! {

/// The contents of a column-major grid of vectors.
pub open spec fn grid_view<T>(g: Seq<Vec<T>>) -> Seq<Seq<T>> {
    Seq::new(g.len(), |x: int| g[x]@)
}

/// Pushing a vector pushes its contents.
pub proof fn lemma_grid_view_push<T>(g: Seq<Vec<T>>, v: Vec<T>)
    ensures
        grid_view(g.push(v)) == grid_view(g).push(v@),
{
    assert(grid_view(g.push(v)) =~= grid_view(g).push(v@));
}

/// Column `i` of the view is the view of vector `i`.
pub proof fn lemma_grid_view_index<T>(g: Seq<Vec<T>>, i: usize)
    requires
        i < g.len(),
    ensures
        grid_view(g)[i as int] == g[i as int]@,
{
}

/// The `w` by `h` rectangle of `g` whose first cell is `[x][y]`.
pub open spec fn window<T>(g: Seq<Seq<T>>, x: int, y: int, w: int, h: int) -> Seq<Seq<T>> {
    Seq::new(w as nat, |i: int| g[x + i].subrange(y, y + h))
}

/// `g` has `w` columns of `h` cells each.
pub open spec fn is_rect<T>(g: Seq<Seq<T>>, w: int, h: int) -> bool {
    &&& g.len() == w
    &&& h >= 0
    &&& forall|x: int| 0 <= x < w ==> #[trigger] g[x].len() == h
}

/// The grid turned a quarter: cell `[x][y]` of the result is cell
/// `[w - 1 - y][x]` of `g`, and the result has `h` columns of `w` cells.
pub open spec fn rotated<T>(g: Seq<Seq<T>>, w: int, h: int) -> Seq<Seq<T>> {
    Seq::new(h as nat, |x: int| Seq::new(w as nat, |y: int| g[w - 1 - y][x]))
}

/// The grid mirrored along its first axis.
pub open spec fn flipped_x<T>(g: Seq<Seq<T>>, w: int, h: int) -> Seq<Seq<T>> {
    Seq::new(w as nat, |x: int| Seq::new(h as nat, |y: int| g[w - 1 - x][y]))
}

/// The grid mirrored along its second axis.
pub open spec fn flipped_y<T>(g: Seq<Seq<T>>, w: int, h: int) -> Seq<Seq<T>> {
    Seq::new(w as nat, |x: int| Seq::new(h as nat, |y: int| g[x][h - 1 - y]))
}

/// Two grids with the same shape and cells are equal.
pub proof fn lemma_grid_ext<T>(a: Seq<Seq<T>>, b: Seq<Seq<T>>, w: int, h: int)
    requires
        is_rect(a, w, h),
        is_rect(b, w, h),
        forall|x: int, y: int| 0 <= x < w && 0 <= y < h ==> a[x][y] == b[x][y],
    ensures
        a == b,
{
    assert forall|x: int| 0 <= x < w implies a[x] == b[x] by {
        assert(a[x] =~= b[x]);
    }
    assert(a =~= b);
}

/// The transforms keep a grid rectangular.
pub proof fn lemma_transforms_rect<T>(g: Seq<Seq<T>>, w: int, h: int)
    requires
        w >= 0,
        h >= 0,
    ensures
        is_rect(rotated(g, w, h), h, w),
        is_rect(flipped_x(g, w, h), w, h),
        is_rect(flipped_y(g, w, h), w, h),
{
}

/// Mirroring twice along the same axis gives the grid back.
pub proof fn lemma_flips_involutive<T>(g: Seq<Seq<T>>, w: int, h: int)
    requires
        is_rect(g, w, h),
    ensures
        flipped_x(flipped_x(g, w, h), w, h) == g,
        flipped_y(flipped_y(g, w, h), w, h) == g,
{
    lemma_transforms_rect(g, w, h);
    lemma_transforms_rect(flipped_x(g, w, h), w, h);
    lemma_transforms_rect(flipped_y(g, w, h), w, h);
    lemma_grid_ext(flipped_x(flipped_x(g, w, h), w, h), g, w, h);
    lemma_grid_ext(flipped_y(flipped_y(g, w, h), w, h), g, w, h);
}

/// Mirroring along both axes is the same in either order, and it is a half
/// turn.
pub proof fn lemma_flips_commute<T>(g: Seq<Seq<T>>, w: int, h: int)
    requires
        is_rect(g, w, h),
    ensures
        flipped_x(flipped_y(g, w, h), w, h) == flipped_y(flipped_x(g, w, h), w, h),
        rotated(rotated(g, w, h), h, w) == flipped_x(flipped_y(g, w, h), w, h),
{
    let fxy = flipped_x(flipped_y(g, w, h), w, h);
    let fyx = flipped_y(flipped_x(g, w, h), w, h);
    let r2 = rotated(rotated(g, w, h), h, w);
    lemma_transforms_rect(g, w, h);
    lemma_transforms_rect(flipped_y(g, w, h), w, h);
    lemma_transforms_rect(flipped_x(g, w, h), w, h);
    lemma_transforms_rect(rotated(g, w, h), h, w);
    lemma_grid_ext(fxy, fyx, w, h);
    lemma_grid_ext(r2, fxy, w, h);
}

/// Four quarter turns give the grid back.
pub proof fn lemma_rotation_four_times<T>(g: Seq<Seq<T>>, w: int, h: int)
    requires
        is_rect(g, w, h),
    ensures
        rotated(rotated(rotated(rotated(g, w, h), h, w), w, h), h, w) == g,
{
    let r1 = rotated(g, w, h);
    let r2 = rotated(r1, h, w);
    let r3 = rotated(r2, w, h);
    let r4 = rotated(r3, h, w);
    lemma_transforms_rect(g, w, h);
    lemma_transforms_rect(r1, h, w);
    lemma_transforms_rect(r2, w, h);
    lemma_transforms_rect(r3, h, w);
    lemma_grid_ext(r4, g, w, h);
}

/// A copy of a grid of vectors.
pub fn copy_grid<T: Copy>(g: &Vec<Vec<T>>) -> (r: Vec<Vec<T>>)
    ensures
        grid_view(r@) == grid_view(g@),
{
    let mut r: Vec<Vec<T>> = Vec::new();
    let mut x: usize = 0;
    while x < g.len()
        invariant
            x <= g.len(),
            r.len() == x,
            forall|i: int| 0 <= i < x ==> #[trigger] r@[i]@ == g@[i]@,
        decreases g.len() - x,
    {
        let mut column: Vec<T> = Vec::new();
        let mut y: usize = 0;
        while y < g[x].len()
            invariant
                x < g.len(),
                y <= g@[x as int].len(),
                column@ == g@[x as int]@.take(y as int),
            decreases g@[x as int].len() - y,
        {
            column.push(g[x][y]);
            y += 1;
            assert(column@ =~= g@[x as int]@.take(y as int));
        }
        assert(column@ =~= g@[x as int]@);
        r.push(column);
        x += 1;
    }
    assert(grid_view(r@) =~= grid_view(g@));
    r
}

/// The grid turned a quarter.
pub fn rotate_grid<T: Copy>(g: &Vec<Vec<T>>, w: usize, h: usize) -> (r: Vec<Vec<T>>)
    requires
        is_rect(grid_view(g@), w as int, h as int),
    ensures
        grid_view(r@) == rotated(grid_view(g@), w as int, h as int),
{
    let ghost gv = grid_view(g@);
    let mut r: Vec<Vec<T>> = Vec::with_capacity(h);
    let mut x: usize = 0;
    while x < h
        invariant
            x <= h,
            gv == grid_view(g@),
            is_rect(gv, w as int, h as int),
            r.len() == x,
            forall|i: int| 0 <= i < x ==> #[trigger] r@[i]@ == rotated(gv, w as int, h as int)[i],
        decreases h - x,
    {
        let mut column: Vec<T> = Vec::with_capacity(w);
        let mut y: usize = 0;
        while y < w
            invariant
                x < h,
                y <= w,
                gv == grid_view(g@),
                is_rect(gv, w as int, h as int),
                column@ == rotated(gv, w as int, h as int)[x as int].take(y as int),
            decreases w - y,
        {
            assert(gv[w - 1 - y].len() == h);
            column.push(g[w - 1 - y][x]);
            y += 1;
            assert(column@ =~= rotated(gv, w as int, h as int)[x as int].take(y as int));
        }
        assert(column@ =~= rotated(gv, w as int, h as int)[x as int]);
        r.push(column);
        x += 1;
    }
    assert(grid_view(r@) =~= rotated(gv, w as int, h as int));
    r
}

/// The grid mirrored along its first axis.
pub fn flip_grid_x<T: Copy>(g: &Vec<Vec<T>>, w: usize, h: usize) -> (r: Vec<Vec<T>>)
    requires
        is_rect(grid_view(g@), w as int, h as int),
    ensures
        grid_view(r@) == flipped_x(grid_view(g@), w as int, h as int),
{
    let ghost gv = grid_view(g@);
    let mut r: Vec<Vec<T>> = Vec::with_capacity(w);
    let mut x: usize = 0;
    while x < w
        invariant
            x <= w,
            gv == grid_view(g@),
            is_rect(gv, w as int, h as int),
            r.len() == x,
            forall|i: int| 0 <= i < x ==> #[trigger] r@[i]@ == flipped_x(gv, w as int, h as int)[i],
        decreases w - x,
    {
        let mut column: Vec<T> = Vec::with_capacity(h);
        let mut y: usize = 0;
        while y < h
            invariant
                x < w,
                y <= h,
                gv == grid_view(g@),
                is_rect(gv, w as int, h as int),
                column@ == flipped_x(gv, w as int, h as int)[x as int].take(y as int),
            decreases h - y,
        {
            assert(gv[w - 1 - x].len() == h);
            column.push(g[w - 1 - x][y]);
            y += 1;
            assert(column@ =~= flipped_x(gv, w as int, h as int)[x as int].take(y as int));
        }
        assert(column@ =~= flipped_x(gv, w as int, h as int)[x as int]);
        r.push(column);
        x += 1;
    }
    assert(grid_view(r@) =~= flipped_x(gv, w as int, h as int));
    r
}

/// The grid mirrored along its second axis.
pub fn flip_grid_y<T: Copy>(g: &Vec<Vec<T>>, w: usize, h: usize) -> (r: Vec<Vec<T>>)
    requires
        is_rect(grid_view(g@), w as int, h as int),
    ensures
        grid_view(r@) == flipped_y(grid_view(g@), w as int, h as int),
{
    let ghost gv = grid_view(g@);
    let mut r: Vec<Vec<T>> = Vec::with_capacity(w);
    let mut x: usize = 0;
    while x < w
        invariant
            x <= w,
            gv == grid_view(g@),
            is_rect(gv, w as int, h as int),
            r.len() == x,
            forall|i: int| 0 <= i < x ==> #[trigger] r@[i]@ == flipped_y(gv, w as int, h as int)[i],
        decreases w - x,
    {
        let mut column: Vec<T> = Vec::with_capacity(h);
        let mut y: usize = 0;
        while y < h
            invariant
                x < w,
                y <= h,
                gv == grid_view(g@),
                is_rect(gv, w as int, h as int),
                column@ == flipped_y(gv, w as int, h as int)[x as int].take(y as int),
            decreases h - y,
        {
            assert(gv[x as int].len() == h);
            column.push(g[x][h - 1 - y]);
            y += 1;
            assert(column@ =~= flipped_y(gv, w as int, h as int)[x as int].take(y as int));
        }
        assert(column@ =~= flipped_y(gv, w as int, h as int)[x as int]);
        r.push(column);
        x += 1;
    }
    assert(grid_view(r@) =~= flipped_y(gv, w as int, h as int));
    r
}


/// The cells of the `w` by `h` rectangle of `data` whose first cell is
/// `[x][y]`.
pub fn cut_rect<T: Copy>(data: &Vec<Vec<T>>, x: usize, y: usize, w: usize, h: usize) -> (r: Vec<Vec<T>>)
    requires
        x + w <= data.len(),
        forall|i: int| x <= i < x + w ==> y + h <= #[trigger] data@[i].len(),
    ensures
        grid_view(r@) == window(grid_view(data@), x as int, y as int, w as int, h as int),
        is_rect(grid_view(r@), w as int, h as int),
{
    let ghost g = grid_view(data@);
    let mut r: Vec<Vec<T>> = Vec::new();
    let mut i: usize = 0;
    while i < w
        invariant
            i <= w,
            x + w <= data.len(),
            forall|i: int| x <= i < x + w ==> y + h <= #[trigger] data@[i].len(),
            g == grid_view(data@),
            r.len() == i,
            forall|k: int| 0 <= k < i ==> #[trigger] r@[k]@ == g[x + k].subrange(y as int, y + h),
        decreases w - i,
    {
        let mut column: Vec<T> = Vec::new();
        let mut j: usize = 0;
        assert(y + h <= data@[x + i].len());
        assert(g[x + i] == data@[x + i]@);
        assert(column@ =~= g[x + i].subrange(y as int, y + j));
        while j < h
            invariant
                i < w,
                j <= h,
                x + w <= data.len(),
                y + h <= data@[x + i].len(),
                g == grid_view(data@),
                g[x + i] == data@[x + i]@,
                column@ == g[x + i].subrange(y as int, y + j),
            decreases h - j,
        {
            column.push(data[x + i][y + j]);
            j += 1;
            assert(column@ =~= g[x + i].subrange(y as int, y + j));
        }
        r.push(column);
        i += 1;
    }
    assert(grid_view(r@) =~= window(g, x as int, y as int, w as int, h as int));
    assert forall|k: int| 0 <= k < w implies #[trigger] grid_view(r@)[k].len() == h by {
        assert(g[x + k] == data@[x + k]@);
        assert(y + h <= data@[x + k].len());
        assert(r@[k]@ == g[x + k].subrange(y as int, y + h));
    }
    r
}

} // verus!
