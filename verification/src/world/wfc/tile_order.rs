use vstd::prelude::*;

use crate::world::world_tile_type::WorldTileType;

verus! {

/// Tile types ordered as declared: -1, 0 or 1.
pub open spec fn tile_order(a: WorldTileType, b: WorldTileType) -> int {
    if a.index() < b.index() {
        -1
    } else if a.index() == b.index() {
        0
    } else {
        1
    }
}

/// Columns of tiles ordered lexicographically: -1, 0 or 1.
pub open spec fn column_order(a: Seq<WorldTileType>, b: Seq<WorldTileType>) -> int
    decreases a.len(),
{
    if a.len() == 0 {
        if b.len() == 0 {
            0
        } else {
            -1
        }
    } else if b.len() == 0 {
        1
    } else if tile_order(a[0], b[0]) != 0 {
        tile_order(a[0], b[0])
    } else {
        column_order(a.drop_first(), b.drop_first())
    }
}

/// Grids of tiles ordered lexicographically by columns: -1, 0 or 1.
pub open spec fn grid_order(a: Seq<Seq<WorldTileType>>, b: Seq<Seq<WorldTileType>>) -> int
    decreases a.len(),
{
    if a.len() == 0 {
        if b.len() == 0 {
            0
        } else {
            -1
        }
    } else if b.len() == 0 {
        1
    } else if column_order(a[0], b[0]) != 0 {
        column_order(a[0], b[0])
    } else {
        grid_order(a.drop_first(), b.drop_first())
    }
}

/// Equal tile types compare equal, and only they.
pub proof fn lemma_tile_order(a: WorldTileType, b: WorldTileType)
    ensures
        tile_order(a, b) == -tile_order(b, a),
        (tile_order(a, b) == 0) == (a == b),
{
}

/// The column order is a total order: antisymmetric, equal only on equal
/// columns, and transitive.
pub proof fn lemma_column_order(a: Seq<WorldTileType>, b: Seq<WorldTileType>, c: Seq<WorldTileType>)
    ensures
        column_order(a, b) == -column_order(b, a),
        (column_order(a, b) == 0) == (a == b),
        column_order(a, b) <= 0 && column_order(b, c) <= 0 ==> column_order(a, c) <= 0,
        -1 <= column_order(a, b) <= 1,
    decreases a.len(),
{
    if a.len() > 0 && b.len() > 0 {
        lemma_tile_order(a[0], b[0]);
        lemma_tile_order(b[0], a[0]);
        if c.len() > 0 {
            lemma_tile_order(a[0], c[0]);
            lemma_tile_order(b[0], c[0]);
            lemma_column_order(a.drop_first(), b.drop_first(), c.drop_first());
        } else {
            lemma_column_order(a.drop_first(), b.drop_first(), c);
        }
        if a.drop_first() == b.drop_first() && a[0] == b[0] {
            assert(a =~= b) by {
                assert forall|i: int| 0 <= i < a.len() implies a[i] == b[i] by {
                    if i > 0 {
                        assert(a[i] == a.drop_first()[i - 1]);
                        assert(b[i] == b.drop_first()[i - 1]);
                    }
                }
            }
        }
    }
    if a.len() == 0 && b.len() == 0 {
        assert(a =~= b);
    }
}

/// The grid order is a total order: antisymmetric, equal only on equal
/// grids, and transitive.
pub proof fn lemma_grid_order(a: Seq<Seq<WorldTileType>>, b: Seq<Seq<WorldTileType>>, c: Seq<Seq<WorldTileType>>)
    ensures
        grid_order(a, b) == -grid_order(b, a),
        (grid_order(a, b) == 0) == (a == b),
        grid_order(a, b) <= 0 && grid_order(b, c) <= 0 ==> grid_order(a, c) <= 0,
        -1 <= grid_order(a, b) <= 1,
    decreases a.len(),
{
    if a.len() > 0 && b.len() > 0 {
        if c.len() > 0 {
            lemma_column_order(a[0], b[0], c[0]);
            lemma_column_order(b[0], a[0], c[0]);
            lemma_column_order(a[0], c[0], b[0]);
            lemma_column_order(b[0], c[0], a[0]);
            lemma_grid_order(a.drop_first(), b.drop_first(), c.drop_first());
        } else {
            lemma_column_order(a[0], b[0], a[0]);
            lemma_column_order(b[0], a[0], b[0]);
            lemma_grid_order(a.drop_first(), b.drop_first(), c);
        }
        if a.drop_first() == b.drop_first() && a[0] == b[0] {
            assert(a =~= b) by {
                assert forall|i: int| 0 <= i < a.len() implies a[i] == b[i] by {
                    if i > 0 {
                        assert(a[i] == a.drop_first()[i - 1]);
                        assert(b[i] == b.drop_first()[i - 1]);
                    }
                }
            }
        }
    }
    if a.len() == 0 && b.len() == 0 {
        assert(a =~= b);
    }
}

/// `order` lists every position of `keys` once, in ascending order of
/// their keys, positions with equal keys in increasing order.
pub open spec fn is_sorting(order: Seq<usize>, keys: Seq<Seq<Seq<WorldTileType>>>) -> bool {
    &&& order.len() == keys.len()
    &&& forall|i: int| 0 <= i < order.len() ==> #[trigger] order[i] < keys.len()
    &&& forall|i: int, j: int| 0 <= i < j < order.len() ==> #[trigger] order[i] != #[trigger] order[j]
    &&& forall|i: int, j: int|
        0 <= i < j < order.len() ==> grid_order(keys[#[trigger] order[i] as int], keys[#[trigger] order[j] as int]) <= 0
    &&& forall|i: int, j: int|
        0 <= i < j < order.len() && keys[#[trigger] order[i] as int] == keys[#[trigger] order[j] as int] ==> order[i] < order[j]
}

/// The rest of `s` from position `i` on.
pub open spec fn rest_from<T>(s: Seq<T>, i: usize) -> Seq<T> {
    s.skip(i as int)
}

/// One step along a sequence: the rest from `i` starts with element `i`
/// and goes on with the rest from `i + 1`.
pub proof fn lemma_rest_step<T>(s: Seq<T>, i: usize)
    requires
        i < s.len() <= usize::MAX,
    ensures
        rest_from(s, i)[0] == s[i as int],
        rest_from(s, i).drop_first() == rest_from(s, (i + 1) as usize),
        rest_from(s, i).len() > 0,
{
    assert(rest_from(s, i).drop_first() =~= rest_from(s, (i + 1) as usize));
}

/// The rest from the start is the whole sequence.
pub proof fn lemma_rest_start<T>(s: Seq<T>)
    ensures
        rest_from(s, 0) == s,
{
    assert(rest_from(s, 0) =~= s);
}

} // verus!
