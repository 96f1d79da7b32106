use std::cmp::Ordering;

use itertools::Itertools;
use vstd::prelude::*;

use crate::world::wfc::pattern_data::PatternData;
use crate::world::wfc::tile_order::{
    column_order, grid_order, is_sorting, lemma_column_order, lemma_grid_order, lemma_rest_start,
    lemma_rest_step, rest_from, tile_order,
};
use crate::world::world_tile_type::WorldTileType;

verus! {

/// The number an ordering stands for.
pub open spec fn ordering_value(o: Ordering) -> int {
    match o {
        Ordering::Less => -1,
        Ordering::Equal => 0,
        Ordering::Greater => 1,
    }
}

/// The position of a tile type in declaration order.
fn tile_rank(t: WorldTileType) -> (r: u8)
    ensures
        r == t.index(),
{
    match t {
        WorldTileType::Water => 0,
        WorldTileType::Field => 1,
        WorldTileType::Forest => 2,
        WorldTileType::Mountain => 3,
        WorldTileType::Beach => 4,
    }
}

/// Compares two columns of tiles lexicographically.
pub fn compare_columns(a: &Vec<WorldTileType>, b: &Vec<WorldTileType>) -> (r: Ordering)
    ensures
        ordering_value(r) == column_order(a@, b@),
{
    proof {
        lemma_rest_start(a@);
        lemma_rest_start(b@);
    }
    let mut i: usize = 0;
    while i < a.len() && i < b.len()
        invariant
            i <= a.len(),
            i <= b.len(),
            column_order(a@, b@) == column_order(rest_from(a@, i), rest_from(b@, i)),
        decreases a.len() - i,
    {
        let ra = tile_rank(a[i]);
        let rb = tile_rank(b[i]);
        proof {
            lemma_rest_step(a@, i);
            lemma_rest_step(b@, i);
        }
        if ra < rb {
            return Ordering::Less;
        }
        if ra > rb {
            return Ordering::Greater;
        }
        i += 1;
    }
    if a.len() < b.len() {
        Ordering::Less
    } else if a.len() > b.len() {
        Ordering::Greater
    } else {
        proof {
            lemma_column_order(a@, b@, a@);
        }
        Ordering::Equal
    }
}

/// Compares two grids of tiles lexicographically, column by column.
pub fn compare_grids(a: &Vec<Vec<WorldTileType>>, b: &Vec<Vec<WorldTileType>>) -> (r: Ordering)
    ensures
        ordering_value(r) == grid_order(crate::world::grid::grid_view(a@), crate::world::grid::grid_view(b@)),
{
    let ghost ga = crate::world::grid::grid_view(a@);
    let ghost gb = crate::world::grid::grid_view(b@);
    proof {
        lemma_rest_start(ga);
        lemma_rest_start(gb);
    }
    let mut i: usize = 0;
    while i < a.len() && i < b.len()
        invariant
            i <= a.len(),
            i <= b.len(),
            ga == crate::world::grid::grid_view(a@),
            gb == crate::world::grid::grid_view(b@),
            grid_order(ga, gb) == grid_order(rest_from(ga, i), rest_from(gb, i)),
        decreases a.len() - i,
    {
        let c = compare_columns(&a[i], &b[i]);
        proof {
            lemma_rest_step(ga, i);
            lemma_rest_step(gb, i);
            crate::world::grid::lemma_grid_view_index(a@, i);
            crate::world::grid::lemma_grid_view_index(b@, i);
        }
        match c {
            Ordering::Less => {
                return Ordering::Less;
            },
            Ordering::Greater => {
                return Ordering::Greater;
            },
            Ordering::Equal => {},
        }
        i += 1;
    }
    if a.len() < b.len() {
        Ordering::Less
    } else if a.len() > b.len() {
        Ordering::Greater
    } else {
        proof {
            lemma_grid_order(ga, gb, ga);
        }
        Ordering::Equal
    }
}

/// Whether two grids of tiles are equal.
pub fn grids_equal(a: &Vec<Vec<WorldTileType>>, b: &Vec<Vec<WorldTileType>>) -> (r: bool)
    ensures
        r == (crate::world::grid::grid_view(a@) == crate::world::grid::grid_view(b@)),
{
    let c = compare_grids(a, b);
    proof {
        lemma_grid_order(crate::world::grid::grid_view(a@), crate::world::grid::grid_view(b@), crate::world::grid::grid_view(a@));
    }
    match c {
        Ordering::Equal => true,
        _ => false,
    }
}

/// `itertools::Itertools::sorted_by` on the positions of `patterns`,
/// comparing the tiles of the patterns they name with `compare_grids`. It
/// collects the positions and sorts them with `slice::sort_by`, which the
/// documentation calls stable; the comparison is a total order
/// (`lemma_grid_order`). So every position comes out once, in ascending order
/// of tiles, positions with equal tiles in increasing order.
#[verifier::external_body]
pub(crate) fn sorted_positions(patterns: &Vec<PatternData>) -> (r: Vec<usize>)
    ensures
        is_sorting(r@, patterns@.map_values(|p: PatternData| p.tile_view())),
{
    (0..patterns.len()).sorted_by(|a, b| compare_grids(&patterns[*a].tiles, &patterns[*b].tiles)).collect()
}

} // verus!
