use vstd::prelude::*;

use crate::world::world_tile_position::{inner_position, neighbour_seq, WorldTilePosition};
use crate::world::world_tile_type::WorldTileType;
use crate::world::world_tile_type_flags::{all_bits, allowed_union, tile_bit, WorldTileTypeFlags};

verus! {

/// A beach tile with no field tile next to it.
pub open spec fn lacks_land(tiles: Seq<(WorldTilePosition, WorldTileTypeFlags)>, i: int) -> bool {
    &&& tiles[i].1@ == tile_bit(WorldTileType::Beach)
    &&& !exists|j: int|
        0 <= j < tiles.len() && neighbour_seq(tiles[i].0).contains(#[trigger] tiles[j].0) && tiles[j].1@
            == tile_bit(WorldTileType::Field)
}

/// The types of tile `i` after the terrain is cleaned up: water where a
/// beach without land lies, the tile's own types elsewhere.
pub open spec fn cleaned_bits(tiles: Seq<(WorldTilePosition, WorldTileTypeFlags)>, i: int) -> u8 {
    if exists|k: int| 0 <= k < tiles.len() && #[trigger] lacks_land(tiles, k) && tiles[k].0 == tiles[i].0 {
        tile_bit(WorldTileType::Water)
    } else {
        tiles[i].1@
    }
}

/// Whether some tile lying at one of `positions` is a field.
fn has_field_among(
    tiles: &Vec<(WorldTilePosition, WorldTileTypeFlags)>,
    positions: &[WorldTilePosition; 8],
) -> (r: bool)
    ensures
        r == exists|j: int|
            0 <= j < tiles.len() && positions@.contains(#[trigger] tiles@[j].0) && tiles@[j].1@ == tile_bit(
                WorldTileType::Field,
            ),
{
    let field = WorldTileTypeFlags::from_tile_type(WorldTileType::Field).bits();
    let mut j: usize = 0;
    while j < tiles.len()
        invariant
            j <= tiles.len(),
            field == tile_bit(WorldTileType::Field),
            forall|k: int|
                0 <= k < j ==> !(positions@.contains(#[trigger] tiles@[k].0) && tiles@[k].1@ == tile_bit(
                    WorldTileType::Field,
                )),
        decreases tiles.len() - j,
    {
        if tiles[j].1.bits() == field && position_among(positions, tiles[j].0) {
            return true;
        }
        j += 1;
    }
    false
}

/// Whether `p` is one of `positions`.
fn position_among(positions: &[WorldTilePosition; 8], p: WorldTilePosition) -> (r: bool)
    ensures
        r == positions@.contains(p),
{
    let mut k: usize = 0;
    while k < 8
        invariant
            k <= 8,
            positions@.len() == 8,
            forall|m: int| 0 <= m < k ==> positions@[m] != p,
        decreases 8 - k,
    {
        if positions[k] == p {
            assert(positions@[k as int] == p);
            return true;
        }
        k += 1;
    }
    false
}

/// Whether `p` is one of `v`.
fn holds_tile_position(v: &Vec<WorldTilePosition>, p: WorldTilePosition) -> (r: bool)
    ensures
        r == v@.contains(p),
{
    let mut k: usize = 0;
    while k < v.len()
        invariant
            k <= v.len(),
            forall|m: int| 0 <= m < k ==> v@[m] != p,
        decreases v.len() - k,
    {
        if v[k] == p {
            assert(v@[k as int] == p);
            return true;
        }
        k += 1;
    }
    false
}

/// The decisions of the terrain clean-up after generation: every beach tile
/// with no field tile next to it becomes water. Returns the new types of the
/// tiles, in order.
pub fn cleanup_terrain(tiles: &Vec<(WorldTilePosition, WorldTileTypeFlags)>) -> (r: Vec<WorldTileTypeFlags>)
    requires
        forall|i: int| 0 <= i < tiles.len() ==> inner_position(#[trigger] tiles@[i].0),
    ensures
        r.len() == tiles.len(),
        forall|i: int| 0 <= i < tiles.len() ==> (#[trigger] r@[i])@ == cleaned_bits(tiles@, i),
{
    let beach = WorldTileTypeFlags::from_tile_type(WorldTileType::Beach).bits();
    let mut beaches_without_land: Vec<WorldTilePosition> = Vec::new();
    let mut i: usize = 0;
    while i < tiles.len()
        invariant
            i <= tiles.len(),
            beach == tile_bit(WorldTileType::Beach),
            forall|i: int| 0 <= i < tiles.len() ==> inner_position(#[trigger] tiles@[i].0),
            forall|p: WorldTilePosition|
                #[trigger] beaches_without_land@.contains(p) <==> exists|k: int|
                    0 <= k < i && #[trigger] lacks_land(tiles@, k) && tiles@[k].0 == p,
        decreases tiles.len() - i,
    {
        let ghost before = beaches_without_land@;
        let mut lacking = false;
        if tiles[i].1.bits() == beach {
            let neighbours = tiles[i].0.neighbours();
            lacking = !has_field_among(tiles, &neighbours);
        }
        assert(lacking == lacks_land(tiles@, i as int));
        if lacking {
            beaches_without_land.push(tiles[i].0);
        }
        proof {
            assert forall|p: WorldTilePosition|
                #[trigger] beaches_without_land@.contains(p) <==> exists|k: int|
                    0 <= k < i + 1 && #[trigger] lacks_land(tiles@, k) && tiles@[k].0 == p by {
                if beaches_without_land@.contains(p) {
                    let m = choose|m: int| 0 <= m < beaches_without_land@.len() && beaches_without_land@[m] == p;
                    if m < before.len() {
                        assert(before.contains(p));
                    } else {
                        assert(lacks_land(tiles@, i as int) && tiles@[i as int].0 == p);
                    }
                }
                if exists|k: int| 0 <= k < i + 1 && #[trigger] lacks_land(tiles@, k) && tiles@[k].0 == p {
                    let k = choose|k: int| 0 <= k < i + 1 && #[trigger] lacks_land(tiles@, k) && tiles@[k].0 == p;
                    if k < i {
                        assert(before.contains(p));
                        let m = choose|m: int| 0 <= m < before.len() && before[m] == p;
                        assert(beaches_without_land@[m] == p);
                    } else {
                        assert(beaches_without_land@[beaches_without_land@.len() - 1] == p);
                    }
                }
            }
        }
        i += 1;
    }
    let water = WorldTileTypeFlags::from_tile_type(WorldTileType::Water);
    let mut r: Vec<WorldTileTypeFlags> = Vec::new();
    let mut i: usize = 0;
    while i < tiles.len()
        invariant
            i <= tiles.len(),
            r.len() == i,
            water@ == tile_bit(WorldTileType::Water),
            forall|p: WorldTilePosition|
                #[trigger] beaches_without_land@.contains(p) <==> exists|k: int|
                    0 <= k < tiles.len() && #[trigger] lacks_land(tiles@, k) && tiles@[k].0 == p,
            forall|k: int| 0 <= k < i ==> (#[trigger] r@[k])@ == cleaned_bits(tiles@, k),
        decreases tiles.len() - i,
    {
        if holds_tile_position(&beaches_without_land, tiles[i].0) {
            r.push(water);
        } else {
            r.push(tiles[i].1);
        }
        proof {
            assert(beaches_without_land@.contains(tiles@[i as int].0) == exists|k: int|
                0 <= k < tiles.len() && #[trigger] lacks_land(tiles@, k) && tiles@[k].0 == tiles@[i as int].0);
        }
        i += 1;
    }
    r
}

/// The tile that `collapse_first` collapses next, the tiles' types given in
/// query order: among the tiles that may still take more than one type, one
/// with the fewest types, the first such; `None` when no tile may take more
/// than one type.
pub fn next_to_collapse(tiles: &Vec<WorldTileTypeFlags>) -> (r: Option<usize>)
    ensures
        r is None <==> forall|i: int| 0 <= i < tiles.len() ==> (#[trigger] tiles@[i]).type_count() <= 1,
        r matches Some(k) ==> {
            &&& k < tiles.len()
            &&& tiles@[k as int].type_count() > 1
            &&& forall|i: int|
                0 <= i < tiles.len() && (#[trigger] tiles@[i]).type_count() > 1 ==> tiles@[k as int].type_count()
                    < tiles@[i].type_count() || (tiles@[k as int].type_count() == tiles@[i].type_count() && k <= i)
        },
{
    let mut best: Option<usize> = None;
    let mut best_count: u32 = 0;
    let mut i: usize = 0;
    while i < tiles.len()
        invariant
            i <= tiles.len(),
            best is None <==> forall|j: int| 0 <= j < i ==> (#[trigger] tiles@[j]).type_count() <= 1,
            best matches Some(k) ==> {
                &&& k < i
                &&& best_count == tiles@[k as int].type_count()
                &&& tiles@[k as int].type_count() > 1
                &&& forall|j: int|
                    0 <= j < i && (#[trigger] tiles@[j]).type_count() > 1 ==> tiles@[k as int].type_count()
                        < tiles@[j].type_count() || (tiles@[k as int].type_count() == tiles@[j].type_count()
                        && k <= j)
            },
        decreases tiles.len() - i,
    {
        let c = tiles[i].count();
        if c > 1 {
            match best {
                None => {
                    best = Some(i);
                    best_count = c;
                },
                Some(_) => {
                    if c < best_count {
                        best = Some(i);
                        best_count = c;
                    }
                },
            }
        }
        i += 1;
    }
    best
}

/// The number of types the tiles may still take, summed.
pub open spec fn tiles_total(s: Seq<(WorldTilePosition, WorldTileTypeFlags)>) -> int
    decreases s.len(),
{
    if s.len() == 0 {
        0
    } else {
        tiles_total(s.drop_last()) + s.last().1.type_count()
    }
}

/// Changing the types of one tile changes the sum by the difference.
proof fn lemma_tiles_total_update(s: Seq<(WorldTilePosition, WorldTileTypeFlags)>, i: int, f: WorldTileTypeFlags)
    requires
        0 <= i < s.len(),
    ensures
        tiles_total(s.update(i, (s[i].0, f))) == tiles_total(s) - s[i].1.type_count() + f.type_count(),
    decreases s.len(),
{
    if i == s.len() - 1 {
        assert(s.update(i, (s[i].0, f)).drop_last() =~= s.drop_last());
    } else {
        lemma_tiles_total_update(s.drop_last(), i, f);
        assert(s.update(i, (s[i].0, f)).drop_last() =~= s.drop_last().update(i, (s[i].0, f)));
    }
}

/// The sum is not negative.
proof fn lemma_tiles_total_nonneg(s: Seq<(WorldTilePosition, WorldTileTypeFlags)>)
    ensures
        tiles_total(s) >= 0,
    decreases s.len(),
{
    if s.len() > 0 {
        lemma_tiles_total_nonneg(s.drop_last());
    }
}

/// Narrowing every tile does not raise the sum.
proof fn lemma_tiles_total_le(s1: Seq<(WorldTilePosition, WorldTileTypeFlags)>, s2: Seq<(WorldTilePosition, WorldTileTypeFlags)>)
    requires
        s1.len() == s2.len(),
        forall|i: int| 0 <= i < s1.len() ==> (#[trigger] s2[i]).1@ & s1[i].1@ == s2[i].1@,
    ensures
        tiles_total(s2) <= tiles_total(s1),
    decreases s1.len(),
{
    if s1.len() > 0 {
        lemma_tiles_total_le(s1.drop_last(), s2.drop_last());
        crate::world::wfc::super_grid::lemma_subset_count(s1.last().1, s2.last().1);
    }
}

/// The types a removal allows next to a tile: `allowed`, or field when
/// `allowed` is empty.
pub open spec fn effective_allowed(allowed: WorldTileTypeFlags) -> u8 {
    if allowed@ == 0 {
        tile_bit(WorldTileType::Field)
    } else {
        allowed@
    }
}

/// The types a removal passes on: `b`, or field when `b` is empty.
pub open spec fn effective_bits(b: u8) -> u8 {
    if b == 0 {
        tile_bit(WorldTileType::Field)
    } else {
        b
    }
}

/// The types the neighbours of a tile that takes the types `bits` are kept
/// to: those that may stand next to one of them, or field when none may.
pub open spec fn passed_on(bits: u8) -> u8 {
    if allowed_union(bits) == 0 {
        tile_bit(WorldTileType::Field)
    } else {
        allowed_union(bits)
    }
}

/// Every neighbour of tile `i` that may still take more than one type takes
/// only types that tile `i` passes on.
pub open spec fn agrees_with_neighbours(tiles: Seq<(WorldTilePosition, WorldTileTypeFlags)>, i: int) -> bool {
    forall|j: int|
        0 <= j < tiles.len() && neighbour_seq(tiles[i].0).contains(#[trigger] tiles[j].0) ==> tiles[j].1.type_count()
            <= 1 || tiles[j].1@ & passed_on(tiles[i].1@) == tiles[j].1@
}

/// A set of tile types lies within the set of all of them.
proof fn lemma_within_all(b: u8)
    by (bit_vector)
    requires
        b & 131 == 0,
    ensures
        b & 124 == b,
{
}

/// Narrowing is transitive.
proof fn lemma_narrow_trans(a: u8, b: u8, c: u8)
    by (bit_vector)
    requires
        c & b == c,
        b & a == b,
    ensures
        c & a == c,
{
}

/// Every set is within itself, and an intersection within both sides.
proof fn lemma_within(a: u8, b: u8)
    by (bit_vector)
    ensures
        a & a == a,
        (a & b) & a == a & b,
        (a & b) & b == a & b,
        (a & b) == a ==> a & b == a,
{
}

/// The number of tile types in the set `b`.
pub open spec fn bits_count(b: u8) -> nat {
    (if b & tile_bit(WorldTileType::Water) != 0 { 1nat } else { 0nat })
        + (if b & tile_bit(WorldTileType::Field) != 0 { 1nat } else { 0nat })
        + (if b & tile_bit(WorldTileType::Forest) != 0 { 1nat } else { 0nat })
        + (if b & tile_bit(WorldTileType::Mountain) != 0 { 1nat } else { 0nat })
        + (if b & tile_bit(WorldTileType::Beach) != 0 { 1nat } else { 0nat })
}

/// The tiles with their sets of types as bits.
pub open spec fn tile_views(s: Seq<(WorldTilePosition, WorldTileTypeFlags)>) -> Seq<(WorldTilePosition, u8)> {
    Seq::new(s.len(), |i: int| (s[i].0, s[i].1@))
}

/// The number of types the tiles may still take, summed.
pub open spec fn views_total(s: Seq<(WorldTilePosition, u8)>) -> int
    decreases s.len(),
{
    if s.len() == 0 {
        0
    } else {
        views_total(s.drop_last()) + bits_count(s.last().1)
    }
}

/// Tile `t` once the types `allowed` are passed on from `position`: a
/// neighbour that may still take more than one type keeps only those.
pub open spec fn narrowed(t: (WorldTilePosition, u8), position: WorldTilePosition, allowed: u8) -> (WorldTilePosition, u8) {
    if bits_count(t.1) > 1 && neighbour_seq(position).contains(t.0) {
        (t.0, t.1 & allowed)
    } else {
        t
    }
}

/// All tiles once the types `allowed` are passed on from `position`.
pub open spec fn first_step(s: Seq<(WorldTilePosition, u8)>, position: WorldTilePosition, allowed: u8) -> Seq<(WorldTilePosition, u8)> {
    Seq::new(s.len(), |i: int| narrowed(s[i], position, allowed))
}

/// Among the first `i` tiles, in order, each one that changed from `s0` to
/// `s1`, with the types that may stand next to what it now takes.
pub open spec fn changes(s0: Seq<(WorldTilePosition, u8)>, s1: Seq<(WorldTilePosition, u8)>, i: int) -> Seq<(WorldTilePosition, u8)>
    decreases i,
{
    if i <= 0 {
        Seq::empty()
    } else if s1[i - 1].1 != s0[i - 1].1 {
        changes(s0, s1, i - 1).push((s1[i - 1].0, allowed_union(s1[i - 1].1)))
    } else {
        changes(s0, s1, i - 1)
    }
}

/// The tiles once the types `allowed` are passed on from `position`, and
/// every tile this changes passes on, in turn and in order, the types that
/// may stand next to what it keeps, unless that is every type.
pub open spec fn propagated(s: Seq<(WorldTilePosition, u8)>, position: WorldTilePosition, allowed: u8) -> Seq<(WorldTilePosition, u8)>
    decreases views_total(s), 0int,
{
    let s1 = first_step(s, position, allowed);
    let us = changes(s, s1, s.len() as int);
    if us.len() == 0 || !(0 <= views_total(s1) < views_total(s)) {
        s1
    } else {
        passed_along(s1, us, 0, views_total(s1))
    }
}

/// The tiles once each of the changes `us` from the `k`-th on has been
/// passed on in order; `bound` bounds the number of types left.
pub open spec fn passed_along(s: Seq<(WorldTilePosition, u8)>, us: Seq<(WorldTilePosition, u8)>, k: int, bound: int) -> Seq<(WorldTilePosition, u8)>
    decreases bound, us.len() - k + 1,
{
    if k < 0 || k >= us.len() || !(0 <= views_total(s) <= bound) {
        s
    } else {
        let next = if us[k].1 == all_bits() {
            s
        } else {
            propagated(s, us[k].0, effective_bits(us[k].1))
        };
        passed_along(next, us, k + 1, bound)
    }
}

/// The number of types of a set is that of its bits.
proof fn lemma_bits_count(f: WorldTileTypeFlags)
    ensures
        f.type_count() == bits_count(f@),
{
}

/// The two ways of summing the types of the tiles agree.
proof fn lemma_views_total(s: Seq<(WorldTilePosition, WorldTileTypeFlags)>)
    ensures
        views_total(tile_views(s)) == tiles_total(s),
    decreases s.len(),
{
    if s.len() > 0 {
        lemma_views_total(s.drop_last());
        assert(tile_views(s).drop_last() =~= tile_views(s.drop_last()));
        lemma_bits_count(s.last().1);
    }
}

/// The decisions of the terrain generator's propagation: every tile next to
/// `position` that may still take more than one type keeps only the types in
/// `allowed_flags` (field when that is empty), and every tile this narrows
/// passes on, in turn, the types that may stand next to what it keeps, unless
/// that is every type.
pub fn propagate_neighbours(
    position: WorldTilePosition,
    allowed_flags: WorldTileTypeFlags,
    tiles: &mut Vec<(WorldTilePosition, WorldTileTypeFlags)>,
)
    requires
        inner_position(position),
        allowed_flags.well_formed(),
        forall|i: int|
            0 <= i < old(tiles).len() ==> inner_position((#[trigger] old(tiles)@[i]).0) && old(tiles)@[i].1.well_formed(),
    ensures
        final(tiles).len() == old(tiles).len(),
        forall|i: int|
            0 <= i < old(tiles).len() ==> (#[trigger] final(tiles)@[i]).0 == old(tiles)@[i].0
                && final(tiles)@[i].1.well_formed() && final(tiles)@[i].1@ & old(tiles)@[i].1@ == final(tiles)@[i].1@,
        forall|i: int|
            0 <= i < old(tiles).len() && (#[trigger] old(tiles)@[i]).1.type_count() <= 1 ==> final(tiles)@[i]
                == old(tiles)@[i],
        forall|i: int|
            0 <= i < old(tiles).len() && (#[trigger] old(tiles)@[i]).1.type_count() > 1 && neighbour_seq(
                position,
            ).contains(old(tiles)@[i].0) ==> final(tiles)@[i].1@ & effective_allowed(allowed_flags)
                == final(tiles)@[i].1@,
        forall|i: int|
            0 <= i < old(tiles).len() && (#[trigger] final(tiles)@[i]).1@ != old(tiles)@[i].1@
                ==> agrees_with_neighbours(final(tiles)@, i),
        tile_views(final(tiles)@) == propagated(tile_views(old(tiles)@), position, effective_allowed(allowed_flags)),
    decreases tiles_total(old(tiles)@),
{
    let ghost t0 = tiles@;
    let ghost total0 = tiles_total(tiles@);
    let allowed = if allowed_flags.is_empty() {
        WorldTileTypeFlags::from_tile_type(WorldTileType::Field)
    } else {
        allowed_flags
    };
    let neighbours = position.neighbours();
    let mut updated_neighbours: Vec<(WorldTilePosition, WorldTileTypeFlags)> = Vec::new();
    proof {
        assert forall|k: int| 0 <= k < t0.len() implies (#[trigger] tiles@[k]).1@ & t0[k].1@ == tiles@[k].1@ by {
            lemma_within(t0[k].1@, t0[k].1@);
        }
    }
    let mut i: usize = 0;
    while i < tiles.len()
        invariant
            i <= tiles.len(),
            tiles.len() == t0.len(),
            t0 == old(tiles)@,
            total0 == tiles_total(t0),
            allowed@ == effective_allowed(allowed_flags),
            allowed.well_formed(),
            neighbours@ == neighbour_seq(position),
            forall|k: int|
                0 <= k < t0.len() ==> inner_position((#[trigger] t0[k]).0) && t0[k].1.well_formed(),
            forall|k: int|
                0 <= k < t0.len() ==> (#[trigger] tiles@[k]).0 == t0[k].0 && tiles@[k].1.well_formed()
                    && tiles@[k].1@ & t0[k].1@ == tiles@[k].1@,
            forall|k: int| i <= k < t0.len() ==> #[trigger] tiles@[k] == t0[k],
            forall|k: int| 0 <= k < t0.len() && (#[trigger] t0[k]).1.type_count() <= 1 ==> tiles@[k] == t0[k],
            forall|k: int|
                0 <= k < i && (#[trigger] t0[k]).1.type_count() > 1 && neighbour_seq(position).contains(t0[k].0)
                    ==> tiles@[k].1@ & allowed@ == tiles@[k].1@,
            forall|u: int|
                0 <= u < updated_neighbours.len() ==> inner_position((#[trigger] updated_neighbours@[u]).0)
                    && updated_neighbours@[u].1.well_formed(),
            tiles_total(tiles@) <= total0,
            updated_neighbours.len() > 0 ==> tiles_total(tiles@) < total0,
            forall|k: int|
                0 <= k < t0.len() && (#[trigger] tiles@[k]).1@ != t0[k].1@ ==> exists|v: int|
                    0 <= v < updated_neighbours.len() && (#[trigger] updated_neighbours@[v]).0 == tiles@[k].0
                        && updated_neighbours@[v].1@ == allowed_union(tiles@[k].1@),
            forall|k: int|
                0 <= k < i ==> #[trigger] tile_views(tiles@)[k] == first_step(tile_views(t0), position, allowed@)[k],
            tile_views(updated_neighbours@) == changes(tile_views(t0), first_step(tile_views(t0), position, allowed@), i as int),
        decreases tiles.len() - i,
    {
        let tile = tiles[i];
        let ghost tv0 = tile_views(t0);
        let ghost fs = first_step(tv0, position, allowed@);
        let ghost tiles_before = tiles@;
        let ghost upd_before = updated_neighbours@;
        proof {
            lemma_bits_count(tile.1);
            assert(tile == t0[i as int]);
            assert(changes(tv0, fs, i + 1) == (if fs[i as int].1 != tv0[i as int].1 {
                changes(tv0, fs, i as int).push((fs[i as int].0, allowed_union(fs[i as int].1)))
            } else {
                changes(tv0, fs, i as int)
            }));
        }
        if tile.1.count() > 1 && position_among(&neighbours, tile.0) {
            let new_value = tile.1.intersection(allowed);
            if new_value.bits() != tile.1.bits() {
                let ghost before = tiles@;
                let ghost upd0 = updated_neighbours@;
                tiles.set(i, (tile.0, new_value));
                proof {
                    lemma_within(tile.1@, allowed@);
                    crate::world::wfc::super_grid::lemma_narrowing_lowers_count(tile.1, new_value);
                    lemma_tiles_total_update(before, i as int, new_value);
                    assert(tiles@ == before.update(i as int, (before[i as int].0, new_value)));
                    lemma_narrow_trans(t0[i as int].1@, tile.1@, new_value@);
                }
                updated_neighbours.push((tile.0, new_value.get_allowed()));
                proof {
                    assert forall|k: int|
                        0 <= k < t0.len() && (#[trigger] tiles@[k]).1@ != t0[k].1@ implies exists|v: int|
                        0 <= v < updated_neighbours.len() && (#[trigger] updated_neighbours@[v]).0 == tiles@[k].0
                            && updated_neighbours@[v].1@ == allowed_union(tiles@[k].1@) by {
                        if k == i {
                            assert(updated_neighbours@[upd0.len() as int].0 == tiles@[k].0);
                        } else {
                            assert(tiles@[k] == before[k]);
                            let v = choose|v: int|
                                0 <= v < upd0.len() && (#[trigger] upd0[v]).0 == before[k].0 && upd0[v].1@
                                    == allowed_union(before[k].1@);
                            assert(updated_neighbours@[v] == upd0[v]);
                        }
                    }
                }
            } else {
                proof {
                    lemma_within(tile.1@, allowed@);
                }
            }
        }
        proof {
            assert forall|k: int| 0 <= k < i + 1 implies #[trigger] tile_views(tiles@)[k] == fs[k] by {
                if k < i {
                    assert(tile_views(tiles_before)[k] == fs[k]);
                    assert(tiles@[k] == tiles_before[k]);
                }
            }
            assert(tile_views(updated_neighbours@) =~= changes(tv0, fs, i + 1));
        }
        i += 1;
    }
    let ghost t1 = tiles@;
    let ghost us = tile_views(updated_neighbours@);
    let ghost bound = views_total(tile_views(t1));
    proof {
        assert(tile_views(t1) =~= first_step(tile_views(t0), position, allowed@));
        lemma_views_total(t1);
        lemma_views_total(t0);
        lemma_tiles_total_nonneg(t1);
    }
    let all = WorldTileTypeFlags::all().bits();
    proof {
        assert forall|k: int| 0 <= k < t0.len() implies (#[trigger] tiles@[k]).1@ & t1[k].1@ == tiles@[k].1@ by {
            lemma_within(t1[k].1@, t1[k].1@);
        }
    }
    let mut u: usize = 0;
    while u < updated_neighbours.len()
        invariant
            u <= updated_neighbours.len(),
            tiles.len() == t0.len(),
            t0 == old(tiles)@,
            t1.len() == t0.len(),
            total0 == tiles_total(t0),
            all == crate::world::world_tile_type_flags::all_bits(),
            forall|k: int|
                0 <= k < t0.len() ==> (#[trigger] t1[k]).0 == t0[k].0 && t1[k].1.well_formed() && t1[k].1@
                    & t0[k].1@ == t1[k].1@,
            forall|k: int|
                0 <= k < t0.len() ==> inner_position((#[trigger] t0[k]).0) && t0[k].1.well_formed(),
            forall|k: int|
                0 <= k < t0.len() ==> (#[trigger] tiles@[k]).0 == t0[k].0 && tiles@[k].1.well_formed()
                    && tiles@[k].1@ & t1[k].1@ == tiles@[k].1@,
            forall|k: int| 0 <= k < t0.len() && (#[trigger] t0[k]).1.type_count() <= 1 ==> tiles@[k] == t0[k],
            forall|k: int| 0 <= k < t0.len() && (#[trigger] t0[k]).1.type_count() <= 1 ==> t1[k] == t0[k],
            forall|u: int|
                0 <= u < updated_neighbours.len() ==> inner_position((#[trigger] updated_neighbours@[u]).0)
                    && updated_neighbours@[u].1.well_formed(),
            tiles_total(tiles@) <= tiles_total(t1),
            updated_neighbours.len() > 0 ==> tiles_total(t1) < total0,
            forall|k: int|
                0 <= k < t0.len() && (#[trigger] tiles@[k]).1@ != t0[k].1@ ==> agrees_with_neighbours(tiles@, k)
                    || exists|v: int|
                    u <= v < updated_neighbours.len() && (#[trigger] updated_neighbours@[v]).0 == tiles@[k].0
                        && updated_neighbours@[v].1@ == allowed_union(tiles@[k].1@),
            us == tile_views(updated_neighbours@),
            bound == views_total(tile_views(t1)),
            passed_along(tile_views(tiles@), us, u as int, bound) == passed_along(tile_views(t1), us, 0, bound),
        decreases updated_neighbours.len() - u,
    {
        let (next_position, next_allowed) = updated_neighbours[u];
        let ghost before_step = tiles@;
        proof {
            lemma_views_total(before_step);
            lemma_views_total(t1);
            lemma_tiles_total_nonneg(before_step);
            assert(us[u as int] == (next_position, next_allowed@));
        }
        if next_allowed.bits() != all {
            let ghost before = tiles@;
            proof {
                assert forall|k: int| 0 <= k < before.len() implies inner_position((#[trigger] before[k]).0)
                    && before[k].1.well_formed() by {
                    assert(before[k].0 == t0[k].0);
                }
            }
            assert(tiles_total(tiles@) < total0);
            proof {
                lemma_tiles_total_nonneg(tiles@);
            }
            propagate_neighbours(next_position, next_allowed, tiles);
            proof {
                assert forall|k: int| 0 <= k < t0.len() implies (#[trigger] tiles@[k]).0 == t0[k].0
                    && tiles@[k].1.well_formed() && tiles@[k].1@ & t1[k].1@ == tiles@[k].1@ by {
                    assert(tiles@[k].1@ & before[k].1@ == tiles@[k].1@);
                    lemma_narrow_trans(t1[k].1@, before[k].1@, tiles@[k].1@);
                }
                assert forall|k: int| 0 <= k < t0.len() && (#[trigger] t0[k]).1.type_count() <= 1 implies tiles@[k]
                    == t0[k] by {
                    assert(before[k] == t0[k]);
                }
                lemma_tiles_total_le(before, tiles@);
            }
        }
        proof {
            assert(tile_views(tiles@) == (if next_allowed@ == all_bits() {
                tile_views(before_step)
            } else {
                propagated(tile_views(before_step), next_position, effective_bits(next_allowed@))
            }));
            assert(passed_along(tile_views(before_step), us, u as int, bound) == passed_along(
                tile_views(tiles@),
                us,
                u + 1,
                bound,
            ));
            assert forall|j: int| 0 <= j < t0.len() implies (#[trigger] tiles@[j]).1@ & before_step[j].1@
                == tiles@[j].1@ by {
                if next_allowed@ == all {
                    lemma_within(before_step[j].1@, before_step[j].1@);
                }
            }
            assert forall|k: int|
                0 <= k < t0.len() && (#[trigger] tiles@[k]).1@ != t0[k].1@ implies agrees_with_neighbours(tiles@, k)
                || exists|v: int|
                u + 1 <= v < updated_neighbours.len() && (#[trigger] updated_neighbours@[v]).0 == tiles@[k].0
                    && updated_neighbours@[v].1@ == allowed_union(tiles@[k].1@) by {
                if tiles@[k].1@ != before_step[k].1@ {
                } else {
                    assert(before_step[k].1@ != t0[k].1@);
                    let pend = exists|v: int|
                        u <= v < updated_neighbours.len() && (#[trigger] updated_neighbours@[v]).0 == before_step[k].0
                            && updated_neighbours@[v].1@ == allowed_union(before_step[k].1@);
                    if agrees_with_neighbours(before_step, k) {
                        assert forall|j: int|
                            0 <= j < tiles@.len() && neighbour_seq(tiles@[k].0).contains(#[trigger] tiles@[j].0)
                                implies tiles@[j].1.type_count() <= 1 || tiles@[j].1@ & passed_on(tiles@[k].1@)
                            == tiles@[j].1@ by {
                            assert(before_step[j].0 == tiles@[j].0);
                            if before_step[j].1.type_count() > 1 {
                                lemma_narrow_trans(passed_on(before_step[k].1@), before_step[j].1@, tiles@[j].1@);
                            }
                        }
                    } else {
                        let v = choose|v: int|
                            u <= v < updated_neighbours.len() && (#[trigger] updated_neighbours@[v]).0 == before_step[k].0
                                && updated_neighbours@[v].1@ == allowed_union(before_step[k].1@);
                        if v == u {
                            assert forall|j: int|
                                0 <= j < tiles@.len() && neighbour_seq(tiles@[k].0).contains(#[trigger] tiles@[j].0)
                                    implies tiles@[j].1.type_count() <= 1 || tiles@[j].1@ & passed_on(tiles@[k].1@)
                                == tiles@[j].1@ by {
                                assert(before_step[j].0 == tiles@[j].0);
                                if next_allowed@ == all {
                                    lemma_within_all(tiles@[j].1@);
                                }
                            }
                        }
                    }
                }
            }
        }
        u += 1;
    }
    proof {
        assert forall|i: int|
            0 <= i < t0.len() implies (#[trigger] tiles@[i]).0 == t0[i].0 && tiles@[i].1.well_formed()
                && tiles@[i].1@ & t0[i].1@ == tiles@[i].1@ by {
            lemma_narrow_trans(t0[i].1@, t1[i].1@, tiles@[i].1@);
        }
        assert forall|i: int|
            0 <= i < t0.len() && (#[trigger] tiles@[i]).1@ != t0[i].1@ implies agrees_with_neighbours(tiles@, i) by {
        }
        assert forall|i: int|
            0 <= i < t0.len() && (#[trigger] t0[i]).1.type_count() > 1 && neighbour_seq(position).contains(t0[i].0)
                implies tiles@[i].1@ & effective_allowed(allowed_flags) == tiles@[i].1@ by {
            lemma_narrow_trans(effective_allowed(allowed_flags), t1[i].1@, tiles@[i].1@);
        }
        assert(tile_views(tiles@) == passed_along(tile_views(t1), us, 0, bound));
        assert(us == changes(tile_views(t0), tile_views(t1), t0.len() as int));
    }
}

} // verus!
