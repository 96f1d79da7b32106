use strategy_haven::world::wfc::pattern_data::PatternData;
use strategy_haven::world::wfc::pattern_overlap::PatternOverlap;
use strategy_haven::world::wfc::pattern_palette::{PatternArray, PatternId, PatternPalette};
use strategy_haven::world::wfc::pattern_store::PatternStore;
use strategy_haven::world::wfc::super_grid::SuperGrid;
use strategy_haven::world::wfc::super_tile::SuperTile;
use strategy_haven::world::wfc::tile_compare::{compare_grids, grids_equal};
use strategy_haven::world::wfc::tile_grid::TileGrid;
use strategy_haven::world::wfc::wfc_pattern::WfcPattern;
use strategy_haven::world::world_tile_type::WorldTileType;
use strategy_haven::world::world_tile_type_flags::WorldTileTypeFlags;

use WorldTileType::{Beach, Field, Forest, Mountain, Water};

fn flag(t: WorldTileType) -> WorldTileTypeFlags {
    WorldTileTypeFlags::from_tile_type(t)
}

fn two_by_two(a: WorldTileType, b: WorldTileType, c: WorldTileType, d: WorldTileType) -> PatternData {
    PatternData::new(vec![vec![a, b], vec![c, d]], [2, 2], 1)
}

#[test]
fn pattern_data_transforms() {
    let p = two_by_two(Water, Field, Beach, Forest);
    assert_eq!(p.rotation().tiles, vec![vec![Beach, Water], vec![Forest, Field]]);
    assert_eq!(p.flip_x().tiles, vec![vec![Beach, Forest], vec![Water, Field]]);
    assert_eq!(p.rotation().occurrence_count, 1);
    assert_eq!(p.get_size(), [2, 2]);
    assert_eq!(p.get_tile_type([1, 0]), Beach);
    let grid = p.to_grid();
    assert_eq!(grid.grid_size, [2, 2]);
    assert_eq!(grid.data, p.tiles);
}

#[test]
fn tile_occurrences_in_column_order() {
    let p = two_by_two(Water, Field, Water, Beach);
    assert_eq!(p.get_tile_occurances(flag(Water)), vec![[0, 0], [1, 0]]);
    assert_eq!(p.get_tile_occurances(flag(Field).union(flag(Beach))), vec![[0, 1], [1, 1]]);
    assert_eq!(p.get_tile_occurances(WorldTileTypeFlags::empty()), Vec::<[usize; 2]>::new());
}

#[test]
fn palette_sizes_and_occurrences() {
    let small = PatternData::new(vec![vec![Mountain]], [1, 1], 1);
    let big = two_by_two(Water, Mountain, Field, Field);
    let palette = PatternPalette::new(vec![small, big]);
    assert_eq!(palette.get_size(&PatternId(0)), [1, 1]);
    assert_eq!(palette.get_size(&PatternId(1)), [2, 2]);
    assert_eq!(palette.get_max_size(), [2, 2]);
    assert_eq!(palette.get_tile_type(&PatternId(1), [0, 1]), Mountain);
    assert_eq!(
        palette.get_type_occurances_in_patterns(flag(Mountain)),
        vec![(PatternId(0), [0, 0]), (PatternId(1), [0, 1])]
    );
    let ids = palette.get_pattern_array(|id: PatternId| id.0 * 10);
    assert_eq!(ids.0, vec![0, 10]);
    let overlaps = PatternOverlap::get_all_possible(&palette, PatternId(1));
    let offsets: Vec<[usize; 2]> = overlaps.iter().map(|o| o.offset).collect();
    assert_eq!(offsets, vec![[0, 0], [0, 1], [1, 0], [1, 1]]);
    assert!(overlaps.iter().all(|o| o.pattern == PatternId(1)));
}

#[test]
fn pattern_array_in_id_order() {
    let array = PatternArray::new(3, |id: PatternId| id.0 + 1);
    assert_eq!(array.0, vec![1, 2, 3]);
}

#[test]
fn store_rules_out_placements_and_counts_them() {
    let palette = PatternPalette::new(vec![two_by_two(Water, Water, Water, Beach)]);
    let mut store = PatternStore::new(&palette, [3, 3]);
    assert_eq!(store.inverse_entropy_cache, vec![vec![0; 3]; 3]);
    // the placement whose cell [1][1] lies at [1][1] ends at grid position [1][1]
    assert!(store.disable_pattern(&palette, PatternId(0), [1, 1], [1, 1]));
    assert!(!store.disable_pattern(&palette, PatternId(0), [1, 1], [1, 1]));
    assert_eq!(store.inverse_entropy_cache, vec![vec![1, 1, 0], vec![1, 1, 0], vec![0, 0, 0]]);
    assert_eq!(store.inverse_entropy(&palette, 0, 0), 1);
}

#[test]
fn store_possible_flags_intersect_what_placements_allow() {
    let palette = PatternPalette::new(vec![two_by_two(Water, Water, Water, Beach), two_by_two(Field, Field, Field, Field)]);
    let store = PatternStore::new(&palette, [2, 2]);
    // every placement possible: position [0][0] of the window is offered
    // beach and field, the other three water and field
    let flags = store.get_possible_flags(&palette, [0, 0]);
    assert_eq!(flags, flag(Field));
    let placements = store.allowed_placements([0, 0], &palette);
    assert_eq!(placements.len(), 8);
    assert_eq!(placements[0], (PatternId(0), [1, 1]));
    let f = store.get_random_allowed_flag([0, 0], &palette);
    assert!(f == flag(Water) || f == flag(Beach) || f == flag(Field));
}

#[test]
fn super_tile_entropy_and_flags() {
    let palette = PatternPalette::new(vec![two_by_two(Water, Water, Field, Beach)]);
    let mut tile = SuperTile::new(&palette);
    assert_eq!(tile.entropy(), 4);
    assert_eq!(tile.get_type_count(), 5);
    assert_eq!(tile.enabled_patterns(&palette).len(), 4);
    assert!(tile.disable_pattern(PatternId(0), [0, 0]));
    assert!(!tile.disable_pattern(PatternId(0), [0, 0]));
    assert_eq!(tile.entropy(), 3);
    let removed = tile.set_flag(flag(Water).union(flag(Field)), &palette);
    assert_eq!(removed.bits(), 124 & !(4 | 8));
    assert_eq!(tile.get_type_count(), 2);
    // the beach placement is ruled out
    assert_eq!(tile.entropy(), 2);
    let changed = tile.recalculate_possible_flags(&palette);
    // position [0][1] is only offered by the ruled-out placement
    assert_eq!(tile.get_type_count(), 0);
    assert_eq!(changed.bits(), 4 | 8);
    assert_eq!(tile.to_tile_type(), Water);
}

#[test]
fn super_tile_pop_picks_a_candidate() {
    let palette = PatternPalette::new(vec![two_by_two(Water, Water, Field, Field)]);
    let mut tile = SuperTile::new(&palette);
    let before = WorldTileTypeFlags::all();
    let result = tile.pop_random_pattern(&palette);
    let picked = before.symmetric_difference(result);
    assert!(picked == flag(Water) || picked == flag(Field));
    assert_eq!(tile.get_type_count(), 1);
}

#[test]
fn get_patterns_counts_equal_tiles() {
    // a uniform 3 by 3 grid has one 2 by 2 window before the last position
    // along each axis, and its eight variants are equal
    let grid = TileGrid::new_filled(Forest, [3, 3]);
    let patterns = grid.get_patterns::<2, 2>();
    assert_eq!(patterns.len(), 1);
    assert_eq!(patterns[0].occurrence_count, 8);
    assert_eq!(patterns[0].tiles, vec![vec![Forest; 2]; 2]);
}

#[test]
fn get_patterns_sorted_by_tiles() {
    let mut grid = TileGrid::new_filled(Water, [3, 2]);
    grid.set(0, 0, Beach);
    let patterns = grid.get_patterns::<1, 1>();
    // windows [0][0] (beach) and [1][0] (water), each in eight equal variants
    assert_eq!(patterns.len(), 2);
    assert_eq!(patterns[0].tiles, vec![vec![Water]]);
    assert_eq!(patterns[0].occurrence_count, 8);
    assert_eq!(patterns[1].tiles, vec![vec![Beach]]);
    assert_eq!(patterns[1].occurrence_count, 8);
    for pair in patterns.windows(2) {
        assert_eq!(compare_grids(&pair[0].tiles, &pair[1].tiles), std::cmp::Ordering::Less);
    }
}

#[test]
fn tile_comparison_is_lexicographic() {
    let a = vec![vec![Water, Field]];
    let b = vec![vec![Water, Forest]];
    let c = vec![vec![Water, Field], vec![Water]];
    assert_eq!(compare_grids(&a, &b), std::cmp::Ordering::Less);
    assert_eq!(compare_grids(&b, &a), std::cmp::Ordering::Greater);
    assert_eq!(compare_grids(&a, &c), std::cmp::Ordering::Less);
    assert!(grids_equal(&a, &a.clone()));
    assert!(!grids_equal(&a, &b));
}

#[test]
fn super_grid_set_and_collapse() {
    let reference = {
        let mut g = TileGrid::new_filled(Water, [4, 4]);
        g.set(3, 3, Beach);
        g.set(2, 3, Beach);
        g
    };
    let patterns = reference.get_patterns::<2, 2>();
    let palette = PatternPalette::new(patterns);
    let mut grid = SuperGrid::new_empty(palette, [5, 5]);
    let start = grid.to_tile_grid();
    assert_eq!(start.grid_size, [5, 5]);
    grid.set(2, 2, flag(Water));
    let after_set = grid.to_tile_grid();
    assert_eq!(after_set.data[2][2], Water);
    grid.collapse_grid();
    let out = grid.to_tile_grid();
    assert_eq!(out.grid_size, [5, 5]);
    assert_eq!(out.data.len(), 5);
    assert!(out.data.iter().all(|c| c.len() == 5));
}

#[test]
fn wfc_pattern_reads_rows() {
    let p = WfcPattern::new_from_slices(&[Water, Field, Beach], &[Forest, Mountain, Water], &[Beach, Beach, Field]);
    assert_eq!(p.get_type_at(0, 0), Water);
    assert_eq!(p.get_type_at(1, 0), Forest);
    assert_eq!(p.get_type_at(0, 1), Field);
    let r = p.rotation();
    assert_eq!(r.get_type_at(1, 0), p.get_type_at(0, 1));
    let all = [WorldTileTypeFlags::all(); 3];
    let columns: Vec<&[WorldTileTypeFlags]> = vec![&all, &all, &all];
    assert!(p.pattern_fits(&columns));
    let only_water = [flag(Water); 3];
    let columns: Vec<&[WorldTileTypeFlags]> = vec![&only_water];
    assert!(!p.pattern_fits(&columns));
    let columns: Vec<&[WorldTileTypeFlags]> = vec![&only_water[..1]];
    assert!(p.pattern_fits(&columns));
}

#[test]
fn set_rules_out_the_placements_it_contradicts() {
    // two patterns: all water and all beach
    let palette = PatternPalette::new(vec![two_by_two(Water, Water, Water, Water), two_by_two(Beach, Beach, Beach, Beach)]);
    let mut grid = SuperGrid::new_empty(palette, [2, 2]);
    grid.set(0, 0, flag(Beach));
    // every water placement over [0][0] is ruled out, so no cell next to
    // it keeps water, and so on across the grid
    let out = grid.to_tile_grid();
    assert_eq!(out.data, vec![vec![Beach, Beach], vec![Beach, Beach]]);
}

#[test]
fn setting_the_same_flags_twice_changes_nothing_the_second_time() {
    let palette = PatternPalette::new(vec![two_by_two(Water, Water, Field, Beach)]);
    let mut tile = SuperTile::new(&palette);
    assert_eq!(tile.enabled_patterns(&palette).len(), tile.entropy());
    let keep = flag(Water).union(flag(Field));
    let first = tile.set_flag(keep, &palette);
    assert_eq!(first.bits(), 124 & !(4 | 8));
    let (types, entropy) = (tile.get_type_count(), tile.entropy());
    assert!(entropy < 4);
    let second = tile.set_flag(keep, &palette);
    assert_eq!(second.bits(), 0);
    assert_eq!(tile.get_type_count(), types);
    assert_eq!(tile.entropy(), entropy);
    assert_eq!(tile.enabled_patterns(&palette).len(), tile.entropy());
}

#[test]
fn a_decided_cell_takes_the_drawn_type() {
    let reference = TileGrid::new_filled(Water, [4, 4]);
    let patterns = reference.get_patterns::<2, 2>();
    let palette = PatternPalette::new(patterns);
    let mut grid = SuperGrid::new_empty(palette, [3, 3]);
    grid.collapse_cell(1, 1, flag(Water));
    assert_eq!(grid.to_tile_grid().data[1][1], Water);
}

#[test]
fn setting_a_cell_rules_out_nothing_that_agrees() {
    let reference = TileGrid::new_filled(Water, [4, 4]);
    let patterns = reference.get_patterns::<2, 2>();
    let palette = PatternPalette::new(patterns);
    let mut grid = SuperGrid::new_empty(palette, [4, 4]);
    grid.set(0, 0, flag(Water));
    grid.set(1, 1, flag(Water));
    let out = grid.to_tile_grid();
    // every placement puts water, so nothing contradicts the two cells
    assert_eq!(out.data[0][0], Water);
    assert_eq!(out.data[1][1], Water);
}
