use strategy_haven::game::world_tile_type::WorldTileType;
use strategy_haven::world::ms::constraint::{Constraint, ConstraintDirection};
use strategy_haven::world::ms::constraint_collection::ConstraintCollection;
use strategy_haven::world::ms::ms_grid::MSGrid;
use strategy_haven::world::ms::pattern::Pattern;
use strategy_haven::world::ms::pattern_collection::PatternCollection;
use strategy_haven::world::ms::state_choice::{pick_state, total_weight};
use strategy_haven::world::tile_grid::TileGrid;

fn pattern(tiles: Vec<Vec<WorldTileType>>) -> Pattern {
    let size = [tiles.len(), tiles[0].len()];
    Pattern { tiles, size }
}

#[test]
fn weighted_pick_follows_the_running_sum() {
    let states = vec![10usize, 20, 30];
    let weights = vec![1usize, 2, 3];
    assert_eq!(total_weight(&weights), 6);
    assert_eq!(pick_state(&states, &weights, 0), 10);
    assert_eq!(pick_state(&states, &weights, 1), 10);
    assert_eq!(pick_state(&states, &weights, 2), 20);
    assert_eq!(pick_state(&states, &weights, 3), 20);
    assert_eq!(pick_state(&states, &weights, 4), 30);
    assert_eq!(pick_state(&states, &weights, 5), 30);
}

#[test]
fn total_weight_does_not_overflow() {
    let weights = vec![usize::MAX, usize::MAX, 3];
    assert_eq!(total_weight(&weights), 2 * (usize::MAX as u128) + 3);
}

#[test]
fn add_or_get_counts_sightings() {
    let mut collection = PatternCollection::new();
    let a = pattern(vec![vec![WorldTileType::Water, WorldTileType::Field]]);
    let b = pattern(vec![vec![WorldTileType::Field, WorldTileType::Water]]);
    assert_eq!(collection.add_or_get(a.copy()), 0);
    assert_eq!(collection.add_or_get(b.copy()), 1);
    assert_eq!(collection.add_or_get(a.copy()), 0);
    assert_eq!(collection.get_count(0), 2);
    assert_eq!(collection.get_count(1), 1);
    assert_eq!(collection.get_all_ids(), vec![0, 1]);
    assert!(collection.get(1).same_as(&b));
}

#[test]
fn pattern_transforms() {
    let p = pattern(vec![
        vec![WorldTileType::Water, WorldTileType::Field],
        vec![WorldTileType::Beach, WorldTileType::Forest],
    ]);
    let r = p.get_rotation();
    assert_eq!(r.tiles, vec![vec![WorldTileType::Beach, WorldTileType::Water], vec![WorldTileType::Forest, WorldTileType::Field]]);
    assert_eq!(p.flip_x().tiles, vec![vec![WorldTileType::Beach, WorldTileType::Forest], vec![WorldTileType::Water, WorldTileType::Field]]);
    assert_eq!(p.flip_y().tiles, vec![vec![WorldTileType::Field, WorldTileType::Water], vec![WorldTileType::Forest, WorldTileType::Beach]]);
    let grid = p.get_grid();
    assert_eq!(grid.grid_size, [2, 2]);
}

#[test]
fn constraint_collection_holds_what_was_added() {
    let mut collection = ConstraintCollection::new();
    let c = Constraint { pattern_a_id: 0, pattern_b_id: 1, direction: ConstraintDirection::Top };
    assert!(!collection.contains(&c));
    collection.add(c);
    collection.add(c);
    assert!(collection.contains(&c));
    assert_eq!(collection.to_vec(), vec![c]);
}

#[test]
fn rotations_and_flips_carry_constraints() {
    let mut patterns = PatternCollection::new();
    let mut constraints = ConstraintCollection::new();
    let a = patterns.add_or_get(pattern(vec![vec![WorldTileType::Water, WorldTileType::Water], vec![WorldTileType::Field, WorldTileType::Field]]));
    let b = patterns.add_or_get(pattern(vec![vec![WorldTileType::Beach, WorldTileType::Beach], vec![WorldTileType::Beach, WorldTileType::Beach]]));
    constraints.add(Constraint { pattern_a_id: a, pattern_b_id: b, direction: ConstraintDirection::Left });
    constraints.add(Constraint { pattern_a_id: b, pattern_b_id: a, direction: ConstraintDirection::Right });
    patterns.add_rotations(&mut constraints);
    // a turned a quarter is a new pattern; the all-beach pattern stays itself
    assert!(patterns.patterns.len() > 2);
    let rotated_a = patterns.patterns.iter().position(|p| p.same_as(&patterns.get(a).get_rotation())).unwrap();
    assert!(constraints.contains(&Constraint { pattern_a_id: rotated_a, pattern_b_id: b, direction: ConstraintDirection::Bottom }));
    patterns.add_flips(&mut constraints);
    let mirrored_a = patterns.patterns.iter().position(|p| p.same_as(&patterns.get(a).flip_x())).unwrap();
    assert!(constraints.contains(&Constraint { pattern_a_id: mirrored_a, pattern_b_id: b, direction: ConstraintDirection::Right }));
}

fn uniform_grid(t: WorldTileType, w: usize, h: usize) -> TileGrid {
    TileGrid::new_filled(t, [w, h])
}

#[test]
fn a_uniform_reference_collapses_to_itself() {
    let reference = uniform_grid(WorldTileType::Water, 4, 4);
    let mut grid = MSGrid::from_tile_grid(&reference, 2, 2, 3, 3);
    assert!(grid.every_cell_alive());
    assert_eq!(grid.alive_patterns(0, 0), vec![0]);
    assert!(grid.is_fully_collapsed());
    grid.collapse_grid();
    assert!(grid.every_cell_alive());
    let out = grid.to_tile_grid();
    assert_eq!(out.grid_size, [6, 6]);
    assert!(out.data.iter().all(|c| c.len() == 6 && c.iter().all(|t| *t == WorldTileType::Water)));
}

#[test]
fn neighbours_left_column_first() {
    let reference = uniform_grid(WorldTileType::Field, 4, 4);
    let grid = MSGrid::from_tile_grid(&reference, 2, 2, 3, 3);
    let n = grid.get_neigbours(1, 1);
    assert_eq!(
        n,
        vec![
            ([0, 1], ConstraintDirection::Right),
            ([0, 0], ConstraintDirection::BottomRight),
            ([0, 2], ConstraintDirection::TopRight),
            ([2, 1], ConstraintDirection::Left),
            ([2, 0], ConstraintDirection::BottomLeft),
            ([2, 2], ConstraintDirection::TopLeft),
            ([1, 0], ConstraintDirection::Bottom),
            ([1, 2], ConstraintDirection::Top),
        ]
    );
    assert_eq!(grid.get_neigbours(0, 0), vec![([1, 0], ConstraintDirection::Left), ([1, 1], ConstraintDirection::TopLeft), ([0, 1], ConstraintDirection::Top)]);
}

#[test]
fn a_striped_reference_collapses_every_cell() {
    // columns alternate between water and field
    let mut reference = uniform_grid(WorldTileType::Water, 6, 6);
    for x in (1..6).step_by(2) {
        for y in 0..6 {
            reference.set(x, y, WorldTileType::Field);
        }
    }
    let mut grid = MSGrid::from_tile_grid(&reference, 2, 2, 4, 4);
    assert!(grid.every_cell_alive());
    assert!(!grid.is_fully_collapsed());
    let done = grid.collapse_subset([0, 0], [4, 4]);
    if done {
        assert!(grid.every_cell_alive());
        assert!(grid.is_fully_collapsed());
    } else {
        assert!(!grid.every_cell_alive());
    }
}

#[test]
fn without_drops_the_chosen_state() {
    assert_eq!(strategy_haven::world::ms::ms_grid::without(&vec![3, 1, 3, 2], 3), vec![1, 2]);
}

#[test]
fn collapsed_neighbours_follow_the_reference() {
    // columns: water, beach, forest, beach, water, beach, forest, beach;
    // water and forest never touch, in any of the eight directions
    let mut reference = uniform_grid(WorldTileType::Beach, 8, 8);
    for y in 0..8 {
        reference.set(0, y, WorldTileType::Water);
        reference.set(4, y, WorldTileType::Water);
        reference.set(2, y, WorldTileType::Forest);
        reference.set(6, y, WorldTileType::Forest);
    }
    let mut grid = MSGrid::from_tile_grid(&reference, 1, 1, 5, 5);
    grid.collapse_grid();
    assert!(grid.every_cell_alive());
    if grid.is_fully_collapsed() {
        let out = grid.to_tile_grid();
        assert_eq!(out.grid_size, [5, 5]);
        for x in 0..5i64 {
            for y in 0..5i64 {
                for dx in -1..=1i64 {
                    for dy in -1..=1i64 {
                        let (nx, ny) = (x + dx, y + dy);
                        if (dx, dy) == (0, 0) || nx < 0 || ny < 0 || nx >= 5 || ny >= 5 {
                            continue;
                        }
                        let a = out.data[x as usize][y as usize];
                        let b = out.data[nx as usize][ny as usize];
                        assert!(!(a == WorldTileType::Water && b == WorldTileType::Forest));
                    }
                }
            }
        }
    }
}

#[test]
fn collapsing_a_cell_keeps_the_drawn_pattern() {
    let mut reference = uniform_grid(WorldTileType::Water, 6, 6);
    for x in (1..6).step_by(2) {
        for y in 0..6 {
            reference.set(x, y, WorldTileType::Field);
        }
    }
    let mut grid = MSGrid::from_tile_grid(&reference, 2, 2, 4, 4);
    let states = grid.alive_patterns(1, 1);
    assert!(states.len() > 1);
    // a target of zero is reached by the first possible pattern
    let kept = states[0];
    if grid.collapse_cell(1, 1, 0) {
        assert_eq!(grid.alive_patterns(1, 1), vec![kept]);
        assert!(grid.every_cell_alive());
    } else {
        assert!(!grid.every_cell_alive());
    }
}
