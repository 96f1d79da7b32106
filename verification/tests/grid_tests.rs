use strategy_haven::game::world_tile_type::WorldTileType;
use strategy_haven::world::grid::{flip_grid_x, flip_grid_y, rotate_grid};
use strategy_haven::world::tile_grid::TileGrid;

fn column(tiles: &[WorldTileType]) -> Vec<WorldTileType> {
    tiles.to_vec()
}

#[test]
fn new_filled_set_and_get() {
    let mut grid = TileGrid::new_filled(WorldTileType::Field, [3, 2]);
    assert_eq!(grid.grid_size, [3, 2]);
    assert_eq!(grid.data.len(), 3);
    assert!(grid.data.iter().all(|c| c.len() == 2 && c.iter().all(|t| *t == WorldTileType::Field)));
    grid.set(2, 1, WorldTileType::Beach);
    assert_eq!(grid.get(2, 1), WorldTileType::Beach);
    assert_eq!(grid.get(1, 1), WorldTileType::Field);
}

#[test]
fn resize_pads_with_water_and_cuts() {
    let mut grid = TileGrid::new_filled(WorldTileType::Forest, [2, 2]);
    grid.resize([3, 1]);
    assert_eq!(grid.grid_size, [3, 1]);
    assert_eq!(grid.data, vec![vec![WorldTileType::Forest], vec![WorldTileType::Forest], vec![WorldTileType::Water]]);
}

#[test]
fn shift_moves_tiles_and_fills() {
    let mut grid = TileGrid {
        data: vec![column(&[WorldTileType::Field, WorldTileType::Forest]), column(&[WorldTileType::Beach, WorldTileType::Mountain])],
        grid_size: [2, 2],
    };
    grid.shift([1, 1], WorldTileType::Water);
    assert_eq!(
        grid.data,
        vec![column(&[WorldTileType::Water, WorldTileType::Water]), column(&[WorldTileType::Water, WorldTileType::Field])]
    );
}

#[test]
fn chains_append_below_and_right() {
    let a = TileGrid::new_filled(WorldTileType::Field, [2, 1]);
    let b = TileGrid::new_filled(WorldTileType::Beach, [2, 2]);
    let below = a.chain_below(b);
    assert_eq!(below.grid_size, [2, 3]);
    assert_eq!(below.data[0], column(&[WorldTileType::Field, WorldTileType::Beach, WorldTileType::Beach]));
    let c = TileGrid::new_filled(WorldTileType::Water, [1, 3]);
    let right = below.chain_right(c);
    assert_eq!(right.grid_size, [3, 3]);
    assert_eq!(right.data[2], column(&[WorldTileType::Water; 3]));
}

#[test]
fn grid_transforms() {
    // columns: [1, 2], [3, 4]
    let g = vec![vec![1u8, 2], vec![3, 4]];
    assert_eq!(rotate_grid(&g, 2, 2), vec![vec![3, 1], vec![4, 2]]);
    assert_eq!(flip_grid_x(&g, 2, 2), vec![vec![3, 4], vec![1, 2]]);
    assert_eq!(flip_grid_y(&g, 2, 2), vec![vec![2, 1], vec![4, 3]]);
    let r4 = rotate_grid(&rotate_grid(&rotate_grid(&rotate_grid(&g, 2, 2), 2, 2), 2, 2), 2, 2);
    assert_eq!(r4, g);
    assert_eq!(rotate_grid(&rotate_grid(&g, 2, 2), 2, 2), flip_grid_y(&flip_grid_x(&g, 2, 2), 2, 2));
}

#[test]
fn tile_names() {
    assert_eq!(WorldTileType::Water.name(), "Water");
    assert_eq!(WorldTileType::Forest.name(), "Forst");
    assert_eq!(WorldTileType::Mountain.name(), "Mount");
    assert_eq!(WorldTileType::Uncertain.name(), "Uncer");
}
