use strategy_haven::world::terrain::{cleanup_terrain, next_to_collapse, propagate_neighbours};
use strategy_haven::world::world_tile_position::WorldTilePosition;
use strategy_haven::world::world_tile_type::WorldTileType;
use strategy_haven::world::world_tile_type_flags::WorldTileTypeFlags;

fn flag(t: WorldTileType) -> WorldTileTypeFlags {
    WorldTileTypeFlags::from_tile_type(t)
}

fn at(x: i16, y: i16) -> WorldTilePosition {
    WorldTilePosition::new(x, y)
}

#[test]
fn lonely_beaches_become_water() {
    let tiles = vec![
        (at(0, 0), flag(WorldTileType::Beach)),
        (at(1, 1), flag(WorldTileType::Field)),
        (at(5, 5), flag(WorldTileType::Beach)),
        (at(6, 5), flag(WorldTileType::Forest)),
        (at(9, 9), flag(WorldTileType::Field)),
    ];
    let cleaned = cleanup_terrain(&tiles);
    assert_eq!(
        cleaned,
        vec![
            flag(WorldTileType::Beach),
            flag(WorldTileType::Field),
            flag(WorldTileType::Water),
            flag(WorldTileType::Forest),
            flag(WorldTileType::Field),
        ]
    );
}

#[test]
fn the_least_open_tile_collapses_first() {
    let water_beach = flag(WorldTileType::Water).union(flag(WorldTileType::Beach));
    let three = water_beach.union(flag(WorldTileType::Field));
    let tiles = vec![WorldTileTypeFlags::all(), flag(WorldTileType::Water), three, water_beach, water_beach];
    assert_eq!(next_to_collapse(&tiles), Some(3));
    let settled = vec![flag(WorldTileType::Water), WorldTileTypeFlags::empty()];
    assert_eq!(next_to_collapse(&settled), None);
}

#[test]
fn neighbours_keep_what_may_stand_next_to_them() {
    let mut tiles = vec![
        (at(0, 0), WorldTileTypeFlags::all()),
        (at(1, 0), WorldTileTypeFlags::all()),
        (at(5, 5), WorldTileTypeFlags::all()),
    ];
    // water was placed at [-1][0]: water and beach may stand next to it
    let allowed = flag(WorldTileType::Water).get_allowed();
    propagate_neighbours(at(-1, 0), allowed, &mut tiles);
    let water_beach = flag(WorldTileType::Water).union(flag(WorldTileType::Beach));
    assert_eq!(tiles[0].1, water_beach);
    assert_eq!(tiles[1].1, water_beach.union(flag(WorldTileType::Field)));
    assert_eq!(tiles[2].1, WorldTileTypeFlags::all());
    // an empty set of allowed types counts as field
    let mut more = vec![(at(0, 0), WorldTileTypeFlags::all())];
    propagate_neighbours(at(0, 1), WorldTileTypeFlags::empty(), &mut more);
    assert_eq!(more[0].1, flag(WorldTileType::Field));
}

#[test]
fn narrowed_tiles_agree_with_their_neighbours() {
    let mut tiles = vec![
        (at(0, 0), WorldTileTypeFlags::all()),
        (at(1, 0), WorldTileTypeFlags::all()),
        (at(2, 0), WorldTileTypeFlags::all()),
        (at(1, 1), flag(WorldTileType::Mountain)),
    ];
    let before = tiles.clone();
    propagate_neighbours(at(-1, 0), flag(WorldTileType::Forest).get_allowed(), &mut tiles);
    // every tile that changed keeps its neighbours with several types to
    // what may stand next to it
    for i in 0..tiles.len() {
        if tiles[i].1 == before[i].1 {
            continue;
        }
        let passed = tiles[i].1.get_allowed();
        for j in 0..tiles.len() {
            let (dx, dy) = (tiles[j].0.x - tiles[i].0.x, tiles[j].0.y - tiles[i].0.y);
            if (dx, dy) != (0, 0) && dx.abs() <= 1 && dy.abs() <= 1 && tiles[j].1.count() > 1 {
                assert!(passed.contains(tiles[j].1));
            }
        }
    }
    assert_eq!(tiles[3].1, flag(WorldTileType::Mountain));
    let field_forest = flag(WorldTileType::Field).union(flag(WorldTileType::Forest));
    assert_eq!(tiles[0].1, field_forest);
}
