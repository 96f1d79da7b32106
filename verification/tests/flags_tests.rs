use strategy_haven::world::world_tile_type::WorldTileType;
use strategy_haven::world::world_tile_type_flags::WorldTileTypeFlags;

fn flag(t: WorldTileType) -> WorldTileTypeFlags {
    WorldTileTypeFlags::from_tile_type(t)
}

#[test]
fn tile_type_bits() {
    assert_eq!(flag(WorldTileType::Water).bits(), 4);
    assert_eq!(flag(WorldTileType::Field).bits(), 8);
    assert_eq!(flag(WorldTileType::Forest).bits(), 16);
    assert_eq!(flag(WorldTileType::Mountain).bits(), 32);
    assert_eq!(flag(WorldTileType::Beach).bits(), 64);
    assert_eq!(WorldTileTypeFlags::all().bits(), 124);
    assert_eq!(WorldTileTypeFlags::empty().bits(), 0);
}

#[test]
fn allowed_neighbours_of_single_types() {
    assert_eq!(flag(WorldTileType::Water).get_allowed().bits(), 4 | 64);
    assert_eq!(flag(WorldTileType::Field).get_allowed().bits(), 8 | 16 | 32 | 64);
    assert_eq!(flag(WorldTileType::Forest).get_allowed().bits(), 8 | 16);
    assert_eq!(flag(WorldTileType::Mountain).get_allowed().bits(), 8 | 32);
    assert_eq!(flag(WorldTileType::Beach).get_allowed().bits(), 4 | 64 | 8);
}

#[test]
fn allowed_neighbours_of_a_union_is_the_union() {
    let water_forest = flag(WorldTileType::Water).union(flag(WorldTileType::Forest));
    assert_eq!(water_forest.get_allowed().bits(), 4 | 64 | 8 | 16);
    assert_eq!(WorldTileTypeFlags::empty().get_allowed().bits(), 0);
    assert_eq!(WorldTileTypeFlags::all().get_allowed().bits(), 124);
}

#[test]
fn tile_type_of_a_single_flag() {
    assert_eq!(flag(WorldTileType::Mountain).get_tile_type(), WorldTileType::Mountain);
    assert_eq!(flag(WorldTileType::Beach).get_tile_type(), WorldTileType::Beach);
    assert_eq!(WorldTileTypeFlags::all().get_tile_type(), WorldTileType::Water);
    assert_eq!(WorldTileTypeFlags::empty().get_tile_type(), WorldTileType::Water);
}

#[test]
fn set_operations() {
    let a = flag(WorldTileType::Water).union(flag(WorldTileType::Field));
    let b = flag(WorldTileType::Field).union(flag(WorldTileType::Beach));
    assert_eq!(a.intersection(b).bits(), 8);
    assert_eq!(a.symmetric_difference(b).bits(), 4 | 64);
    assert!(a.contains(flag(WorldTileType::Water)));
    assert!(!a.contains(flag(WorldTileType::Beach)));
    assert_eq!(a.count(), 2);
    assert_eq!(WorldTileTypeFlags::all().count(), 5);
    assert!(WorldTileTypeFlags::empty().is_empty());
    assert_eq!(WorldTileTypeFlags::from_bits_truncate(0xff).bits(), 124);
}

#[test]
fn a_tile_type_converts_into_its_flag() {
    let f: WorldTileTypeFlags = WorldTileType::Beach.into();
    assert_eq!(f, WorldTileTypeFlags::from_tile_type(WorldTileType::Beach));
    assert_eq!(WorldTileTypeFlags::from(WorldTileType::Water).bits(), 4);
}
