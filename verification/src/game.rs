pub mod world_tile_type;
pub mod world_tile_position;
