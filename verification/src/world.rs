pub mod grid;
pub mod ms;
pub mod random;
pub mod sums;
pub mod terrain;
pub mod tile_grid;
pub mod wfc;
pub mod world_tile_position;
pub mod world_tile_type;
pub mod world_tile_type_flags;
