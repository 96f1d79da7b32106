use vstd::prelude::*;

verus! {

/// The kinds of terrain a generated world tile can have.
#[derive(Debug, Clone, Copy, PartialEq, Eq, Structural)]
pub enum WorldTileType {
    Water,
    Field,
    Forest,
    Mountain,
    Beach,
}

/// The last variant in declaration order.
pub const LAST_TILE_TYPE: WorldTileType = WorldTileType::Beach;

impl WorldTileType {
    /// Position of the variant in declaration order.
    pub open spec fn index(self) -> int {
        match self {
            WorldTileType::Water => 0,
            WorldTileType::Field => 1,
            WorldTileType::Forest => 2,
            WorldTileType::Mountain => 3,
            WorldTileType::Beach => 4,
        }
    }
}

} // verus!
