use vstd::prelude::*;

verus! {

/// The tile types that are exchanged with clients and stored in tile grids.
#[derive(Debug, Clone, Copy, PartialEq, Eq, Structural)]
pub enum WorldTileType {
    Water,
    Field,
    Forest,
    Mountain,
    Beach,
    Empty,
    Uncertain,
}


/// The five-letter name of a tile type.
pub open spec fn tile_name(t: WorldTileType) -> Seq<char> {
    match t {
        WorldTileType::Water => "Water"@,
        WorldTileType::Field => "Field"@,
        WorldTileType::Forest => "Forst"@,
        WorldTileType::Mountain => "Mount"@,
        WorldTileType::Beach => "Beach"@,
        WorldTileType::Empty => "Empty"@,
        WorldTileType::Uncertain => "Uncer"@,
    }
}

impl WorldTileType {
    /// The five-letter name of the tile type.
    pub fn name(&self) -> (r: &'static str)
        ensures
            r@ == tile_name(*self),
    {
        match self {
            WorldTileType::Water => "Water",
            WorldTileType::Field => "Field",
            WorldTileType::Forest => "Forst",
            WorldTileType::Mountain => "Mount",
            WorldTileType::Beach => "Beach",
            WorldTileType::Empty => "Empty",
            WorldTileType::Uncertain => "Uncer",
        }
    }
}

} // verus!
