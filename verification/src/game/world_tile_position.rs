use vstd::prelude::*;

verus! {

/// The position of a tile as exchanged with clients.
#[derive(Debug, Clone, Copy, PartialEq, Eq, Structural)]
pub struct WorldTilePosition {
    pub x: u16,
    pub y: u16,
}

} // verus!
