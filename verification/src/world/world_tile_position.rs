use vstd::prelude::*;

verus! {

/// The position of a tile in the world.
#[derive(Debug, PartialEq, Eq, Clone, Copy, Structural)]
pub struct WorldTilePosition {
    pub x: i16,
    pub y: i16,
}

/// The eight positions around `p`: right, left, below, above, then the four
/// diagonals.
pub open spec fn neighbour_seq(p: WorldTilePosition) -> Seq<WorldTilePosition> {
    seq![
        WorldTilePosition { x: (p.x + 1) as i16, y: p.y },
        WorldTilePosition { x: (p.x - 1) as i16, y: p.y },
        WorldTilePosition { x: p.x, y: (p.y + 1) as i16 },
        WorldTilePosition { x: p.x, y: (p.y - 1) as i16 },
        WorldTilePosition { x: (p.x + 1) as i16, y: (p.y + 1) as i16 },
        WorldTilePosition { x: (p.x - 1) as i16, y: (p.y + 1) as i16 },
        WorldTilePosition { x: (p.x + 1) as i16, y: (p.y - 1) as i16 },
        WorldTilePosition { x: (p.x - 1) as i16, y: (p.y - 1) as i16 },
    ]
}

/// Position `p` is not on the edge of the coordinate range, so that its
/// neighbours can be named.
pub open spec fn inner_position(p: WorldTilePosition) -> bool {
    i16::MIN < p.x < i16::MAX && i16::MIN < p.y < i16::MAX
}

impl WorldTilePosition {
    pub fn new(x: i16, y: i16) -> (r: Self)
        ensures
            r.x == x,
            r.y == y,
    {
        Self { x, y }
    }

    /// The eight positions around this one: right, left, below, above, then
    /// the four diagonals.
    pub fn neighbours(&self) -> (r: [WorldTilePosition; 8])
        requires
            i16::MIN < self.x < i16::MAX,
            i16::MIN < self.y < i16::MAX,
        ensures
            r@ == neighbour_seq(*self),
    {
        let r = [
            WorldTilePosition::new(self.x + 1, self.y),
            WorldTilePosition::new(self.x - 1, self.y),
            WorldTilePosition::new(self.x, self.y + 1),
            WorldTilePosition::new(self.x, self.y - 1),
            WorldTilePosition::new(self.x + 1, self.y + 1),
            WorldTilePosition::new(self.x - 1, self.y + 1),
            WorldTilePosition::new(self.x + 1, self.y - 1),
            WorldTilePosition::new(self.x - 1, self.y - 1),
        ];
        assert(r@ =~= neighbour_seq(*self));
        r
    }
}

} // verus!
