use vstd::prelude::*;

use crate::world::world_tile_type::WorldTileType;

verus! {

/// The flag bit that stands for one tile type.
pub open spec fn tile_bit(t: WorldTileType) -> u8 {
    match t {
        WorldTileType::Water => 4,
        WorldTileType::Field => 8,
        WorldTileType::Forest => 16,
        WorldTileType::Mountain => 32,
        WorldTileType::Beach => 64,
    }
}

/// The bits of all five tile types.
pub open spec fn all_bits() -> u8 {
    124
}

/// The tile types that may stand next to a tile of type `t`.
pub open spec fn allowed_bits(t: WorldTileType) -> u8 {
    match t {
        // water and beach
        WorldTileType::Water => 68,
        // field, forest, mountain and beach
        WorldTileType::Field => 120,
        // field and forest
        WorldTileType::Forest => 24,
        // field and mountain
        WorldTileType::Mountain => 40,
        // water, beach and field
        WorldTileType::Beach => 76,
    }
}

/// The tile type that a flag set stands for: the single type it holds, or
/// water where it holds none or several.
pub open spec fn tile_type_of_bits(bits: u8) -> WorldTileType {
    if bits == 4 {
        WorldTileType::Water
    } else if bits == 8 {
        WorldTileType::Field
    } else if bits == 32 {
        WorldTileType::Mountain
    } else if bits == 16 {
        WorldTileType::Forest
    } else if bits == 64 {
        WorldTileType::Beach
    } else {
        WorldTileType::Water
    }
}

/// The union of the neighbour sets of every tile type held in `bits`.
pub open spec fn allowed_union(bits: u8) -> u8 {
    (if bits & 4 != 0 { allowed_bits(WorldTileType::Water) } else { 0 })
        | (if bits & 8 != 0 { allowed_bits(WorldTileType::Field) } else { 0 })
        | (if bits & 16 != 0 { allowed_bits(WorldTileType::Forest) } else { 0 })
        | (if bits & 32 != 0 { allowed_bits(WorldTileType::Mountain) } else { 0 })
        | (if bits & 64 != 0 { allowed_bits(WorldTileType::Beach) } else { 0 })
}

/// Facts about the five flag bits under the bitwise operators.
pub proof fn lemma_flag_bits(x: u8, y: u8)
    by (bit_vector)
    ensures
        ((x | y) & 4 != 0) == (x & 4 != 0 || y & 4 != 0),
        ((x | y) & 8 != 0) == (x & 8 != 0 || y & 8 != 0),
        ((x | y) & 16 != 0) == (x & 16 != 0 || y & 16 != 0),
        ((x | y) & 32 != 0) == (x & 32 != 0 || y & 32 != 0),
        ((x | y) & 64 != 0) == (x & 64 != 0 || y & 64 != 0),
        ((x & y) & 4 != 0) == (x & 4 != 0 && y & 4 != 0),
        ((x & y) & 8 != 0) == (x & 8 != 0 && y & 8 != 0),
        ((x & y) & 16 != 0) == (x & 16 != 0 && y & 16 != 0),
        ((x & y) & 32 != 0) == (x & 32 != 0 && y & 32 != 0),
        ((x & y) & 64 != 0) == (x & 64 != 0 && y & 64 != 0),
        ((x ^ y) & 4 != 0) == ((x & 4 != 0) != (y & 4 != 0)),
        ((x ^ y) & 8 != 0) == ((x & 8 != 0) != (y & 8 != 0)),
        ((x ^ y) & 16 != 0) == ((x & 16 != 0) != (y & 16 != 0)),
        ((x ^ y) & 32 != 0) == ((x & 32 != 0) != (y & 32 != 0)),
        ((x ^ y) & 64 != 0) == ((x & 64 != 0) != (y & 64 != 0)),
        (x & 131 == 0 && y & 131 == 0) ==> (x == y <==> (x & 4 == y & 4 && x & 8 == y & 8
            && x & 16 == y & 16 && x & 32 == y & 32 && x & 64 == y & 64)),
        (x & 131 == 0) ==> ((x & y == x) <==> ((x & 4 != 0 ==> y & 4 != 0) && (x & 8 != 0
            ==> y & 8 != 0) && (x & 16 != 0 ==> y & 16 != 0) && (x & 32 != 0 ==> y & 32 != 0)
            && (x & 64 != 0 ==> y & 64 != 0))),
        (x & 131 == 0 && y & 131 == 0) ==> ((x | y) & 131 == 0 && (x ^ y) & 131 == 0),
        (x & 131 == 0) ==> (x & y) & 131 == 0,
        x & 124 & 131 == 0,
        0u8 & 131 == 0,
        124u8 & 131 == 0,
        4u8 & 131 == 0,
        8u8 & 131 == 0,
        16u8 & 131 == 0,
        32u8 & 131 == 0,
        64u8 & 131 == 0,
{
}

/// The neighbour set of any flag set holds only tile type bits.
pub proof fn lemma_allowed_well_formed(b: u8)
    by (bit_vector)
    ensures
        ((if b & 4 != 0 { 68u8 } else { 0u8 }) | (if b & 8 != 0 { 120u8 } else { 0u8 }) | (if b
            & 16 != 0 { 24u8 } else { 0u8 }) | (if b & 32 != 0 { 40u8 } else { 0u8 }) | (if b & 64
            != 0 { 76u8 } else { 0u8 })) & 131 == 0,
{
}

/// A set holds all of the single bit of a tile type exactly when it holds
/// that bit at all.
pub proof fn lemma_contains_bit(x: u8)
    by (bit_vector)
    ensures
        (x & 4 == 4) == (x & 4 != 0),
        (x & 8 == 8) == (x & 8 != 0),
        (x & 16 == 16) == (x & 16 != 0),
        (x & 32 == 32) == (x & 32 != 0),
        (x & 64 == 64) == (x & 64 != 0),
{
}

/// A set of tile types, stored as one bit per type.
#[derive(Debug, Clone, Copy, PartialEq, Eq, Structural)]
pub struct WorldTileTypeFlags {
    bits: u8,
}

impl View for WorldTileTypeFlags {
    type V = u8;

    closed spec fn view(&self) -> u8 {
        self.bits
    }
}

impl WorldTileTypeFlags {
    /// Whether the set holds tile type `t`.
    pub open spec fn has(self, t: WorldTileType) -> bool {
        self@ & tile_bit(t) != 0
    }

    /// The number of tile types in the set.
    pub open spec fn type_count(self) -> nat {
        (if self.has(WorldTileType::Water) { 1nat } else { 0nat })
            + (if self.has(WorldTileType::Field) { 1nat } else { 0nat })
            + (if self.has(WorldTileType::Forest) { 1nat } else { 0nat })
            + (if self.has(WorldTileType::Mountain) { 1nat } else { 0nat })
            + (if self.has(WorldTileType::Beach) { 1nat } else { 0nat })
    }

    /// The set holds no bit outside the five tile types.
    pub open spec fn well_formed(self) -> bool {
        self@ & 131u8 == 0
    }

    /// The set of all five tile types.
    pub closed spec fn spec_all() -> Self {
        WorldTileTypeFlags { bits: 124 }
    }

    /// The set of all five tile types holds their bits.
    pub proof fn lemma_spec_all()
        ensures
            Self::spec_all()@ == all_bits(),
    {
    }

    /// The set that holds exactly tile type `t`.
    pub open spec fn single(t: WorldTileType) -> u8 {
        tile_bit(t)
    }

    pub fn empty() -> (r: Self)
        ensures
            r@ == 0,
            r.well_formed(),
    {
        proof {
            lemma_flag_bits(0, 0);
        }
        WorldTileTypeFlags { bits: 0 }
    }

    pub fn all() -> (r: Self)
        ensures
            r@ == all_bits(),
            r == Self::spec_all(),
            r.well_formed(),
    {
        proof {
            lemma_flag_bits(124, 0);
        }
        WorldTileTypeFlags { bits: 124 }
    }

    /// The tile type this set stands for (water unless it holds exactly one).
    pub fn get_tile_type(&self) -> (r: WorldTileType)
        ensures
            r == tile_type_of_bits(self@),
    {
        if self.bits == 4 {
            WorldTileType::Water
        } else if self.bits == 8 {
            WorldTileType::Field
        } else if self.bits == 32 {
            WorldTileType::Mountain
        } else if self.bits == 16 {
            WorldTileType::Forest
        } else if self.bits == 64 {
            WorldTileType::Beach
        } else {
            WorldTileType::Water
        }
    }

    /// The tile types that may stand next to some tile type of this set.
    pub fn get_allowed(&self) -> (r: WorldTileTypeFlags)
        ensures
            r@ == allowed_union(self@),
            r.well_formed(),
    {
        let b = self.bits;
        let acc: u8 = (if b & 4 != 0 { 68u8 } else { 0u8 }) | (if b & 8 != 0 { 120u8 } else { 0u8 })
            | (if b & 16 != 0 { 24u8 } else { 0u8 }) | (if b & 32 != 0 { 40u8 } else { 0u8 })
            | (if b & 64 != 0 { 76u8 } else { 0u8 });
        proof {
            lemma_allowed_well_formed(b);
        }
        WorldTileTypeFlags { bits: acc }
    }

    /// The number of tile types in the set.
    pub fn count(&self) -> (r: u32)
        ensures
            r == self.type_count(),
    {
        let b = self.bits;
        let mut n: u32 = 0;
        if b & 4 != 0 {
            n = n + 1;
        }
        if b & 8 != 0 {
            n = n + 1;
        }
        if b & 16 != 0 {
            n = n + 1;
        }
        if b & 32 != 0 {
            n = n + 1;
        }
        if b & 64 != 0 {
            n = n + 1;
        }
        n
    }

    pub fn bits(&self) -> (r: u8)
        ensures
            r == self@,
    {
        self.bits
    }

    /// Keeps the bits of `bits` that stand for a tile type.
    pub fn from_bits_truncate(bits: u8) -> (r: Self)
        ensures
            r@ == bits & all_bits(),
            r.well_formed(),
    {
        let b = bits & 124u8;
        proof {
            lemma_flag_bits(bits, 0);
        }
        WorldTileTypeFlags { bits: b }
    }

    /// The set holding one tile type.
    pub fn from_tile_type(t: WorldTileType) -> (r: Self)
        ensures
            r@ == tile_bit(t),
            r.well_formed(),
    {
        let bits: u8 = match t {
            WorldTileType::Water => 4,
            WorldTileType::Field => 8,
            WorldTileType::Forest => 16,
            WorldTileType::Mountain => 32,
            WorldTileType::Beach => 64,
        };
        proof {
            lemma_flag_bits(0, 0);
        }
        WorldTileTypeFlags { bits }
    }

    pub fn union(self, other: Self) -> (r: Self)
        ensures
            r@ == self@ | other@,
            self.well_formed() && other.well_formed() ==> r.well_formed(),
    {
        let b = self.bits | other.bits;
        proof {
            lemma_flag_bits(self@, other@);
        }
        WorldTileTypeFlags { bits: b }
    }

    pub fn intersection(self, other: Self) -> (r: Self)
        ensures
            r@ == self@ & other@,
            self.well_formed() ==> r.well_formed(),
    {
        let b = self.bits & other.bits;
        proof {
            lemma_flag_bits(self@, other@);
        }
        WorldTileTypeFlags { bits: b }
    }

    pub fn symmetric_difference(self, other: Self) -> (r: Self)
        ensures
            r@ == self@ ^ other@,
            self.well_formed() && other.well_formed() ==> r.well_formed(),
    {
        let b = self.bits ^ other.bits;
        proof {
            lemma_flag_bits(self@, other@);
        }
        WorldTileTypeFlags { bits: b }
    }

    /// Whether every bit of `other` is in `self`.
    pub fn contains(&self, other: Self) -> (r: bool)
        ensures
            r == (self@ & other@ == other@),
    {
        self.bits & other.bits == other.bits
    }

    pub fn is_empty(&self) -> (r: bool)
        ensures
            r == (self@ == 0),
    {
        self.bits == 0
    }
}

/// The set holding one tile type.
impl From<WorldTileType> for WorldTileTypeFlags {
    fn from(t: WorldTileType) -> (r: Self) {
        Self::from_tile_type(t)
    }
}

impl vstd::std_specs::convert::FromSpecImpl<WorldTileType> for WorldTileTypeFlags {
    open spec fn obeys_from_spec() -> bool {
        true
    }

    closed spec fn from_spec(t: WorldTileType) -> Self {
        WorldTileTypeFlags { bits: tile_bit(t) }
    }
}

/// The set that `from` makes of a tile type holds exactly that type.
pub proof fn lemma_from_tile_type(t: WorldTileType)
    ensures
        (<WorldTileTypeFlags as vstd::std_specs::convert::FromSpec<WorldTileType>>::from_spec(t))@ == tile_bit(t),
        (<WorldTileTypeFlags as vstd::std_specs::convert::FromSpec<WorldTileType>>::from_spec(t)).well_formed(),
{
    lemma_flag_bits(0, 0);
}

} // verus!
