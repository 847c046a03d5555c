//! Block positions, block states and their classification.
use vstd::prelude::*;

verus! {

/// A global block position. `x` and `z` are horizontal, `y` is the level.
#[derive(Copy, Clone, Debug, Default, Hash, PartialEq, Eq, Structural)]
pub struct BlockLocation {
    pub x: i32,
    pub y: i16,
    pub z: i32,
}

/// Whether a level lies inside the world's fixed vertical bound.
pub open spec fn level_in_world(y: int) -> bool {
    0 <= y < 256
}

/// Squared Euclidean distance between two positions.
pub open spec fn spec_dist2(a: BlockLocation, b: BlockLocation) -> int {
    let dx = a.x - b.x;
    let dy = a.y - b.y;
    let dz = a.z - b.z;
    dx * dx + dy * dy + dz * dz
}

proof fn lemma_square_bound(d: int)
    requires
        -0x1_0000_0000 < d < 0x1_0000_0000,
    ensures
        0 <= d * d < 0x1_0000_0000_0000_0000,
{
    if d >= 0 {
        assert(d * d <= d * 0x1_0000_0000) by (nonlinear_arith)
            requires 0 <= d < 0x1_0000_0000;
        assert(d * 0x1_0000_0000 < 0x1_0000_0000 * 0x1_0000_0000) by (nonlinear_arith)
            requires 0 <= d < 0x1_0000_0000;
    } else {
        let e = -d;
        assert(e * e <= e * 0x1_0000_0000) by (nonlinear_arith)
            requires 0 <= e < 0x1_0000_0000;
        assert(e * 0x1_0000_0000 < 0x1_0000_0000 * 0x1_0000_0000) by (nonlinear_arith)
            requires 0 <= e < 0x1_0000_0000;
        assert(d * d == e * e) by (nonlinear_arith)
            requires e == -d;
    }
}

impl BlockLocation {
    pub fn new(x: i32, y: i16, z: i32) -> (r: BlockLocation)
        ensures
            r == (BlockLocation { x, y, z }),
    {
        BlockLocation { x, y, z }
    }

    /// The squared distance to `other`; it always fits in an `i128`.
    pub fn dist2(self, other: BlockLocation) -> (r: i128)
        ensures
            r == spec_dist2(self, other),
            r >= 0,
    {
        let dx = self.x as i128 - other.x as i128;
        let dy = self.y as i128 - other.y as i128;
        let dz = self.z as i128 - other.z as i128;
        proof {
            lemma_square_bound(dx as int);
            lemma_square_bound(dy as int);
            lemma_square_bound(dz as int);
        }
        dx * dx + dy * dy + dz * dz
    }

    /// The position one level up.
    pub fn above(self) -> (r: BlockLocation)
        requires
            self.y < i16::MAX,
        ensures
            r == (BlockLocation { y: (self.y + 1) as i16, ..self }),
    {
        BlockLocation { x: self.x, y: self.y + 1, z: self.z }
    }

    /// The position one level down.
    pub fn below(self) -> (r: BlockLocation)
        requires
            self.y > i16::MIN,
        ensures
            r == (BlockLocation { y: (self.y - 1) as i16, ..self }),
    {
        BlockLocation { x: self.x, y: self.y - 1, z: self.z }
    }

    /// This position shifted by `d` on every axis.
    pub fn offset(self, d: BlockLocation) -> (r: BlockLocation)
        requires
            i32::MIN <= self.x + d.x <= i32::MAX,
            i16::MIN <= self.y + d.y <= i16::MAX,
            i32::MIN <= self.z + d.z <= i32::MAX,
        ensures
            r.x == self.x + d.x,
            r.y == self.y + d.y,
            r.z == self.z + d.z,
    {
        BlockLocation { x: self.x + d.x, y: self.y + d.y, z: self.z + d.z }
    }
}

/// An opaque block-state identifier: the block id in the upper bits and its
/// variant in the lowest four.
#[derive(Copy, Clone, Debug, Default, Hash, PartialEq, Eq, Structural)]
pub struct BlockState(pub u32);

/// Coarse classification of a block state.
#[derive(Copy, Clone, Debug, Hash, PartialEq, Eq, Structural)]
pub enum SimpleType {
    Solid,
    Water,
    Avoid,
    WalkThrough,
}

/// Finer classification of a block state: the block id without its variant.
#[derive(Copy, Clone, Debug, Hash, PartialEq, Eq, Structural)]
pub struct BlockKind(pub u32);

/// The coarse classification of a block id.
pub open spec fn simple_type_of_id(id: u32) -> SimpleType {
    if id == 8 || id == 9 {
        SimpleType::Water
    } else if id == 10 || id == 11 || id == 30 || id == 51 || id == 81 {
        SimpleType::Avoid
    } else if id == 0 || id == 6 || id == 31 || id == 32 || id == 37 || id == 38 || id == 39
        || id == 40 || id == 50 || id == 55 || id == 59 || id == 66 || id == 69 || id == 75
        || id == 76 || id == 77 || id == 78 || id == 83 || id == 106 || id == 175 {
        SimpleType::WalkThrough
    } else {
        SimpleType::Solid
    }
}

impl BlockState {
    pub open spec fn spec_air() -> BlockState {
        BlockState(0)
    }

    pub open spec fn spec_stone() -> BlockState {
        BlockState(16)
    }

    pub open spec fn spec_water() -> BlockState {
        BlockState(144)
    }

    /// Empty space.
    pub fn air() -> (r: BlockState)
        ensures
            r == Self::spec_air(),
    {
        BlockState(0)
    }

    /// The ground block that generated worlds are made of.
    pub fn stone() -> (r: BlockState)
        ensures
            r == Self::spec_stone(),
    {
        BlockState(16)
    }

    /// Still water.
    pub fn water() -> (r: BlockState)
        ensures
            r == Self::spec_water(),
    {
        BlockState(144)
    }

    pub open spec fn spec_id(self) -> u32 {
        self.0 / 16
    }

    pub open spec fn spec_simple_type(self) -> SimpleType {
        simple_type_of_id(self.spec_id())
    }

    /// The block id, without the variant bits.
    pub fn id(self) -> (r: u32)
        ensures
            r == self.spec_id(),
    {
        self.0 / 16
    }

    pub fn simple_type(self) -> (r: SimpleType)
        ensures
            r == self.spec_simple_type(),
    {
        let id = self.id();
        if id == 8 || id == 9 {
            SimpleType::Water
        } else if id == 10 || id == 11 || id == 30 || id == 51 || id == 81 {
            SimpleType::Avoid
        } else if id == 0 || id == 6 || id == 31 || id == 32 || id == 37 || id == 38 || id == 39
            || id == 40 || id == 50 || id == 55 || id == 59 || id == 66 || id == 69 || id == 75
            || id == 76 || id == 77 || id == 78 || id == 83 || id == 106 || id == 175 {
            SimpleType::WalkThrough
        } else {
            SimpleType::Solid
        }
    }

    pub fn kind(self) -> (r: BlockKind)
        ensures
            r == BlockKind(self.spec_id()),
    {
        BlockKind(self.id())
    }
}

/// What a point query knows of a resolved position: its exact state. An
/// unresolved position has no `BlockApprox` at all.
#[derive(Copy, Clone, Debug, PartialEq, Eq, Structural)]
pub enum BlockApprox {
    Realized(BlockState),
}

impl BlockApprox {
    pub open spec fn spec_s_type(self) -> SimpleType {
        match self {
            BlockApprox::Realized(s) => s.spec_simple_type(),
        }
    }

    pub fn s_type(self) -> (r: SimpleType)
        ensures
            r == self.spec_s_type(),
    {
        match self {
            BlockApprox::Realized(s) => s.simple_type(),
        }
    }
}

} // verus!
