use vstd::prelude::*;

verus! {

/// The six faces of a block, named by the axis their normal points along.
#[derive(Clone, Copy, Debug, PartialEq, Eq, Structural)]
pub enum BlockFace {
    PosX,
    NegX,
    PosY,
    NegY,
    PosZ,
    NegZ,
}

impl BlockFace {
    pub open spec fn spec_bit(&self) -> u32 {
        match self {
            BlockFace::PosX => 0,
            BlockFace::NegX => 1,
            BlockFace::PosY => 2,
            BlockFace::NegY => 3,
            BlockFace::PosZ => 4,
            BlockFace::NegZ => 5,
        }
    }

    /// The unit vector that points out of the block through this face.
    pub open spec fn spec_normal(&self) -> (int, int, int) {
        match self {
            BlockFace::PosX => (1, 0, 0),
            BlockFace::NegX => (-1, 0, 0),
            BlockFace::PosY => (0, 1, 0),
            BlockFace::NegY => (0, -1, 0),
            BlockFace::PosZ => (0, 0, 1),
            BlockFace::NegZ => (0, 0, -1),
        }
    }

    /// The three-bit code of the face that the terrain shader reads.
    pub fn bit(&self) -> (r: u32)
        ensures
            r == self.spec_bit(),
    {
        match self {
            BlockFace::PosX => 0,
            BlockFace::NegX => 1,
            BlockFace::PosY => 2,
            BlockFace::NegY => 3,
            BlockFace::PosZ => 4,
            BlockFace::NegZ => 5,
        }
    }
}

} // verus!
