use vstd::prelude::*;
use vstd::string::StringExecFns;

verus! {

/// A voxel type, identified by its raw id.
#[derive(Copy, Clone, Debug, PartialEq, Eq, Structural)]
pub struct Block(pub u8);

impl Block {
    /// The block reported for positions outside the buffer.
    pub fn oob() -> (b: Block)
        ensures
            b.0 == 0,
    {
        Block(0)
    }

    pub fn empty() -> (b: Block)
        ensures
            b.0 == 1,
    {
        Block(1)
    }

    pub fn dirt() -> (b: Block)
        ensures
            b.0 == 2,
    {
        Block(2)
    }

    pub fn stone() -> (b: Block)
        ensures
            b.0 == 3,
    {
        Block(3)
    }

    pub fn grass() -> (b: Block)
        ensures
            b.0 == 4,
    {
        Block(4)
    }
}

/// Whether a block id stands for a solid block: dirt, stone and grass are solid,
/// everything else (out of bounds, empty, unknown ids) is not.
pub open spec fn spec_is_filled(id: u8) -> bool {
    id == 2 || id == 3 || id == 4
}

/// The texture slot used for a block id: dirt 1, grass 2, stone 3, otherwise 0.
pub open spec fn spec_texture_idx(id: u8) -> u32 {
    if id == 2 {
        1
    } else if id == 4 {
        2
    } else if id == 3 {
        3
    } else {
        0
    }
}

/// The display name of a block id.
pub open spec fn spec_block_name(id: u8) -> Seq<char> {
    if id == 0 {
        "out of bounds"@
    } else if id == 1 {
        "empty"@
    } else if id == 2 {
        "dirt"@
    } else if id == 4 {
        "grass"@
    } else if id == 3 {
        "stone"@
    } else {
        "unknown"@
    }
}

impl Block {
    pub fn is_filled(&self) -> (r: bool)
        ensures
            r == spec_is_filled(self.0),
    {
        match self.0 {
            0 => false,
            1 => false,
            3 => true,
            2 => true,
            4 => true,
            _ => false,
        }
    }

    pub fn texture_idx(&self) -> (r: u32)
        ensures
            r == spec_texture_idx(self.0),
    {
        match self.0 {
            2 => 1,
            4 => 2,
            3 => 3,
            _ => 0,
        }
    }

    pub fn name(&self) -> (r: String)
        ensures
            r@ == spec_block_name(self.0),
    {
        match self.0 {
            0 => String::from_str("out of bounds"),
            1 => String::from_str("empty"),
            2 => String::from_str("dirt"),
            4 => String::from_str("grass"),
            3 => String::from_str("stone"),
            _ => String::from_str("unknown"),
        }
    }
}

impl Default for Block {
    fn default() -> (r: Block)
        ensures
            r.0 == 1,
    {
        Block(1)
    }
}

/// Exactly the solid blocks get a texture: a block is filled when its texture slot is not
/// 0, and the three solid kinds each have a slot of their own.
pub proof fn lemma_textures_of_solid_blocks(a: u8, b: u8)
    ensures
        spec_is_filled(a) <==> spec_texture_idx(a) != 0,
        spec_is_filled(a) && spec_is_filled(b) && a != b ==> spec_texture_idx(a) != spec_texture_idx(b),
        spec_texture_idx(a) < 16,
{
}

} // verus!
