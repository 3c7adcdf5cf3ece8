use vstd::prelude::*;

use crate::block::block_face::BlockFace;
use crate::block::world::block::{spec_texture_idx, Block};

verus! {

/// How many of a vertex's three neighboring blocks are filled, for ambient occlusion.
#[derive(Clone, Copy, Debug, PartialEq, Eq, Structural)]
pub enum VertexAo {
    TouchNone,
    TouchOne,
    TouchTwo,
    TouchThree,
}

impl VertexAo {
    pub open spec fn spec_bit(&self) -> u32 {
        match self {
            VertexAo::TouchNone => 0,
            VertexAo::TouchOne => 1,
            VertexAo::TouchTwo => 2,
            VertexAo::TouchThree => 3,
        }
    }

    pub fn bit(&self) -> (r: u32)
        ensures
            r == self.spec_bit(),
    {
        match self {
            VertexAo::TouchNone => 0,
            VertexAo::TouchOne => 1,
            VertexAo::TouchTwo => 2,
            VertexAo::TouchThree => 3,
        }
    }

    /// The occlusion level of a number: 1, 2 and 3 give themselves, anything else none.
    pub fn from_bit(val: u32) -> (r: VertexAo)
        ensures
            r.spec_bit() == (if 1 <= val <= 3 { val } else { 0 }),
    {
        match val {
            1 => VertexAo::TouchOne,
            2 => VertexAo::TouchTwo,
            3 => VertexAo::TouchThree,
            _ => VertexAo::TouchNone,
        }
    }
}

/// The packed vertex attribute: texture in bits 0-3, face in bits 4-6, occlusion in
/// bits 7-8.
pub open spec fn spec_pack(t: u32, f: u32, ao: u32) -> u32 {
    (t & 15) | ((f & 7) << 4) | ((ao & 3) << 7)
}

pub fn pack_block(block: Block, dir: BlockFace, ao: VertexAo) -> (r: u32)
    ensures
        r == spec_pack(spec_texture_idx(block.0), dir.spec_bit(), ao.spec_bit()),
{
    let t_id = block.texture_idx();
    let f_id = dir.bit();
    let ao_id = ao.bit();

    (t_id & 15) | ((f_id & 7) << 4) | ((ao_id & 3) << 7)
}

/// Packing keeps each field in its own bits: the value is `t + 16 * f + 128 * ao`,
/// and masking and shifting gives each field back.
pub proof fn lemma_pack_fields(t: u32, f: u32, ao: u32)
    requires
        t < 16,
        f < 8,
        ao < 4,
    ensures
        spec_pack(t, f, ao) == t + 16 * f + 128 * ao,
        spec_pack(t, f, ao) & 15 == t,
        (spec_pack(t, f, ao) >> 4) & 7 == f,
        (spec_pack(t, f, ao) >> 7) & 3 == ao,
{
    assert(((t & 15) | ((f & 7) << 4) | ((ao & 3) << 7)) == t + 16 * f + 128 * ao
        && (((t & 15) | ((f & 7) << 4) | ((ao & 3) << 7)) & 15) == t
        && ((((t & 15) | ((f & 7) << 4) | ((ao & 3) << 7)) >> 4) & 7) == f
        && ((((t & 15) | ((f & 7) << 4) | ((ao & 3) << 7)) >> 7) & 3) == ao) by (bit_vector)
        requires
            t < 16,
            f < 8,
            ao < 4,
    ;
}

} // verus!
