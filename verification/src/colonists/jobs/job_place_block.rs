use vstd::prelude::*;

use crate::block::world::block::Block;

verus! {

/// Asks for a block to be placed at a position.
pub struct SpawnJobPlaceBlockEvent {
    pub pos: [u32; 3],
    pub block_type: Block,
}

/// Marks a block placing job.
#[derive(Clone, Copy)]
pub struct JobPlaceBlock;

} // verus!
