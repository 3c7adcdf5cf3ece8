use vstd::prelude::*;

verus! {

/// Asks for the block at a position to be mined.
pub struct SpawnJobMineEvent {
    pub pos: [u32; 3],
}

/// Marks a mining job.
#[derive(Clone, Copy)]
pub struct JobMine;

} // verus!
