use vstd::prelude::*;

verus! {

/// Asks for the tree at a position to be chopped.
pub struct SpawnJobChopEvent {
    pub pos: [u32; 3],
}

} // verus!
