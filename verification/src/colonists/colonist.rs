use vstd::prelude::*;

verus! {

/// Marks a colonist.
#[derive(Default)]
pub struct Colonist {}

/// Asks for a colonist to appear at a position.
pub struct SpawnColonistEvent {
    pub pos: [u32; 3],
}

} // verus!
