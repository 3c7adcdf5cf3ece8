use vstd::prelude::*;

verus! {

/// The action of looking for a bed.
pub struct ActFindBed;

/// The action of sleeping.
pub struct ActSleep;

} // verus!
