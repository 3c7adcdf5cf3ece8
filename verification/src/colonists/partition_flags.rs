use vstd::prelude::*;

verus! {

/// The ways a partition can be moved through, as a set of bits: `1` solid ground,
/// `2` a ladder, `4` room for a tall body.
#[derive(Clone, Copy, PartialEq, Eq, Hash, Debug, Default, Structural)]
pub struct PartitionFlags {
    pub bits: u8,
}

impl PartitionFlags {
    pub fn none() -> (r: Self)
        ensures
            r.bits == 0,
    {
        PartitionFlags { bits: 0 }
    }

    pub fn solid_ground() -> (r: Self)
        ensures
            r.bits == 1,
    {
        PartitionFlags { bits: 1 }
    }

    pub fn ladder() -> (r: Self)
        ensures
            r.bits == 2,
    {
        PartitionFlags { bits: 2 }
    }

    pub fn tall() -> (r: Self)
        ensures
            r.bits == 4,
    {
        PartitionFlags { bits: 4 }
    }
}

} // verus!
