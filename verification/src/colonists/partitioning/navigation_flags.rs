use vstd::prelude::*;

verus! {

/// The ways a cell can be moved through, as a set of bits: `1` solid ground, `2` a
/// ladder, `4` room for a tall body.
#[derive(Clone, Copy, PartialEq, Eq, Hash, Debug, Default, Structural)]
pub struct NavigationFlags {
    pub bits: u8,
}

impl NavigationFlags {
    pub fn none() -> (r: Self)
        ensures
            r.bits == 0,
    {
        NavigationFlags { bits: 0 }
    }

    pub fn solid_ground() -> (r: Self)
        ensures
            r.bits == 1,
    {
        NavigationFlags { bits: 1 }
    }

    pub fn ladder() -> (r: Self)
        ensures
            r.bits == 2,
    {
        NavigationFlags { bits: 2 }
    }

    pub fn tall() -> (r: Self)
        ensures
            r.bits == 4,
    {
        NavigationFlags { bits: 4 }
    }

    /// What a colonist can use: a ladder or room for a tall body.
    pub fn colonist() -> (r: Self)
        ensures
            r.bits == 6,
    {
        NavigationFlags { bits: 6 }
    }

    /// What a cat can use: solid ground.
    pub fn cat() -> (r: Self)
        ensures
            r.bits == 1,
    {
        NavigationFlags { bits: 1 }
    }

    pub fn bits(&self) -> (r: u8)
        ensures
            r == self.bits,
    {
        self.bits
    }

    pub fn is_empty(&self) -> (r: bool)
        ensures
            r == (self.bits == 0),
    {
        self.bits == 0
    }

    /// Whether the two share at least one bit.
    pub fn intersects(&self, other: Self) -> (r: bool)
        ensures
            r == (self.bits & other.bits != 0),
    {
        self.bits & other.bits != 0
    }

    /// Whether every bit of `other` is set here.
    pub fn contains(&self, other: Self) -> (r: bool)
        ensures
            r == (self.bits & other.bits == other.bits),
    {
        self.bits & other.bits == other.bits
    }

    /// The bits set in both.
    pub fn intersection(&self, other: Self) -> (r: Self)
        ensures
            r.bits == self.bits & other.bits,
    {
        NavigationFlags { bits: self.bits & other.bits }
    }

    /// The bits set in either.
    pub fn union(&self, other: Self) -> (r: Self)
        ensures
            r.bits == self.bits | other.bits,
    {
        NavigationFlags { bits: self.bits | other.bits }
    }
}

} // verus!
