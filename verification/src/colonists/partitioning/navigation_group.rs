use vstd::prelude::*;

use super::hash_collections::{id_set_items, IdSet};
use super::navigation_flags::NavigationFlags;

verus! {

/// A set of regions among which a body with the group's flags can move.
pub struct NavigationGroup {
    pub id: u32,
    pub flags: NavigationFlags,
    pub region_ids: IdSet,
}

impl NavigationGroup {
    pub fn new(id: u32, flags: NavigationFlags) -> (r: Self)
        ensures
            r.id == id,
            r.flags == flags,
            id_set_items(r.region_ids) == Set::<u32>::empty(),
    {
        NavigationGroup { id, flags, region_ids: IdSet::new() }
    }

    /// Groups are told apart by their ids alone.
    pub fn same_group(&self, other: &Self) -> (r: bool)
        ensures
            r == (self.id == other.id),
    {
        self.id == other.id
    }
}

} // verus!
