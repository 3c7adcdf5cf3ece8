use vstd::prelude::*;

use super::hash_collections::{id_set_items, IdSet};
use super::navigation_flags::NavigationFlags;

verus! {

/// A connected set of partitions that share the same navigation flags.
pub struct Region {
    pub id: u32,
    pub flags: NavigationFlags,
    pub partition_ids: IdSet,
    pub neighbor_ids: IdSet,
    pub group_ids: IdSet,
}

impl Region {
    pub fn new(id: u32, flags: NavigationFlags) -> (r: Self)
        ensures
            r.id == id,
            r.flags == flags,
            id_set_items(r.partition_ids) == Set::<u32>::empty(),
            id_set_items(r.neighbor_ids) == Set::<u32>::empty(),
            id_set_items(r.group_ids) == Set::<u32>::empty(),
    {
        Region { id, flags, partition_ids: IdSet::new(), neighbor_ids: IdSet::new(), group_ids: IdSet::new() }
    }
}

} // verus!
