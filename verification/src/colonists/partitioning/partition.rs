use vstd::prelude::*;

use super::hash_collections::{entity_set_items, id_set_items, EntitySet, IdSet};
use super::navigation_flags::NavigationFlags;
use super::partition_extents::{spec_extended, PartitionExtents};

verus! {

/// A connected patch of cells of one chunk that share the same navigation flags.
pub struct Partition {
    pub id: u32,
    pub region_id: u32,
    pub chunk_idx: u32,
    pub flags: NavigationFlags,
    pub is_computed: bool,
    pub neighbor_ids: IdSet,
    pub blocks: IdSet,
    pub extents: PartitionExtents,
    pub items: EntitySet,
}

impl Partition {
    pub fn new(id: u32, region_id: u32, chunk_idx: u32, flags: NavigationFlags) -> (r: Self)
        ensures
            r.id == id,
            r.region_id == region_id,
            r.chunk_idx == chunk_idx,
            r.flags == flags,
            !r.is_computed,
            id_set_items(r.neighbor_ids) == Set::<u32>::empty(),
            id_set_items(r.blocks) == Set::<u32>::empty(),
            entity_set_items(r.items) == Set::<u64>::empty(),
            !r.extents.spec_is_init(),
            r.extents.ordered(),
    {
        Partition {
            id,
            region_id,
            chunk_idx,
            flags,
            is_computed: false,
            neighbor_ids: IdSet::new(),
            blocks: IdSet::new(),
            extents: PartitionExtents::default(),
            items: EntitySet::new(),
        }
    }

    /// Records the cell `block_idx` of the chunk, at world position `block_pos`, as part of
    /// this partition.
    pub fn assign_block(&mut self, block_idx: u32, block_pos: [u32; 3])
        ensures
            id_set_items(final(self).blocks) == id_set_items(old(self).blocks).insert(block_idx),
            final(self).extents == spec_extended(old(self).extents, block_pos),
            final(self).extents.ordered(),
            final(self).extents.spec_is_init(),
            final(self).extents.min_x <= block_pos[0] <= final(self).extents.max_x,
            final(self).extents.min_y <= block_pos[1] <= final(self).extents.max_y,
            final(self).extents.min_z <= block_pos[2] <= final(self).extents.max_z,
            old(self).extents.spec_is_init() ==> {
                &&& final(self).extents.min_x <= old(self).extents.min_x
                &&& final(self).extents.min_y <= old(self).extents.min_y
                &&& final(self).extents.min_z <= old(self).extents.min_z
                &&& final(self).extents.max_x >= old(self).extents.max_x
                &&& final(self).extents.max_y >= old(self).extents.max_y
                &&& final(self).extents.max_z >= old(self).extents.max_z
            },
            final(self).id == old(self).id,
            final(self).region_id == old(self).region_id,
            final(self).chunk_idx == old(self).chunk_idx,
            final(self).flags == old(self).flags,
            final(self).is_computed == old(self).is_computed,
            final(self).neighbor_ids == old(self).neighbor_ids,
            final(self).items == old(self).items,
    {
        self.blocks.insert(block_idx);
        self.extents.extend(block_pos);
    }
}

} // verus!
