use bevy::utils::hashbrown::{HashMap, HashSet};
use vstd::prelude::*;

use super::navigation_group::NavigationGroup;
use super::partition::Partition;
use super::region::Region;

verus! {

/// A `hashbrown` set of ids.
#[verifier::external_body]
pub struct IdSet {
    set: HashSet<u32>,
}

/// The ids an `IdSet` holds.
pub uninterp spec fn id_set_items(s: IdSet) -> Set<u32>;

/// A `hashbrown` set of entities, each held by its 64-bit handle.
#[verifier::external_body]
pub struct EntitySet {
    set: HashSet<u64>,
}

/// The entity handles an `EntitySet` holds.
pub uninterp spec fn entity_set_items(s: EntitySet) -> Set<u64>;

/// A `hashbrown` map from partition ids to partitions.
#[verifier::external_body]
pub struct PartitionMap {
    map: HashMap<u32, Partition>,
}

/// The entries of a `PartitionMap`.
pub uninterp spec fn partition_map_items(m: PartitionMap) -> Map<u32, Partition>;

/// A `hashbrown` map from region ids to regions.
#[verifier::external_body]
pub struct RegionMap {
    map: HashMap<u32, Region>,
}

/// The entries of a `RegionMap`.
pub uninterp spec fn region_map_items(m: RegionMap) -> Map<u32, Region>;

/// A `hashbrown` map from navigation group ids to groups.
#[verifier::external_body]
pub struct GroupMap {
    map: HashMap<u32, NavigationGroup>,
}

/// The entries of a `GroupMap`.
pub uninterp spec fn group_map_items(m: GroupMap) -> Map<u32, NavigationGroup>;

impl IdSet {
    /// `hashbrown::HashSet::new`: an empty set.
    #[verifier::external_body]
    pub fn new() -> (r: IdSet)
        ensures
            id_set_items(r) == Set::<u32>::empty(),
    {
        IdSet { set: HashSet::new() }
    }

    /// `hashbrown::HashSet::insert`: adds `id`; true when it was not there before.
    #[verifier::external_body]
    pub fn insert(&mut self, id: u32) -> (r: bool)
        ensures
            id_set_items(*final(self)) == id_set_items(*old(self)).insert(id),
            r == !id_set_items(*old(self)).contains(id),
    {
        self.set.insert(id)
    }

    /// `hashbrown::HashSet::remove`: takes `id` out; true when it was there.
    #[verifier::external_body]
    pub fn remove(&mut self, id: u32) -> (r: bool)
        ensures
            id_set_items(*final(self)) == id_set_items(*old(self)).remove(id),
            r == id_set_items(*old(self)).contains(id),
    {
        self.set.remove(&id)
    }

    /// `hashbrown::HashSet::len`.
    #[verifier::external_body]
    pub fn len(&self) -> (r: usize)
        ensures
            r == id_set_items(*self).len(),
    {
        self.set.len()
    }

    /// `hashbrown::HashSet::is_empty`.
    #[verifier::external_body]
    pub fn is_empty(&self) -> (r: bool)
        ensures
            r == (id_set_items(*self) == Set::<u32>::empty()),
    {
        self.set.is_empty()
    }

    /// `hashbrown::HashSet::clear`: removes every id.
    #[verifier::external_body]
    pub fn clear(&mut self)
        ensures
            id_set_items(*final(self)) == Set::<u32>::empty(),
    {
        self.set.clear()
    }

    /// `hashbrown::HashSet::clone`: a set with the same ids.
    #[verifier::external_body]
    pub fn clone_set(&self) -> (r: IdSet)
        ensures
            id_set_items(r) == id_set_items(*self),
    {
        IdSet { set: self.set.clone() }
    }

    /// The ids, walked with `hashbrown::HashSet::iter`. The order of that walk is left
    /// open: each id comes out once.
    #[verifier::external_body]
    pub fn to_vec(&self) -> (r: Vec<u32>)
        ensures
            r@.no_duplicates(),
            r@.to_set() == id_set_items(*self),
    {
        self.set.iter().copied().collect()
    }
}

impl EntitySet {
    /// `hashbrown::HashSet::new`: an empty set.
    #[verifier::external_body]
    pub fn new() -> (r: EntitySet)
        ensures
            entity_set_items(r) == Set::<u64>::empty(),
    {
        EntitySet { set: HashSet::new() }
    }
}

impl PartitionMap {
    /// `hashbrown::HashMap::new`: an empty map.
    #[verifier::external_body]
    pub fn new() -> (r: PartitionMap)
        ensures
            partition_map_items(r).dom() == Set::<u32>::empty(),
    {
        PartitionMap { map: HashMap::new() }
    }

    /// `hashbrown::HashMap::get`.
    #[verifier::external_body]
    pub fn get(&self, id: u32) -> (r: Option<&Partition>)
        ensures
            match r {
                Some(p) => partition_map_items(*self).contains_key(id) && *p == partition_map_items(*self)[id],
                None => !partition_map_items(*self).contains_key(id),
            },
    {
        self.map.get(&id)
    }

    /// `hashbrown::HashMap::get_mut`: what is under `id`, to change in place.
    #[verifier::external_body]
    pub fn get_mut(&mut self, id: u32) -> (r: Option<&mut Partition>)
        ensures
            match r {
                Some(p) => partition_map_items(*old(self)).contains_key(id) && *p == partition_map_items(*old(self))[id]
                    && partition_map_items(*final(self)) == partition_map_items(*old(self)).insert(id, *final(p)),
                None => !partition_map_items(*old(self)).contains_key(id) && partition_map_items(*final(self))
                    == partition_map_items(*old(self)),
            },
    {
        self.map.get_mut(&id)
    }

    /// `hashbrown::HashMap::insert`: puts `p` under `id` and hands back what was there.
    #[verifier::external_body]
    pub fn insert(&mut self, id: u32, p: Partition) -> (r: Option<Partition>)
        ensures
            partition_map_items(*final(self)) == partition_map_items(*old(self)).insert(id, p),
            r == (if partition_map_items(*old(self)).contains_key(id) {
                Some(partition_map_items(*old(self))[id])
            } else {
                None
            }),
    {
        self.map.insert(id, p)
    }

    /// `hashbrown::HashMap::remove`: takes out what is under `id`.
    #[verifier::external_body]
    pub fn remove(&mut self, id: u32) -> (r: Option<Partition>)
        ensures
            partition_map_items(*final(self)) == partition_map_items(*old(self)).remove(id),
            r == (if partition_map_items(*old(self)).contains_key(id) {
                Some(partition_map_items(*old(self))[id])
            } else {
                None
            }),
    {
        self.map.remove(&id)
    }

    /// The keys, walked with `hashbrown::HashMap::keys`. The order of that walk is left
    /// open: each key comes out once.
    #[verifier::external_body]
    pub fn keys(&self) -> (r: Vec<u32>)
        ensures
            r@.no_duplicates(),
            r@.to_set() == partition_map_items(*self).dom(),
    {
        self.map.keys().copied().collect()
    }
}

impl RegionMap {
    /// `hashbrown::HashMap::new`: an empty map.
    #[verifier::external_body]
    pub fn new() -> (r: RegionMap)
        ensures
            region_map_items(r).dom() == Set::<u32>::empty(),
    {
        RegionMap { map: HashMap::new() }
    }

    /// `hashbrown::HashMap::get`.
    #[verifier::external_body]
    pub fn get(&self, id: u32) -> (r: Option<&Region>)
        ensures
            match r {
                Some(g) => region_map_items(*self).contains_key(id) && *g == region_map_items(*self)[id],
                None => !region_map_items(*self).contains_key(id),
            },
    {
        self.map.get(&id)
    }

    /// `hashbrown::HashMap::get_mut`: what is under `id`, to change in place.
    #[verifier::external_body]
    pub fn get_mut(&mut self, id: u32) -> (r: Option<&mut Region>)
        ensures
            match r {
                Some(g) => region_map_items(*old(self)).contains_key(id) && *g == region_map_items(*old(self))[id]
                    && region_map_items(*final(self)) == region_map_items(*old(self)).insert(id, *final(g)),
                None => !region_map_items(*old(self)).contains_key(id) && region_map_items(*final(self))
                    == region_map_items(*old(self)),
            },
    {
        self.map.get_mut(&id)
    }

    /// `hashbrown::HashMap::insert`: puts `g` under `id` and hands back what was there.
    #[verifier::external_body]
    pub fn insert(&mut self, id: u32, g: Region) -> (r: Option<Region>)
        ensures
            region_map_items(*final(self)) == region_map_items(*old(self)).insert(id, g),
            r == (if region_map_items(*old(self)).contains_key(id) {
                Some(region_map_items(*old(self))[id])
            } else {
                None
            }),
    {
        self.map.insert(id, g)
    }

    /// `hashbrown::HashMap::remove`: takes out what is under `id`.
    #[verifier::external_body]
    pub fn remove(&mut self, id: u32) -> (r: Option<Region>)
        ensures
            region_map_items(*final(self)) == region_map_items(*old(self)).remove(id),
            r == (if region_map_items(*old(self)).contains_key(id) {
                Some(region_map_items(*old(self))[id])
            } else {
                None
            }),
    {
        self.map.remove(&id)
    }
}

impl GroupMap {
    /// `hashbrown::HashMap::new`: an empty map.
    #[verifier::external_body]
    pub fn new() -> (r: GroupMap)
        ensures
            group_map_items(r).dom() == Set::<u32>::empty(),
    {
        GroupMap { map: HashMap::new() }
    }

    /// `hashbrown::HashMap::get`.
    #[verifier::external_body]
    pub fn get(&self, id: u32) -> (r: Option<&NavigationGroup>)
        ensures
            match r {
                Some(g) => group_map_items(*self).contains_key(id) && *g == group_map_items(*self)[id],
                None => !group_map_items(*self).contains_key(id),
            },
    {
        self.map.get(&id)
    }

    /// `hashbrown::HashMap::get_mut`: what is under `id`, to change in place.
    #[verifier::external_body]
    pub fn get_mut(&mut self, id: u32) -> (r: Option<&mut NavigationGroup>)
        ensures
            match r {
                Some(g) => group_map_items(*old(self)).contains_key(id) && *g == group_map_items(*old(self))[id]
                    && group_map_items(*final(self)) == group_map_items(*old(self)).insert(id, *final(g)),
                None => !group_map_items(*old(self)).contains_key(id) && group_map_items(*final(self))
                    == group_map_items(*old(self)),
            },
    {
        self.map.get_mut(&id)
    }

    /// `hashbrown::HashMap::insert`: puts `g` under `id` and hands back what was there.
    #[verifier::external_body]
    pub fn insert(&mut self, id: u32, g: NavigationGroup) -> (r: Option<NavigationGroup>)
        ensures
            group_map_items(*final(self)) == group_map_items(*old(self)).insert(id, g),
            r == (if group_map_items(*old(self)).contains_key(id) {
                Some(group_map_items(*old(self))[id])
            } else {
                None
            }),
    {
        self.map.insert(id, g)
    }

    /// `hashbrown::HashMap::remove`: takes out what is under `id`.
    #[verifier::external_body]
    pub fn remove(&mut self, id: u32) -> (r: Option<NavigationGroup>)
        ensures
            group_map_items(*final(self)) == group_map_items(*old(self)).remove(id),
            r == (if group_map_items(*old(self)).contains_key(id) {
                Some(group_map_items(*old(self))[id])
            } else {
                None
            }),
    {
        self.map.remove(&id)
    }
}

} // verus!
