use vstd::prelude::*;

use super::hash_collections::{
    group_map_items, id_set_items, partition_map_items, region_map_items, GroupMap, IdSet,
    PartitionMap, RegionMap,
};
use super::navigation_flags::NavigationFlags;
use super::navigation_group::NavigationGroup;
use super::partition::Partition;
use super::region::Region;

verus! {

/// The neighbors of partition `p`.
pub open spec fn pnbrs(ps: Map<u32, Partition>, p: u32) -> Set<u32> {
    id_set_items(ps[p].neighbor_ids)
}

/// The partitions of region `r`.
pub open spec fn rparts(rs: Map<u32, Region>, r: u32) -> Set<u32> {
    id_set_items(rs[r].partition_ids)
}

/// The neighbors of region `r`.
pub open spec fn rnbrs(rs: Map<u32, Region>, r: u32) -> Set<u32> {
    id_set_items(rs[r].neighbor_ids)
}

/// The navigation groups of region `r`.
pub open spec fn rgroups(rs: Map<u32, Region>, r: u32) -> Set<u32> {
    id_set_items(rs[r].group_ids)
}

/// The regions of navigation group `g`.
pub open spec fn gregions(gs: Map<u32, NavigationGroup>, g: u32) -> Set<u32> {
    id_set_items(gs[g].region_ids)
}

/// Regions and groups refer to each other consistently: ids match keys, region
/// neighborhood is symmetric and irreflexive, a region lists a group exactly when the
/// group lists the region, and no region has two groups with the same flags.
#[verifier::opaque]
pub open spec fn regions_wf(rs: Map<u32, Region>, gs: Map<u32, NavigationGroup>) -> bool {
    &&& rs.dom().finite()
    &&& gs.dom().finite()
    &&& forall|r: u32| #[trigger] rs.contains_key(r) ==> rs[r].id == r
    &&& forall|g: u32| #[trigger] gs.contains_key(g) ==> gs[g].id == g
    &&& forall|r: u32, n: u32|
        rs.contains_key(r) && #[trigger] rnbrs(rs, r).contains(n) ==> rs.contains_key(n) && n != r
            && rnbrs(rs, n).contains(r)
    &&& forall|r: u32, g: u32|
        rs.contains_key(r) && #[trigger] rgroups(rs, r).contains(g) ==> gs.contains_key(g)
            && gregions(gs, g).contains(r)
    &&& forall|g: u32, r: u32|
        gs.contains_key(g) && #[trigger] gregions(gs, g).contains(r) ==> rs.contains_key(r)
            && rgroups(rs, r).contains(g)
    &&& forall|r: u32, g1: u32, g2: u32|
        rs.contains_key(r) && #[trigger] rgroups(rs, r).contains(g1) && #[trigger] rgroups(
            rs,
            r,
        ).contains(g2) && gs[g1].flags == gs[g2].flags ==> g1 == g2
}

/// Every partition lies in an existing region with its flags.
pub open spec fn parts_in_regions(ps: Map<u32, Partition>, rs: Map<u32, Region>) -> bool {
    forall|p: u32| #[trigger] ps.contains_key(p) ==> {
        &&& ps[p].id == p
        &&& rs.contains_key(ps[p].region_id)
        &&& ps[p].flags == rs[ps[p].region_id].flags
    }
}

/// Every partition is listed by its region.
pub open spec fn parts_listed(ps: Map<u32, Partition>, rs: Map<u32, Region>) -> bool {
    forall|p: u32| #[trigger] ps.contains_key(p) ==> rparts(rs, ps[p].region_id).contains(p)
}

/// Every partition a region lists exists and lies in that region.
pub open spec fn regions_list_parts(ps: Map<u32, Partition>, rs: Map<u32, Region>) -> bool {
    forall|r: u32, p: u32|
        rs.contains_key(r) && #[trigger] rparts(rs, r).contains(p) ==> ps.contains_key(p)
            && ps[p].region_id == r
}

/// Partition neighborhood is symmetric and irreflexive, and neighbors with the same flags
/// lie in the same region.
pub open spec fn part_links_wf(ps: Map<u32, Partition>) -> bool {
    &&& forall|p: u32, n: u32|
        ps.contains_key(p) && #[trigger] pnbrs(ps, p).contains(n) ==> ps.contains_key(n) && n != p
            && pnbrs(ps, n).contains(p)
    &&& forall|p: u32, n: u32|
        ps.contains_key(p) && #[trigger] pnbrs(ps, p).contains(n) && ps[n].flags == ps[p].flags
            ==> ps[n].region_id == ps[p].region_id
}

/// Partitions and regions refer to each other consistently.
#[verifier::opaque]
pub open spec fn partitions_wf(ps: Map<u32, Partition>, rs: Map<u32, Region>) -> bool {
    &&& ps.dom().finite()
    &&& parts_in_regions(ps, rs)
    &&& parts_listed(ps, rs)
    &&& regions_list_parts(ps, rs)
    &&& part_links_wf(ps)
}

/// Partitions and regions refer to each other consistently, though a partition's flags
/// may differ from its region's.
#[verifier::opaque]
pub open spec fn partitions_linked(ps: Map<u32, Partition>, rs: Map<u32, Region>) -> bool {
    &&& ps.dom().finite()
    &&& forall|p: u32| #[trigger] ps.contains_key(p) ==> ps[p].id == p && rs.contains_key(ps[p].region_id)
    &&& parts_listed(ps, rs)
    &&& regions_list_parts(ps, rs)
    &&& part_links_wf(ps)
}

/// Consistent partitions are linked consistently.
proof fn lemma_wf_linked(ps: Map<u32, Partition>, rs: Map<u32, Region>)
    requires
        partitions_wf(ps, rs),
    ensures
        partitions_linked(ps, rs),
{
    reveal(partitions_wf);
    reveal(partitions_linked);
}

/// The partitions, regions and navigation groups of the world, which tell which cells a
/// body can reach from which.
pub struct NavigationGraph {
    partitions: PartitionMap,
    regions: RegionMap,
    groups: GroupMap,
    group_types: IdSet,
    cur_partition_id: u32,
    cur_region_id: u32,
    cur_group_id: u32,
}

impl NavigationGraph {
    pub closed spec fn parts(&self) -> Map<u32, Partition> {
        partition_map_items(self.partitions)
    }

    pub closed spec fn regs(&self) -> Map<u32, Region> {
        region_map_items(self.regions)
    }

    pub closed spec fn grps(&self) -> Map<u32, NavigationGroup> {
        group_map_items(self.groups)
    }

    /// The flag bits for which navigation groups are kept.
    pub closed spec fn group_type_bits(&self) -> Set<u32> {
        id_set_items(self.group_types)
    }

    /// The last partition id handed out.
    pub closed spec fn last_partition_id(&self) -> u32 {
        self.cur_partition_id
    }

    /// The last region id handed out.
    pub closed spec fn last_region_id(&self) -> u32 {
        self.cur_region_id
    }

    /// The last navigation group id handed out.
    pub closed spec fn last_group_id(&self) -> u32 {
        self.cur_group_id
    }

    /// The group kinds are those of colonists and cats, and every id in the graph was
    /// handed out already.
    pub open spec fn ids_ok(&self) -> bool {
        &&& self.group_type_bits() == set![6u32, 1u32]
        &&& forall|p: u32| #[trigger] self.parts().contains_key(p) ==> 0 < p <= self.last_partition_id()
        &&& forall|r: u32| #[trigger] self.regs().contains_key(r) ==> 0 < r <= self.last_region_id()
        &&& forall|g: u32| #[trigger] self.grps().contains_key(g) ==> 0 < g <= self.last_group_id()
    }

    /// Regions and groups refer to each other consistently, and every id in the graph
    /// was handed out already.
    pub open spec fn links_wf(&self) -> bool {
        &&& regions_wf(self.regs(), self.grps())
        &&& self.ids_ok()
    }

    /// The graph is consistent, and every id in it was handed out already.
    pub open spec fn wf(&self) -> bool {
        &&& self.links_wf()
        &&& partitions_wf(self.parts(), self.regs())
    }
}

/// `gs1` is `gs0` with fresh groups `c0 + 1 ..= c1` added for region `region_id`: one group
/// for each kind in `kinds` that shares a bit with `flags`, and no two with the same flags.
pub open spec fn groups_added(
    gs0: Map<u32, NavigationGroup>,
    gs1: Map<u32, NavigationGroup>,
    c0: u32,
    c1: u32,
    region_id: u32,
    flags: NavigationFlags,
    kinds: Set<u32>,
) -> bool {
    &&& c0 <= c1
    &&& (gs0.dom().finite() ==> gs1.dom().finite())
    &&& forall|g: u32| #[trigger] gs1.contains_key(g) <==> gs0.contains_key(g) || c0 < g <= c1
    &&& forall|g: u32| #[trigger] gs0.contains_key(g) ==> gs1[g] == gs0[g]
    &&& forall|g: u32|
        c0 < g <= c1 ==> {
            &&& #[trigger] gs1[g].id == g
            &&& gregions(gs1, g) == set![region_id]
            &&& kinds.contains(gs1[g].flags.bits as u32)
            &&& flags.bits & gs1[g].flags.bits != 0
        }
    &&& forall|g1: u32, g2: u32|
        c0 < g1 <= c1 && c0 < g2 <= c1 && #[trigger] gs1[g1].flags == #[trigger] gs1[g2].flags
            ==> g1 == g2
    &&& forall|k: u32|
        #[trigger] kinds.contains(k) && flags.bits & (k as u8) != 0 ==> exists|g: u32|
            c0 < g <= c1 && #[trigger] gs1[g].flags.bits == k
}

/// The ids from `lo + 1` to `hi`.
pub open spec fn id_range(lo: u32, hi: u32) -> Set<u32> {
    Set::new(|g: u32| lo < g <= hi)
}

impl NavigationGraph {
    /// Makes a navigation group for region `region_id` for each kind of group whose flags
    /// share a bit with `flags`, and hands back their ids.
    #[verifier::spinoff_prover]
    fn create_navigation_groups_for_region(&mut self, flags: NavigationFlags, region_id: &u32) -> (r: IdSet)
        requires
            old(self).links_wf(),
            old(self).last_group_id() + 2 <= u32::MAX,
        ensures
            groups_added(
                old(self).grps(),
                final(self).grps(),
                old(self).last_group_id(),
                final(self).last_group_id(),
                *region_id,
                flags,
                old(self).group_type_bits(),
            ),
            id_set_items(r) == id_range(old(self).last_group_id(), final(self).last_group_id()),
            final(self).last_group_id() <= old(self).last_group_id() + 2,
            final(self).parts() == old(self).parts(),
            final(self).regs() == old(self).regs(),
            final(self).group_type_bits() == old(self).group_type_bits(),
            final(self).last_partition_id() == old(self).last_partition_id(),
            final(self).last_region_id() == old(self).last_region_id(),
    {
        proof {
            reveal(regions_wf);
        }
        let mut group_ids = IdSet::new();
        let kinds = self.group_types.to_vec();
        let ghost gs0 = self.grps();
        let ghost c0 = self.cur_group_id;
        proof {
            kinds@.unique_seq_to_set();
            assert(kinds@.len() == 2) by {
                assert(kinds@.to_set() =~= set![6u32, 1u32]);
            }
        }
        let mut i: usize = 0;
        while i < kinds.len()
            invariant
                0 <= i <= kinds.len(),
                kinds.len() == 2,
                kinds@.no_duplicates(),
                kinds@.to_set() == self.group_type_bits(),
                self.group_type_bits() == set![6u32, 1u32],
                c0 <= self.cur_group_id <= c0 + i,
                c0 + 2 <= u32::MAX,
                gs0.dom().finite() ==> self.grps().dom().finite(),
                forall|g: u32| #[trigger] gs0.contains_key(g) ==> g <= c0,
                id_set_items(group_ids) == id_range(c0, self.cur_group_id),
                forall|g: u32| #[trigger] self.grps().contains_key(g) <==> gs0.contains_key(g) || c0 < g <= self.cur_group_id,
                forall|g: u32| #[trigger] gs0.contains_key(g) ==> self.grps()[g] == gs0[g],
                forall|g: u32| c0 < g <= self.cur_group_id ==> #[trigger] self.grps()[g].id == g,
                forall|g: u32| c0 < g <= self.cur_group_id ==> #[trigger] gregions(self.grps(), g) == set![*region_id],
                forall|g: u32|
                    c0 < g <= self.cur_group_id ==> exists|j: int|
                        0 <= j < i && kinds@[j] == #[trigger] self.grps()[g].flags.bits as u32,
                forall|g: u32| c0 < g <= self.cur_group_id ==> flags.bits & #[trigger] self.grps()[g].flags.bits != 0,
                forall|g1: u32, g2: u32|
                    c0 < g1 <= self.cur_group_id && c0 < g2 <= self.cur_group_id
                        && #[trigger] self.grps()[g1].flags == #[trigger] self.grps()[g2].flags ==> g1 == g2,
                forall|j: int|
                    0 <= j < i && flags.bits & (kinds@[j] as u8) != 0 ==> exists|g: u32|
                        c0 < g <= self.cur_group_id && #[trigger] self.grps()[g].flags.bits == kinds@[j],
                self.parts() == old(self).parts(),
                self.regs() == old(self).regs(),
                self.group_type_bits() == old(self).group_type_bits(),
                self.cur_partition_id == old(self).cur_partition_id,
                self.cur_region_id == old(self).cur_region_id,
                gs0 == old(self).grps(),
                c0 == old(self).cur_group_id,
            decreases kinds.len() - i,
        {
            let kind = kinds[i];
            proof {
                assert(kinds@.to_set().contains(kinds@[i as int]));
                assert(kind == 6 || kind == 1);
            }
            let group_type = NavigationFlags { bits: kind as u8 };
            let ghost pre = self.grps();
            let ghost pre_cur = self.cur_group_id;
            if flags.intersects(group_type) {
                self.cur_group_id = self.cur_group_id + 1;
                let group_id = self.cur_group_id;
                let mut group = NavigationGroup::new(group_id, group_type);
                group.region_ids.insert(*region_id);
                self.groups.insert(group_id, group);
                group_ids.insert(group_id);
                proof {
                    assert(id_set_items(group_ids) =~= id_range(c0, self.cur_group_id));
                    assert(gregions(self.grps(), group_id) =~= set![*region_id]);
                    assert forall|g1: u32, g2: u32|
                        c0 < g1 <= self.cur_group_id && c0 < g2 <= self.cur_group_id
                            && #[trigger] self.grps()[g1].flags == #[trigger] self.grps()[g2].flags implies g1 == g2 by {
                        if g1 != g2 && (g1 == group_id || g2 == group_id) {
                            let other = if g1 == group_id { g2 } else { g1 };
                            assert(pre[other].id == other);
                            let j = choose|j: int| 0 <= j < i && kinds@[j] == pre[other].flags.bits as u32;
                            assert(self.grps()[other] == pre[other]);
                            assert(kinds@[j] == kinds@[i as int]);
                            assert(false);
                        }
                    }
                    assert forall|g: u32| c0 < g <= self.cur_group_id && g != group_id implies {
                        &&& #[trigger] self.grps()[g] == pre[g]
                        &&& pre[g].id == g
                        &&& gregions(pre, g) == set![*region_id]
                        &&& flags.bits & pre[g].flags.bits != 0
                        &&& exists|j: int| 0 <= j < i && kinds@[j] == pre[g].flags.bits as u32
                    } by {
                        assert(pre[g].id == g);
                        assert(gregions(pre, g) == set![*region_id]);
                        assert(flags.bits & pre[g].flags.bits != 0);
                    }
                    assert forall|g: u32| c0 < g <= self.cur_group_id implies exists|j: int|
                        0 <= j < i + 1 && kinds@[j] == #[trigger] self.grps()[g].flags.bits as u32 by {
                        if g == group_id {
                            assert(kinds@[i as int] == self.grps()[g].flags.bits as u32);
                        } else {
                            assert(self.grps()[g] == pre[g]);
                            let j = choose|j: int| 0 <= j < i && kinds@[j] == pre[g].flags.bits as u32;
                        }
                    }
                    assert forall|j: int|
                        0 <= j < i + 1 && flags.bits & (kinds@[j] as u8) != 0 implies exists|g: u32|
                            c0 < g <= self.cur_group_id && #[trigger] self.grps()[g].flags.bits == kinds@[j] by {
                        if j == i {
                            assert(self.grps()[group_id].flags.bits == kinds@[j]);
                        } else {
                            let g = choose|g: u32| c0 < g <= pre_cur && #[trigger] pre[g].flags.bits == kinds@[j];
                            assert(self.grps()[g] == pre[g]);
                        }
                    }
                }
            } else {
                proof {
                    assert forall|g: u32| c0 < g <= self.cur_group_id implies exists|j: int|
                        0 <= j < i + 1 && kinds@[j] == #[trigger] self.grps()[g].flags.bits as u32 by {
                        let j = choose|j: int| 0 <= j < i && kinds@[j] == self.grps()[g].flags.bits as u32;
                    }
                    assert forall|j: int|
                        0 <= j < i + 1 && flags.bits & (kinds@[j] as u8) != 0 implies exists|g: u32|
                            c0 < g <= self.cur_group_id && #[trigger] self.grps()[g].flags.bits == kinds@[j] by {
                        if j == i {
                            assert(kinds@[j] as u8 == kind as u8);
                        }
                    }
                }
            }
            i = i + 1;
        }
        proof {
            let gs1 = self.grps();
            assert forall|k: u32|
                #[trigger] self.group_type_bits().contains(k) && flags.bits & (k as u8) != 0 implies exists|g: u32|
                    c0 < g <= self.cur_group_id && #[trigger] gs1[g].flags.bits == k by {
                assert(kinds@.to_set().contains(k));
                let j = choose|j: int| 0 <= j < kinds@.len() && kinds@[j] == k;
            }
            assert forall|g: u32| c0 < g <= self.cur_group_id implies self.group_type_bits().contains(#[trigger] gs1[g].flags.bits as u32) by {
                assert(gs1[g].id == g);
                let j = choose|j: int| 0 <= j < 2 && kinds@[j] == gs1[g].flags.bits as u32;
                assert(kinds@.to_set().contains(kinds@[j]));
            }
        }
        group_ids
    }
}

/// Adding a fresh region that lists freshly made groups, and only them, keeps the graph
/// consistent.
proof fn lemma_region_added(
    ps: Map<u32, Partition>,
    rs: Map<u32, Region>,
    gs0: Map<u32, NavigationGroup>,
    gs1: Map<u32, NavigationGroup>,
    c0: u32,
    c1: u32,
    rid: u32,
    region: Region,
    kinds: Set<u32>,
)
    requires
        regions_wf(rs, gs0),
        parts_in_regions(ps, rs),
        !rs.contains_key(rid),
        forall|g: u32| #[trigger] gs0.contains_key(g) ==> g <= c0,
        groups_added(gs0, gs1, c0, c1, rid, region.flags, kinds),
        region.id == rid,
        id_set_items(region.partition_ids) == Set::<u32>::empty(),
        id_set_items(region.neighbor_ids) == Set::<u32>::empty(),
        id_set_items(region.group_ids) == id_range(c0, c1),
    ensures
        regions_wf(rs.insert(rid, region), gs1),
        parts_in_regions(ps, rs.insert(rid, region)),
        partitions_wf(ps, rs) ==> partitions_wf(ps, rs.insert(rid, region)),
{
    reveal(regions_wf);
    reveal(partitions_wf);
    let rs1 = rs.insert(rid, region);
    assert forall|r: u32, n: u32| rs1.contains_key(r) && #[trigger] rnbrs(rs1, r).contains(n) implies rs1.contains_key(n)
        && n != r && rnbrs(rs1, n).contains(r) by {
        if r != rid {
            assert(rnbrs(rs1, r) == rnbrs(rs, r));
            assert(rnbrs(rs1, n) == rnbrs(rs, n));
        }
    }
    assert forall|r: u32, g: u32| rs1.contains_key(r) && #[trigger] rgroups(rs1, r).contains(g) implies gs1.contains_key(g)
        && gregions(gs1, g).contains(r) by {
        if r != rid {
            assert(rgroups(rs1, r) == rgroups(rs, r));
            assert(gs1[g] == gs0[g]);
        } else {
            assert(rgroups(rs1, r) == id_range(c0, c1));
            assert(c0 < g <= c1);
            assert(gs1[g].id == g);
        }
    }
    assert forall|g: u32, r: u32| gs1.contains_key(g) && #[trigger] gregions(gs1, g).contains(r) implies rs1.contains_key(r)
        && rgroups(rs1, r).contains(g) by {
        if gs0.contains_key(g) {
            assert(gs1[g] == gs0[g]);
            assert(gregions(gs0, g).contains(r));
            assert(rs.contains_key(r));
            assert(rgroups(rs1, r) == rgroups(rs, r));
        } else {
            assert(gs1[g].id == g);
            assert(gregions(gs1, g) == set![rid]);
        }
    }
    assert forall|r: u32, g1: u32, g2: u32|
        rs1.contains_key(r) && #[trigger] rgroups(rs1, r).contains(g1) && #[trigger] rgroups(rs1, r).contains(g2)
            && gs1[g1].flags == gs1[g2].flags implies g1 == g2 by {
        if r != rid {
            assert(rgroups(rs1, r) == rgroups(rs, r));
            assert(gs1[g1] == gs0[g1]);
            assert(gs1[g2] == gs0[g2]);
        }
    }
    assert forall|g: u32| #[trigger] gs1.contains_key(g) implies gs1[g].id == g by {
        if gs0.contains_key(g) {
            assert(gs1[g] == gs0[g]);
        }
    }
    assert forall|p: u32| #[trigger] ps.contains_key(p) implies rs1.contains_key(ps[p].region_id)
        && ps[p].flags == rs1[ps[p].region_id].flags by {
        assert(rs.contains_key(ps[p].region_id));
    }
    if partitions_wf(ps, rs) {
        assert forall|p: u32| #[trigger] ps.contains_key(p) implies rparts(rs1, ps[p].region_id).contains(p) by {
            assert(rparts(rs1, ps[p].region_id) == rparts(rs, ps[p].region_id));
        }
        assert forall|r: u32, p: u32| rs1.contains_key(r) && #[trigger] rparts(rs1, r).contains(p) implies ps.contains_key(p)
            && ps[p].region_id == r by {
            assert(rparts(rs1, r) == rparts(rs, r));
        }
    }
}

impl NavigationGraph {
    /// Makes an empty region with the given flags, with a fresh navigation group for each
    /// kind of group it can hold, and hands back its id.
    #[verifier::spinoff_prover]
    pub fn create_region(&mut self, flags: NavigationFlags) -> (r: u32)
        requires
            old(self).links_wf(),
            parts_in_regions(old(self).parts(), old(self).regs()),
            old(self).last_region_id() < u32::MAX,
            old(self).last_group_id() + 2 <= u32::MAX,
        ensures
            final(self).links_wf(),
            parts_in_regions(final(self).parts(), final(self).regs()),
            old(self).wf() ==> final(self).wf(),
            r == old(self).last_region_id() + 1,
            final(self).last_region_id() == r,
            !old(self).regs().contains_key(r),
            final(self).regs() == old(self).regs().insert(r, final(self).regs()[r]),
            final(self).regs()[r].id == r,
            final(self).regs()[r].flags == flags,
            rparts(final(self).regs(), r) == Set::<u32>::empty(),
            rnbrs(final(self).regs(), r) == Set::<u32>::empty(),
            rgroups(final(self).regs(), r) == id_range(old(self).last_group_id(), final(self).last_group_id()),
            groups_added(
                old(self).grps(),
                final(self).grps(),
                old(self).last_group_id(),
                final(self).last_group_id(),
                r,
                flags,
                old(self).group_type_bits(),
            ),
            final(self).last_group_id() <= old(self).last_group_id() + 2,
            final(self).parts() == old(self).parts(),
            final(self).last_partition_id() == old(self).last_partition_id(),
    {
        self.cur_region_id = self.cur_region_id + 1;
        let region_id = self.cur_region_id;
        let ghost gs0 = self.grps();
        let ghost c0 = self.cur_group_id;
        let group_ids = self.create_navigation_groups_for_region(flags, &region_id);
        let mut region = Region::new(region_id, flags);
        region.group_ids = group_ids;
        let ghost rs0 = self.regs();
        proof {
            lemma_region_added(self.parts(), rs0, gs0, self.grps(), c0, self.cur_group_id, region_id, region, self.group_type_bits());
        }
        self.regions.insert(region_id, region);
        proof {
            assert forall|g: u32| #[trigger] self.grps().contains_key(g) implies 0 < g <= self.last_group_id() by {
                if gs0.contains_key(g) {
                }
            }
        }
        region_id
    }

    /// Makes an empty partition of chunk `chunk_idx` in region `region_id`, which must have
    /// the same flags, and hands back its id.
    #[verifier::spinoff_prover]
    pub fn create_partition(&mut self, region_id: u32, chunk_idx: u32, flags: NavigationFlags) -> (r: u32)
        requires
            old(self).wf(),
            old(self).regs().contains_key(region_id),
            old(self).regs()[region_id].flags == flags,
            old(self).last_partition_id() < u32::MAX,
        ensures
            final(self).wf(),
            r == old(self).last_partition_id() + 1,
            final(self).last_partition_id() == r,
            !old(self).parts().contains_key(r),
            final(self).parts() == old(self).parts().insert(r, final(self).parts()[r]),
            final(self).parts()[r].id == r,
            final(self).parts()[r].region_id == region_id,
            final(self).parts()[r].chunk_idx == chunk_idx,
            final(self).parts()[r].flags == flags,
            !final(self).parts()[r].is_computed,
            pnbrs(final(self).parts(), r) == Set::<u32>::empty(),
            id_set_items(final(self).parts()[r].blocks) == Set::<u32>::empty(),
            final(self).regs().dom() == old(self).regs().dom(),
            forall|q: u32| q != region_id ==> #[trigger] final(self).regs()[q] == old(self).regs()[q],
            rparts(final(self).regs(), region_id) == rparts(old(self).regs(), region_id).insert(r),
            rnbrs(final(self).regs(), region_id) == rnbrs(old(self).regs(), region_id),
            rgroups(final(self).regs(), region_id) == rgroups(old(self).regs(), region_id),
            final(self).regs()[region_id].id == old(self).regs()[region_id].id,
            final(self).regs()[region_id].flags == old(self).regs()[region_id].flags,
            final(self).grps() == old(self).grps(),
            final(self).last_region_id() == old(self).last_region_id(),
            final(self).last_group_id() == old(self).last_group_id(),
    {
        self.cur_partition_id = self.cur_partition_id + 1;
        let partition_id = self.cur_partition_id;
        let partition = Partition::new(partition_id, region_id, chunk_idx, flags);
        let ghost ps0 = self.parts();
        let ghost rs0 = self.regs();
        self.partitions.insert(partition_id, partition);
        let mut region = self.regions.remove(region_id).unwrap();
        region.partition_ids.insert(partition_id);
        self.regions.insert(region_id, region);
        proof {
            reveal(regions_wf);
            reveal(partitions_wf);
            let ps = self.parts();
            let rs = self.regs();
            assert(rs.dom() =~= rs0.dom());
            assert forall|q: u32| q != region_id implies #[trigger] rs[q] == rs0[q] by {}
            assert forall|r: u32, n: u32| rs.contains_key(r) && #[trigger] rnbrs(rs, r).contains(n) implies rs.contains_key(n)
                && n != r && rnbrs(rs, n).contains(r) by {
                assert(rnbrs(rs, r) == rnbrs(rs0, r));
                assert(rnbrs(rs, n) == rnbrs(rs0, n));
            }
            assert forall|r: u32, g: u32| rs.contains_key(r) && #[trigger] rgroups(rs, r).contains(g) implies self.grps().contains_key(g)
                && gregions(self.grps(), g).contains(r) by {
                assert(rgroups(rs, r) == rgroups(rs0, r));
            }
            assert forall|g: u32, r: u32| self.grps().contains_key(g) && #[trigger] gregions(self.grps(), g).contains(r) implies rs.contains_key(r)
                && rgroups(rs, r).contains(g) by {
                assert(rgroups(rs, r) == rgroups(rs0, r));
            }
            assert forall|r: u32, g1: u32, g2: u32|
                rs.contains_key(r) && #[trigger] rgroups(rs, r).contains(g1) && #[trigger] rgroups(rs, r).contains(g2)
                    && self.grps()[g1].flags == self.grps()[g2].flags implies g1 == g2 by {
                assert(rgroups(rs, r) == rgroups(rs0, r));
            }
            assert forall|p: u32| #[trigger] ps.contains_key(p) implies {
                &&& ps[p].id == p
                &&& rs.contains_key(ps[p].region_id)
                &&& ps[p].flags == rs[ps[p].region_id].flags
                &&& rparts(rs, ps[p].region_id).contains(p)
            } by {
                if p != partition_id {
                    assert(ps[p] == ps0[p]);
                    assert(rparts(rs0, ps0[p].region_id).contains(p));
                }
            }
            assert forall|r: u32, p: u32| rs.contains_key(r) && #[trigger] rparts(rs, r).contains(p) implies ps.contains_key(p)
                && ps[p].region_id == r by {
                if p != partition_id {
                    assert(rparts(rs0, r).contains(p));
                    assert(ps[p] == ps0[p]);
                } else if r != region_id {
                    assert(rparts(rs0, r).contains(p));
                    assert(ps0.contains_key(p));
                }
            }
            assert forall|p: u32, n: u32| ps.contains_key(p) && #[trigger] pnbrs(ps, p).contains(n) implies ps.contains_key(n)
                && n != p && pnbrs(ps, n).contains(p) && (ps[n].flags == ps[p].flags ==> ps[n].region_id == ps[p].region_id) by {
                assert(p != partition_id);
                assert(ps[p] == ps0[p]);
                assert(pnbrs(ps0, p).contains(n));
                assert(ps[n] == ps0[n]);
            }
        }
        partition_id
    }
}

impl NavigationGraph {
    /// The navigation groups of the region of partition `p`, or none when there is no
    /// such partition or region.
    pub open spec fn partition_group_ids(&self, p: u32) -> Set<u32> {
        if self.parts().contains_key(p) && self.regs().contains_key(self.parts()[p].region_id) {
            rgroups(self.regs(), self.parts()[p].region_id)
        } else {
            Set::empty()
        }
    }

    pub fn get_partition(&self, id: &u32) -> (r: Option<&Partition>)
        ensures
            match r {
                Some(p) => self.parts().contains_key(*id) && *p == self.parts()[*id],
                None => !self.parts().contains_key(*id),
            },
    {
        self.partitions.get(*id)
    }

    pub fn get_region(&self, id: &u32) -> (r: Option<&Region>)
        ensures
            match r {
                Some(g) => self.regs().contains_key(*id) && *g == self.regs()[*id],
                None => !self.regs().contains_key(*id),
            },
    {
        self.regions.get(*id)
    }

    pub fn get_group(&self, id: &u32) -> (r: Option<&NavigationGroup>)
        ensures
            match r {
                Some(g) => self.grps().contains_key(*id) && *g == self.grps()[*id],
                None => !self.grps().contains_key(*id),
            },
    {
        self.groups.get(*id)
    }

    /// The ids of the navigation groups of the region of a partition; none when the
    /// partition or its region is unknown.
    pub fn get_group_ids_for_partition(&self, partition_id: &u32) -> (r: IdSet)
        ensures
            id_set_items(r) == self.partition_group_ids(*partition_id),
    {
        let partition = match self.get_partition(partition_id) {
            Some(p) => p,
            None => {
                return IdSet::new();
            },
        };
        let region = match self.get_region(&partition.region_id) {
            Some(g) => g,
            None => {
                return IdSet::new();
            },
        };
        region.group_ids.clone_set()
    }

    /// The navigation groups of the region of a partition, each once.
    pub fn get_groups_for_partition(&self, partition_id: &u32) -> (r: Vec<&NavigationGroup>)
        requires
            self.wf(),
        ensures
            forall|i: int| 0 <= i < r.len() ==> {
                &&& self.grps().contains_key(#[trigger] r[i].id)
                &&& *r[i] == self.grps()[r[i].id]
                &&& self.partition_group_ids(*partition_id).contains(r[i].id)
            },
            forall|i: int, j: int| 0 <= i < j < r.len() ==> #[trigger] r[i].id != #[trigger] r[j].id,
            forall|g: u32|
                #[trigger] self.partition_group_ids(*partition_id).contains(g) ==> exists|i: int|
                    0 <= i < r.len() && #[trigger] r[i].id == g,
    {
        let ids = self.get_group_ids_for_partition(partition_id).to_vec();
        let mut groups: Vec<&NavigationGroup> = Vec::new();
        let ghost gids = self.partition_group_ids(*partition_id);
        proof {
            reveal(regions_wf);
            assert forall|m: int| 0 <= m < ids.len() implies #[trigger] self.grps().contains_key(ids@[m]) by {
                assert(ids@.to_set().contains(ids@[m]));
            }
        }
        let mut i: usize = 0;
        while i < ids.len()
            invariant
                forall|g: u32| #[trigger] self.grps().contains_key(g) ==> self.grps()[g].id == g,
                forall|m: int| 0 <= m < ids.len() ==> #[trigger] self.grps().contains_key(ids@[m]),
                0 <= i <= ids.len(),
                groups.len() == i,
                forall|k: int| 0 <= k < i ==> #[trigger] groups[k] == self.grps()[ids@[k]],
            decreases ids.len() - i,
        {
            let id = ids[i];
            proof {
                assert(self.grps().contains_key(ids@[i as int]));
            }
            let g = self.groups.get(id).unwrap();
            groups.push(g);
            i = i + 1;
        }
        proof {
            assert forall|k: int| 0 <= k < groups.len() implies {
                &&& self.grps().contains_key(#[trigger] groups[k].id)
                &&& *groups[k] == self.grps()[groups[k].id]
                &&& gids.contains(groups[k].id)
            } by {
                assert(groups[k] == self.grps()[ids@[k]]);
                assert(self.grps().contains_key(ids@[k]));
                assert(ids@.to_set().contains(ids@[k]));
            }
            assert forall|k: int, l: int| 0 <= k < l < groups.len() implies #[trigger] groups[k].id != #[trigger] groups[l].id by {
                assert(groups[k] == self.grps()[ids@[k]]);
                assert(groups[l] == self.grps()[ids@[l]]);
                assert(self.grps().contains_key(ids@[k]));
                assert(self.grps().contains_key(ids@[l]));
            }
            assert forall|g: u32| #[trigger] gids.contains(g) implies exists|i: int|
                0 <= i < groups.len() && #[trigger] groups[i].id == g by {
                assert(ids@.to_set().contains(g));
                let m = choose|m: int| 0 <= m < ids@.len() && ids@[m] == g;
                assert(groups[m] == self.grps()[ids@[m]]);
                assert(self.grps().contains_key(ids@[m]));
            }
        }
        groups
    }

    /// The partitions of the regions of navigation group `group_id`.
    fn group_partition_ids(&self, group_id: u32) -> (r: IdSet)
        requires
            self.links_wf(),
            self.grps().contains_key(group_id),
        ensures
            id_set_items(r) == group_parts(self.regs(), self.grps(), group_id),
    {
        proof {
            reveal(regions_wf);
        }
        let ghost rs = self.regs();
        let group = self.get_group(&group_id).unwrap();
        let regions = group.region_ids.to_vec();
        let mut out = IdSet::new();
        let mut i: usize = 0;
        while i < regions.len()
            invariant
                i <= regions.len(),
                self.links_wf(),
                rs == self.regs(),
                regions@.to_set() == gregions(self.grps(), group_id),
                self.grps().contains_key(group_id),
                id_set_items(out) == parts_of_regions(rs, regions@.subrange(0, i as int)),
            decreases regions.len() - i,
        {
            proof {
                reveal(regions_wf);
                assert(regions@.to_set().contains(regions@[i as int]));
            }
            let region = self.get_region(&regions[i]).unwrap();
            let parts = region.partition_ids.to_vec();
            let mut k: usize = 0;
            while k < parts.len()
                invariant
                    k <= parts.len(),
                    id_set_items(out) == parts_of_regions(rs, regions@.subrange(0, i as int)) + parts@.subrange(0, k as int).to_set(),
                decreases parts.len() - k,
            {
                out.insert(parts[k]);
                proof {
                    let a = parts@.subrange(0, k as int);
                    let b = parts@.subrange(0, k + 1);
                    assert(b =~= a.push(parts@[k as int]));
                    assert forall|x: u32| b.contains(x) <==> a.contains(x) || x == parts@[k as int] by {
                        vstd::seq_lib::lemma_seq_contains_after_push(a, parts@[k as int], x);
                    }
                    assert(id_set_items(out) =~= parts_of_regions(rs, regions@.subrange(0, i as int)) + b.to_set());
                }
                k = k + 1;
            }
            proof {
                assert(parts@.subrange(0, parts@.len() as int) =~= parts@);
                assert forall|x: u32| parts_of_regions(rs, regions@.subrange(0, i + 1)).contains(x) <==> parts_of_regions(
                    rs,
                    regions@.subrange(0, i as int),
                ).contains(x) || parts@.to_set().contains(x) by {
                    lemma_parts_of_regions_step(rs, regions@, i as int, x);
                }
                assert(id_set_items(out) =~= parts_of_regions(rs, regions@.subrange(0, i + 1)));
            }
            i = i + 1;
        }
        proof {
            assert(regions@.subrange(0, regions@.len() as int) =~= regions@);
            assert forall|x: u32| parts_of_regions(rs, regions@).contains(x) <==> group_parts(rs, self.grps(), group_id).contains(x) by {
                if parts_of_regions(rs, regions@).contains(x) {
                    let j = choose|j: int| 0 <= j < regions@.len() && #[trigger] rparts(rs, regions@[j]).contains(x);
                    assert(regions@.to_set().contains(regions@[j]));
                }
                if group_parts(rs, self.grps(), group_id).contains(x) {
                    let q = choose|q: u32| #[trigger] gregions(self.grps(), group_id).contains(q) && rparts(rs, q).contains(x);
                    assert(regions@.to_set().contains(q));
                    let j = choose|j: int| 0 <= j < regions@.len() && regions@[j] == q;
                    assert(rparts(rs, regions@[j]).contains(x));
                }
            }
            assert(parts_of_regions(rs, regions@) =~= group_parts(rs, self.grps(), group_id));
        }
        out
    }

    /// Orders two navigation groups by how many partitions their regions hold: hands back
    /// `(smaller, bigger)`, with `(a, b)` on a tie.
    fn compare_groups(&self, a_id: &u32, b_id: &u32) -> (r: (u32, u32))
        requires
            self.links_wf(),
            self.grps().contains_key(*a_id),
            self.grps().contains_key(*b_id),
        ensures
            r == (if group_parts(self.regs(), self.grps(), *a_id).len() > group_parts(self.regs(), self.grps(), *b_id).len() {
                (*b_id, *a_id)
            } else {
                (*a_id, *b_id)
            }),
    {
        let a_parts = self.group_partition_ids(*a_id);
        let b_parts = self.group_partition_ids(*b_id);
        if a_parts.len() > b_parts.len() {
            (*b_id, *a_id)
        } else {
            (*a_id, *b_id)
        }
    }

    /// Orders two regions by how many partitions they hold: hands back
    /// `(smaller, bigger)`, with `(a, b)` on a tie.
    fn compare_regions(&self, a_id: &u32, b_id: &u32) -> (r: (u32, u32))
        requires
            self.links_wf(),
            self.regs().contains_key(*a_id),
            self.regs().contains_key(*b_id),
        ensures
            r == (if rparts(self.regs(), *a_id).len() > rparts(self.regs(), *b_id).len() {
                (*b_id, *a_id)
            } else {
                (*a_id, *b_id)
            }),
    {
        proof {
            reveal(regions_wf);
        }
        let a_region = self.get_region(a_id).unwrap();
        let b_region = self.get_region(b_id).unwrap();
        if a_region.partition_ids.len() > b_region.partition_ids.len() {
            (b_region.id, a_region.id)
        } else {
            (a_region.id, b_region.id)
        }
    }

    /// Drops navigation group `group_id`.
    pub fn delete_group(&mut self, group_id: &u32)
        ensures
            final(self).grps() == old(self).grps().remove(*group_id),
            final(self).parts() == old(self).parts(),
            final(self).regs() == old(self).regs(),
            final(self).group_type_bits() == old(self).group_type_bits(),
            final(self).last_partition_id() == old(self).last_partition_id(),
            final(self).last_region_id() == old(self).last_region_id(),
            final(self).last_group_id() == old(self).last_group_id(),
    {
        self.groups.remove(*group_id);
    }
}

/// The flags of the navigation groups of region `q`.
pub open spec fn group_flags(rs: Map<u32, Region>, gs: Map<u32, NavigationGroup>, q: u32) -> Set<NavigationFlags> {
    Set::new(|f: NavigationFlags| exists|g: u32| #[trigger] rgroups(rs, q).contains(g) && gs[g].flags == f)
}

/// Every region of `rs1` has groups of the same flags as it had in `rs0`.
pub open spec fn keeps_group_flags(
    rs0: Map<u32, Region>,
    gs0: Map<u32, NavigationGroup>,
    rs1: Map<u32, Region>,
    gs1: Map<u32, NavigationGroup>,
) -> bool {
    forall|q: u32| #[trigger] rs1.contains_key(q) ==> group_flags(rs1, gs1, q) == group_flags(rs0, gs0, q)
}

/// For every flags for which regions `a` and `b` both had a navigation group in `rs0`,
/// they now hold one and the same group with those flags, which lists both.
pub open spec fn joins_groups(
    rs0: Map<u32, Region>,
    gs0: Map<u32, NavigationGroup>,
    rs1: Map<u32, Region>,
    gs1: Map<u32, NavigationGroup>,
    a: u32,
    b: u32,
) -> bool {
    forall|f: NavigationFlags|
        #[trigger] group_flags(rs0, gs0, a).contains(f) && group_flags(rs0, gs0, b).contains(f) ==> exists|g: u32|
            #[trigger] rgroups(rs1, a).contains(g) && rgroups(rs1, b).contains(g) && gs1[g].flags == f && gregions(gs1, g).contains(a)
                && gregions(gs1, g).contains(b)
}

/// When groups of the same flags are kept and the two regions share every group of the
/// same flags, each flags both regions had is now one group holding both.
proof fn lemma_shared_groups_join(
    rs0: Map<u32, Region>,
    gs0: Map<u32, NavigationGroup>,
    rs1: Map<u32, Region>,
    gs1: Map<u32, NavigationGroup>,
    a: u32,
    b: u32,
)
    requires
        regions_wf(rs1, gs1),
        rs1.contains_key(a),
        rs1.contains_key(b),
        keeps_group_flags(rs0, gs0, rs1, gs1),
        shares_groups(rs1, gs1, a, b),
    ensures
        joins_groups(rs0, gs0, rs1, gs1, a, b),
{
    reveal(regions_wf);
    assert forall|f: NavigationFlags|
        #[trigger] group_flags(rs0, gs0, a).contains(f) && group_flags(rs0, gs0, b).contains(f) implies exists|g: u32|
            #[trigger] rgroups(rs1, a).contains(g) && rgroups(rs1, b).contains(g) && gs1[g].flags == f && gregions(gs1, g).contains(a)
                && gregions(gs1, g).contains(b) by {
        assert(group_flags(rs1, gs1, a).contains(f));
        assert(group_flags(rs1, gs1, b).contains(f));
        let ga = choose|g: u32| #[trigger] rgroups(rs1, a).contains(g) && gs1[g].flags == f;
        let gb = choose|g: u32| #[trigger] rgroups(rs1, b).contains(g) && gs1[g].flags == f;
        assert(ga == gb);
        assert(rgroups(rs1, a).contains(ga) && rgroups(rs1, b).contains(ga) && gs1[ga].flags == f && gregions(gs1, ga).contains(a)
            && gregions(gs1, ga).contains(b));
    }
}

/// Merging group `small` into group `r` with the same flags leaves every region with
/// groups of the same flags as before.
proof fn lemma_merge_keeps_group_flags(
    rs0: Map<u32, Region>,
    gs0: Map<u32, NavigationGroup>,
    rs1: Map<u32, Region>,
    gs1: Map<u32, NavigationGroup>,
    r: u32,
    small: u32,
)
    requires
        regions_wf(rs0, gs0),
        regions_wf(rs1, gs1),
        r != small,
        gs0.contains_key(r),
        gs0.contains_key(small),
        gs0[r].flags == gs0[small].flags,
        gs1.dom() == gs0.dom().remove(small),
        forall|g: u32| #[trigger] gs1.contains_key(g) && g != r ==> gs1[g] == gs0[g],
        gs1[r].flags == gs0[r].flags,
        rs1.dom() == rs0.dom(),
        forall|q: u32| #[trigger] rs1.contains_key(q) ==> rgroups(rs1, q) == (if gregions(gs0, small).contains(q) {
            rgroups(rs0, q).insert(r).remove(small)
        } else {
            rgroups(rs0, q)
        }),
    ensures
        forall|q: u32| #[trigger] rs1.contains_key(q) ==> group_flags(rs1, gs1, q) == group_flags(rs0, gs0, q),
{
    reveal(regions_wf);
    assert forall|q: u32| #[trigger] rs1.contains_key(q) implies group_flags(rs1, gs1, q) == group_flags(rs0, gs0, q) by {
        assert(rs0.contains_key(q));
        let in_small = gregions(gs0, small).contains(q);
        assert forall|f: NavigationFlags| group_flags(rs1, gs1, q).contains(f) implies group_flags(rs0, gs0, q).contains(f) by {
            let g = choose|g: u32| #[trigger] rgroups(rs1, q).contains(g) && gs1[g].flags == f;
            if g == r && in_small {
                assert(rgroups(rs0, q).contains(small));
                assert(rgroups(rs0, q).contains(small) && gs0[small].flags == f);
            } else {
                assert(rgroups(rs0, q).contains(g));
                assert(gs1.contains_key(g));
                assert(rgroups(rs0, q).contains(g) && gs0[g].flags == f);
            }
        }
        assert forall|f: NavigationFlags| group_flags(rs0, gs0, q).contains(f) implies group_flags(rs1, gs1, q).contains(f) by {
            let g = choose|g: u32| #[trigger] rgroups(rs0, q).contains(g) && gs0[g].flags == f;
            assert(gs0.contains_key(g));
            if g == small {
                assert(gregions(gs0, small).contains(q));
                assert(rgroups(rs1, q).contains(r) && gs1[r].flags == f);
            } else {
                assert(rgroups(rs1, q).contains(g));
                assert(gs1.contains_key(g));
                assert(rgroups(rs1, q).contains(g) && gs1[g].flags == f);
            }
        }
        assert(group_flags(rs1, gs1, q) =~= group_flags(rs0, gs0, q));
    }
}

/// The partitions of the regions of navigation group `g`.
pub open spec fn group_parts(rs: Map<u32, Region>, gs: Map<u32, NavigationGroup>, g: u32) -> Set<u32> {
    Set::new(|p: u32| exists|q: u32| #[trigger] gregions(gs, g).contains(q) && rparts(rs, q).contains(p))
}

/// The partitions of the regions `v`.
pub open spec fn parts_of_regions(rs: Map<u32, Region>, v: Seq<u32>) -> Set<u32> {
    Set::new(|p: u32| exists|j: int| 0 <= j < v.len() && #[trigger] rparts(rs, v[j]).contains(p))
}

/// Taking one more region of `v` adds its partitions.
proof fn lemma_parts_of_regions_step(rs: Map<u32, Region>, v: Seq<u32>, i: int, x: u32)
    requires
        0 <= i < v.len(),
    ensures
        parts_of_regions(rs, v.subrange(0, i + 1)).contains(x) <==> parts_of_regions(rs, v.subrange(0, i)).contains(x)
            || rparts(rs, v[i]).contains(x),
{
    let a = v.subrange(0, i);
    let b = v.subrange(0, i + 1);
    if parts_of_regions(rs, b).contains(x) {
        let j = choose|j: int| 0 <= j < b.len() && #[trigger] rparts(rs, b[j]).contains(x);
        if j < i {
            assert(a[j] == b[j]);
            assert(rparts(rs, a[j]).contains(x));
        }
    }
    if parts_of_regions(rs, a).contains(x) {
        let j = choose|j: int| 0 <= j < a.len() && #[trigger] rparts(rs, a[j]).contains(x);
        assert(b[j] == a[j]);
        assert(rparts(rs, b[j]).contains(x));
    }
    if rparts(rs, v[i]).contains(x) {
        assert(b[i] == v[i]);
        assert(rparts(rs, b[i]).contains(x));
    }
}

/// `rs1` has the regions of `rs0`, with the same ids, flags and partitions.
pub open spec fn same_region_parts(rs0: Map<u32, Region>, rs1: Map<u32, Region>) -> bool {
    &&& rs1.dom() == rs0.dom()
    &&& forall|r: u32|
        #[trigger] rs1.contains_key(r) ==> {
            &&& rs1[r].id == rs0[r].id
            &&& rs1[r].flags == rs0[r].flags
            &&& rparts(rs1, r) == rparts(rs0, r)
        }
}

/// `rs1` has the regions of `rs0`, which differ at most in their navigation groups.
pub open spec fn same_region_links(rs0: Map<u32, Region>, rs1: Map<u32, Region>) -> bool {
    &&& same_region_parts(rs0, rs1)
    &&& forall|r: u32| #[trigger] rs1.contains_key(r) ==> rnbrs(rs1, r) == rnbrs(rs0, r)
}

/// How partitions sit in regions depends only on the regions' flags and partitions.
proof fn lemma_partitions_wf_frame(ps: Map<u32, Partition>, rs0: Map<u32, Region>, rs1: Map<u32, Region>)
    requires
        partitions_wf(ps, rs0),
        same_region_parts(rs0, rs1),
    ensures
        partitions_wf(ps, rs1),
{
    reveal(partitions_wf);
    assert forall|p: u32| #[trigger] ps.contains_key(p) implies rparts(rs1, ps[p].region_id).contains(p) by {
        assert(rs1.contains_key(ps[p].region_id));
    }
    assert forall|r: u32, p: u32| rs1.contains_key(r) && #[trigger] rparts(rs1, r).contains(p) implies ps.contains_key(p)
        && ps[p].region_id == r by {
        assert(rparts(rs0, r).contains(p));
    }
    assert forall|p: u32| #[trigger] ps.contains_key(p) implies ps[p].flags == rs1[ps[p].region_id].flags by {
        assert(rs1.contains_key(ps[p].region_id));
    }
}

/// How partitions are linked to regions depends only on the regions' partitions.
proof fn lemma_linked_frame(ps: Map<u32, Partition>, rs0: Map<u32, Region>, rs1: Map<u32, Region>)
    requires
        partitions_linked(ps, rs0),
        same_region_parts(rs0, rs1),
    ensures
        partitions_linked(ps, rs1),
{
    reveal(partitions_linked);
    assert forall|p: u32| #[trigger] ps.contains_key(p) implies rparts(rs1, ps[p].region_id).contains(p) by {
        assert(rs1.contains_key(ps[p].region_id));
    }
    assert forall|r: u32, p: u32| rs1.contains_key(r) && #[trigger] rparts(rs1, r).contains(p) implies ps.contains_key(p)
        && ps[p].region_id == r by {
        assert(rparts(rs0, r).contains(p));
    }
}

impl NavigationGraph {
    /// Merges the smaller of two navigation groups with the same flags into the bigger one
    /// (by number of partitions in their regions; `b` on a tie) and hands back the id of the
    /// bigger one.
    #[verifier::spinoff_prover]
    pub fn merge_groups(&mut self, a_group_id: &u32, b_group_id: &u32) -> (r: u32)
        requires
            old(self).links_wf(),
            *a_group_id != *b_group_id,
            old(self).grps().contains_key(*a_group_id),
            old(self).grps().contains_key(*b_group_id),
            old(self).grps()[*a_group_id].flags == old(self).grps()[*b_group_id].flags,
        ensures
            ({
                let gs0 = old(self).grps();
                let gs1 = final(self).grps();
                let small = if r == *a_group_id { *b_group_id } else { *a_group_id };
                &&& r == (if group_parts(old(self).regs(), gs0, *a_group_id).len() > group_parts(old(self).regs(), gs0, *b_group_id).len() {
                    *a_group_id
                } else {
                    *b_group_id
                })
                &&& gs1.dom() == gs0.dom().remove(small)
                &&& forall|g: u32| #[trigger] gs1.contains_key(g) && g != r ==> gs1[g] == gs0[g]
                &&& gs1[r].id == r
                &&& gs1[r].flags == gs0[r].flags
                &&& gregions(gs1, r) == gregions(gs0, r) + gregions(gs0, small)
                &&& forall|q: u32| #[trigger] final(self).regs().contains_key(q) ==> rgroups(final(self).regs(), q) == (
                    if gregions(gs0, small).contains(q) {
                        rgroups(old(self).regs(), q).insert(r).remove(small)
                    } else {
                        rgroups(old(self).regs(), q)
                    })
            }),
            forall|q: u32| #[trigger] final(self).regs().contains_key(q) ==> group_flags(final(self).regs(), final(self).grps(), q)
                == group_flags(old(self).regs(), old(self).grps(), q),
            final(self).links_wf(),
            old(self).wf() ==> final(self).wf(),
            same_region_links(old(self).regs(), final(self).regs()),
            final(self).parts() == old(self).parts(),
            final(self).last_partition_id() == old(self).last_partition_id(),
            final(self).last_region_id() == old(self).last_region_id(),
            final(self).last_group_id() == old(self).last_group_id(),
    {
        let (small_group_id, big_group_id) = self.compare_groups(a_group_id, b_group_id);
        let small_regions = self.groups.get(small_group_id).unwrap().region_ids.to_vec();
        let ghost gs0 = self.grps();
        let ghost rs0 = self.regs();
        let ghost small = small_group_id;
        let ghost big = big_group_id;
        proof {
            reveal(regions_wf);
            assert forall|m: int| 0 <= m < small_regions.len() implies #[trigger] rs0.contains_key(small_regions@[m]) by {
                assert(small_regions@.to_set().contains(small_regions@[m]));
            }
        }
        let mut i: usize = 0;
        while i < small_regions.len()
            invariant
                0 <= i <= small_regions.len(),
                small == small_group_id,
                big == big_group_id,
                small != big,
                gs0.contains_key(small) && gs0.contains_key(big),
                small_regions@.to_set() == gregions(gs0, small),
                small_regions@.no_duplicates(),
                forall|m: int| 0 <= m < small_regions.len() ==> #[trigger] rs0.contains_key(small_regions@[m]),
                self.grps().dom() == gs0.dom(),
                forall|g: u32| #[trigger] self.grps().contains_key(g) && g != big ==> self.grps()[g] == gs0[g],
                self.grps()[big].id == gs0[big].id,
                self.grps()[big].flags == gs0[big].flags,
                gregions(self.grps(), big) == gregions(gs0, big) + small_regions@.subrange(0, i as int).to_set(),
                same_region_links(rs0, self.regs()),
                forall|q: u32| #[trigger] self.regs().contains_key(q) ==> rgroups(self.regs(), q) == (
                    if small_regions@.subrange(0, i as int).contains(q) {
                        rgroups(rs0, q).insert(big).remove(small)
                    } else {
                        rgroups(rs0, q)
                    }),
                self.parts() == old(self).parts(),
                self.group_type_bits() == old(self).group_type_bits(),
                self.cur_partition_id == old(self).cur_partition_id,
                self.cur_region_id == old(self).cur_region_id,
                self.cur_group_id == old(self).cur_group_id,
                gs0 == old(self).grps(),
                rs0 == old(self).regs(),
            decreases small_regions.len() - i,
        {
            let region_id = small_regions[i];
            let ghost gs_pre = self.grps();
            let ghost rs_pre = self.regs();
            proof {
                assert(self.grps().dom().contains(big));
            }
            let mut big_group = self.groups.remove(big_group_id).unwrap();
            big_group.region_ids.insert(region_id);
            self.groups.insert(big_group_id, big_group);
            proof {
                assert(rs_pre.contains_key(region_id));
            }
            let mut region = self.regions.remove(region_id).unwrap();
            region.group_ids.insert(big_group_id);
            region.group_ids.remove(small_group_id);
            self.regions.insert(region_id, region);
            proof {
                let sub0 = small_regions@.subrange(0, i as int);
                let sub1 = small_regions@.subrange(0, i as int + 1);
                assert(sub1 == sub0.push(region_id));
                assert(sub1.to_set() == sub0.to_set().insert(region_id)) by {
                    sub0.lemma_push_to_set_commute(region_id);
                }
                assert(gregions(self.grps(), big) =~= gregions(gs0, big) + sub1.to_set());
                assert forall|g: u32| #[trigger] self.grps().contains_key(g) && g != big implies self.grps()[g] == gs0[g] by {
                    assert(self.grps()[g] == gs_pre[g]);
                }
                assert(self.regs().dom() =~= rs0.dom());
                assert forall|q: u32| #[trigger] self.regs().contains_key(q) implies rgroups(self.regs(), q) == (
                    if sub1.contains(q) {
                        rgroups(rs0, q).insert(big).remove(small)
                    } else {
                        rgroups(rs0, q)
                    }) by {
                    if q == region_id {
                        assert(sub1[i as int] == region_id);
                        assert(sub1.contains(q));
                        assert(rs_pre.contains_key(q));
                        if sub0.contains(q) {
                            let k = choose|k: int| 0 <= k < sub0.len() && sub0[k] == q;
                            assert(small_regions@[k] == small_regions@[i as int]);
                        }
                        assert(rgroups(rs_pre, q) == rgroups(rs0, q));
                        assert(rgroups(self.regs(), q) =~= rgroups(rs0, q).insert(big).remove(small));
                    } else {
                        assert(self.regs()[q] == rs_pre[q]);
                        assert(sub1.contains(q) == sub0.contains(q)) by {
                            if sub1.contains(q) {
                                let k = choose|k: int| 0 <= k < sub1.len() && sub1[k] == q;
                                assert(sub0[k] == q);
                            }
                        }
                    }
                }
                assert forall|q: u32| #[trigger] self.regs().contains_key(q) implies {
                    &&& self.regs()[q].id == rs0[q].id
                    &&& self.regs()[q].flags == rs0[q].flags
                    &&& rparts(self.regs(), q) == rparts(rs0, q)
                    &&& rnbrs(self.regs(), q) == rnbrs(rs0, q)
                } by {
                    assert(rs_pre.contains_key(q));
                    if q != region_id {
                        assert(self.regs()[q] == rs_pre[q]);
                    }
                }
            }
            i = i + 1;
        }
        self.delete_group(&small_group_id);
        proof {
            let gs1 = self.grps();
            let rs1 = self.regs();
            let ps = self.parts();
            assert(small_regions@.subrange(0, small_regions@.len() as int) == small_regions@);
            assert(gs1.dom() =~= gs0.dom().remove(small));
            if partitions_wf(ps, rs0) {
                lemma_partitions_wf_frame(ps, rs0, rs1);
            }
            reveal(regions_wf);
            assert forall|q: u32| rs1.contains_key(q) && !gregions(gs0, small).contains(q) implies !rgroups(rs1, q).contains(small) by {
                assert(!small_regions@.contains(q));
                if rgroups(rs0, q).contains(small) {
                    assert(gregions(gs0, small).contains(q));
                }
            }
            assert forall|q: u32| gregions(gs0, small).contains(q) implies !rgroups(rs0, q).contains(big) by {
                assert(rs0.contains_key(q));
                assert(rgroups(rs0, q).contains(small));
                if rgroups(rs0, q).contains(big) {
                    assert(gs0[small].flags == gs0[big].flags);
                }
            }
            assert forall|q: u32, n: u32| rs1.contains_key(q) && #[trigger] rnbrs(rs1, q).contains(n) implies rs1.contains_key(n)
                && n != q && rnbrs(rs1, n).contains(q) by {
                assert(rnbrs(rs0, q).contains(n));
            }
            assert forall|q: u32, g: u32| rs1.contains_key(q) && #[trigger] rgroups(rs1, q).contains(g) implies gs1.contains_key(g)
                && gregions(gs1, g).contains(q) by {
                if g == big {
                    if !small_regions@.contains(q) {
                        assert(rgroups(rs0, q).contains(g));
                    } else {
                        assert(small_regions@.to_set().contains(q));
                    }
                } else {
                    assert(rgroups(rs0, q).contains(g));
                    assert(g != small);
                    assert(gs1[g] == gs0[g]);
                }
            }
            assert forall|g: u32, q: u32| gs1.contains_key(g) && #[trigger] gregions(gs1, g).contains(q) implies rs1.contains_key(q)
                && rgroups(rs1, q).contains(g) by {
                if g == big {
                    if gregions(gs0, big).contains(q) {
                        assert(rs0.contains_key(q));
                        assert(rgroups(rs0, q).contains(big));
                    } else {
                        assert(small_regions@.to_set().contains(q));
                        assert(rs0.contains_key(q));
                    }
                } else {
                    assert(gs1[g] == gs0[g]);
                    assert(gregions(gs0, g).contains(q));
                    assert(rs0.contains_key(q));
                    assert(rgroups(rs0, q).contains(g));
                }
            }
            assert forall|q: u32, g1: u32, g2: u32|
                rs1.contains_key(q) && #[trigger] rgroups(rs1, q).contains(g1) && #[trigger] rgroups(rs1, q).contains(g2)
                    && gs1[g1].flags == gs1[g2].flags implies g1 == g2 by {
                if small_regions@.contains(q) {
                    assert(small_regions@.to_set().contains(q));
                    assert(rgroups(rs0, q).contains(small));
                    if g1 != big {
                        assert(rgroups(rs0, q).contains(g1));
                        assert(gs1[g1] == gs0[g1]);
                    }
                    if g2 != big {
                        assert(rgroups(rs0, q).contains(g2));
                        assert(gs1[g2] == gs0[g2]);
                    }
                    if g1 == big && g2 != big {
                        assert(gs0[g2].flags == gs0[small].flags);
                    }
                    if g2 == big && g1 != big {
                        assert(gs0[g1].flags == gs0[small].flags);
                    }
                } else {
                    assert(rgroups(rs0, q).contains(g1));
                    assert(rgroups(rs0, q).contains(g2));
                    if g1 != big {
                        assert(gs1[g1] == gs0[g1]);
                    }
                    if g2 != big {
                        assert(gs1[g2] == gs0[g2]);
                    }
                }
            }
            assert forall|g: u32| #[trigger] gs1.contains_key(g) implies gs1[g].id == g by {
                if g != big {
                    assert(gs1[g] == gs0[g]);
                }
            }
            assert forall|g: u32| #[trigger] gs1.contains_key(g) implies 0 < g <= self.last_group_id() by {
                assert(gs0.contains_key(g));
            }
        }
        proof {
            assert(small_regions@.subrange(0, small_regions@.len() as int) == small_regions@);
            assert forall|q: u32| #[trigger] self.regs().contains_key(q) implies rgroups(self.regs(), q) == (
                if gregions(gs0, small).contains(q) {
                    rgroups(rs0, q).insert(big).remove(small)
                } else {
                    rgroups(rs0, q)
                }) by {
                assert(small_regions@.contains(q) <==> small_regions@.to_set().contains(q));
            }
            lemma_merge_keeps_group_flags(rs0, gs0, self.regs(), self.grps(), big, small);
        }
        big_group_id
    }
}

/// Regions `a` and `b` have one and the same navigation group for each flags they both
/// have a group for.
pub open spec fn shares_groups(rs: Map<u32, Region>, gs: Map<u32, NavigationGroup>, a: u32, b: u32) -> bool {
    forall|g1: u32, g2: u32|
        #[trigger] rgroups(rs, a).contains(g1) && #[trigger] rgroups(rs, b).contains(g2) && gs[g1].flags == gs[g2].flags ==> g1 == g2
}

/// The first entry of `groups` other than `id` with the given flags.
fn find_matching_group(groups: &Vec<(u32, NavigationFlags)>, id: u32, flags: NavigationFlags) -> (r: Option<u32>)
    ensures
        match r {
            Some(m) => exists|k: int|
                0 <= k < groups.len() && #[trigger] groups@[k] == (m, flags) && m != id && forall|l: int|
                    0 <= l < k ==> !(#[trigger] groups@[l].0 != id && groups@[l].1 == flags),
            None => forall|k: int| 0 <= k < groups.len() ==> !(#[trigger] groups@[k].0 != id && groups@[k].1 == flags),
        },
{
    let mut k: usize = 0;
    while k < groups.len()
        invariant
            0 <= k <= groups.len(),
            forall|l: int| 0 <= l < k ==> !(#[trigger] groups@[l].0 != id && groups@[l].1 == flags),
        decreases groups.len() - k,
    {
        let (gid, gflags) = groups[k];
        if gid != id && gflags == flags {
            return Some(gid);
        }
        k = k + 1;
    }
    None
}

impl NavigationGraph {
    /// The ids and flags of the navigation groups of a region.
    fn region_group_flags(&self, region_id: u32) -> (r: Vec<(u32, NavigationFlags)>)
        requires
            self.links_wf(),
            self.regs().contains_key(region_id),
        ensures
            forall|k: int| 0 <= k < r.len() ==> {
                &&& self.grps().contains_key(#[trigger] r@[k].0)
                &&& r@[k].1 == self.grps()[r@[k].0].flags
                &&& rgroups(self.regs(), region_id).contains(r@[k].0)
            },
            forall|g: u32| #[trigger] rgroups(self.regs(), region_id).contains(g) ==> exists|k: int|
                0 <= k < r.len() && #[trigger] r@[k].0 == g,
            forall|k: int, l: int| 0 <= k < r.len() && 0 <= l < r.len() && k != l ==> #[trigger] r@[k].1 != #[trigger] r@[l].1,
    {
        proof {
            reveal(regions_wf);
        }
        let region = self.regions.get(region_id).unwrap();
        let ids = region.group_ids.to_vec();
        proof {
            assert(ids@.to_set() == rgroups(self.regs(), region_id));
            assert forall|m: int| 0 <= m < ids.len() implies #[trigger] self.grps().contains_key(ids@[m])
                && rgroups(self.regs(), region_id).contains(ids@[m]) by {
                assert(ids@.to_set().contains(ids@[m]));
                assert(rgroups(self.regs(), region_id).contains(ids@[m]));
            }
        }
        let mut out: Vec<(u32, NavigationFlags)> = Vec::new();
        let mut i: usize = 0;
        while i < ids.len()
            invariant
                0 <= i <= ids.len(),
                out.len() == i,
                forall|m: int| 0 <= m < ids.len() ==> #[trigger] self.grps().contains_key(ids@[m])
                    && rgroups(self.regs(), region_id).contains(ids@[m]),
                forall|k: int| 0 <= k < i ==> #[trigger] out@[k] == (ids@[k], self.grps()[ids@[k]].flags),
                ids@.to_set() == rgroups(self.regs(), region_id),
            decreases ids.len() - i,
        {
            let id = ids[i];
            proof {
                assert(self.grps().contains_key(ids@[i as int]));
            }
            let flags = self.groups.get(id).unwrap().flags;
            out.push((id, flags));
            i = i + 1;
        }
        proof {
            assert forall|k: int| 0 <= k < out.len() implies {
                &&& self.grps().contains_key(#[trigger] out@[k].0)
                &&& out@[k].1 == self.grps()[out@[k].0].flags
                &&& rgroups(self.regs(), region_id).contains(out@[k].0)
            } by {
                assert(out@[k] == (ids@[k], self.grps()[ids@[k]].flags));
                assert(self.grps().contains_key(ids@[k]));
            }
            assert forall|g: u32| #[trigger] rgroups(self.regs(), region_id).contains(g) implies exists|k: int|
                0 <= k < out.len() && #[trigger] out@[k].0 == g by {
                assert(ids@.to_set().contains(g));
                let m = choose|m: int| 0 <= m < ids.len() && ids@[m] == g;
                assert(out@[m] == (ids@[m], self.grps()[ids@[m]].flags));
                assert(out@[m].0 == g);
            }
            assert forall|k: int, l: int| 0 <= k < out.len() && 0 <= l < out.len() && k != l implies #[trigger] out@[k].1 != #[trigger] out@[l].1 by {
                assert(out@[k] == (ids@[k], self.grps()[ids@[k]].flags));
                assert(out@[l] == (ids@[l], self.grps()[ids@[l]].flags));
                assert(self.grps().contains_key(ids@[k]));
                assert(self.grps().contains_key(ids@[l]));
                assert(rgroups(self.regs(), region_id).contains(ids@[k]));
                assert(rgroups(self.regs(), region_id).contains(ids@[l]));
            }
        }
        out
    }

    /// For each navigation group of region `a` with a group of region `b` of the same
    /// flags, merges the two.
    #[verifier::spinoff_prover]
    pub fn merge_navigation_groups_for_regions(&mut self, a_region_id: &u32, b_region_id: &u32)
        requires
            old(self).links_wf(),
            old(self).regs().contains_key(*a_region_id),
            old(self).regs().contains_key(*b_region_id),
        ensures
            final(self).links_wf(),
            old(self).wf() ==> final(self).wf(),
            shares_groups(final(self).regs(), final(self).grps(), *a_region_id, *b_region_id),
            keeps_group_flags(old(self).regs(), old(self).grps(), final(self).regs(), final(self).grps()),
            joins_groups(old(self).regs(), old(self).grps(), final(self).regs(), final(self).grps(), *a_region_id, *b_region_id),
            same_region_links(old(self).regs(), final(self).regs()),
            final(self).parts() == old(self).parts(),
            final(self).last_partition_id() == old(self).last_partition_id(),
            final(self).last_region_id() == old(self).last_region_id(),
            final(self).last_group_id() == old(self).last_group_id(),
    {
        let a_groups = self.region_group_flags(*a_region_id);
        let b_groups = self.region_group_flags(*b_region_id);
        let ghost rs0 = self.regs();
        let ghost gs0 = self.grps();
        let ghost ra = *a_region_id;
        let ghost rb = *b_region_id;
        proof {
            reveal(regions_wf);
            assert forall|g: u32| #[trigger] rgroups(self.regs(), ra).contains(g) implies exists|j: int|
                0 <= j < a_groups.len() && self.grps()[g].flags == a_groups@[j].1 by {
                let j = choose|j: int| 0 <= j < a_groups.len() && #[trigger] a_groups@[j].0 == g;
            }
            assert forall|g: u32| #[trigger] rgroups(self.regs(), rb).contains(g) implies exists|k: int|
                0 <= k < b_groups.len() && b_groups@[k] == (g, self.grps()[g].flags) by {
                let k = choose|k: int| 0 <= k < b_groups.len() && #[trigger] b_groups@[k].0 == g;
            }
        }
        let mut i: usize = 0;
        while i < a_groups.len()
            invariant
                0 <= i <= a_groups.len(),
                self.links_wf(),
                same_region_links(rs0, self.regs()),
                rs0 == old(self).regs(),
                gs0 == old(self).grps(),
                keeps_group_flags(rs0, gs0, self.regs(), self.grps()),
                self.parts() == old(self).parts(),
                self.cur_partition_id == old(self).cur_partition_id,
                self.cur_region_id == old(self).cur_region_id,
                self.cur_group_id == old(self).cur_group_id,
                forall|k: int, l: int| 0 <= k < a_groups.len() && 0 <= l < a_groups.len() && k != l ==> #[trigger] a_groups@[k].1 != #[trigger] a_groups@[l].1,
                forall|k: int| i <= k < a_groups.len() ==> {
                    &&& self.grps().contains_key(#[trigger] a_groups@[k].0)
                    &&& self.grps()[a_groups@[k].0].flags == a_groups@[k].1
                },
                forall|k: int|
                    0 <= k < b_groups.len() && (forall|j: int| 0 <= j < i ==> #[trigger] a_groups@[j].1 != b_groups@[k].1) ==> {
                        &&& self.grps().contains_key(#[trigger] b_groups@[k].0)
                        &&& self.grps()[b_groups@[k].0].flags == b_groups@[k].1
                        &&& rgroups(self.regs(), rb).contains(b_groups@[k].0)
                    },
                ra == *a_region_id,
                rb == *b_region_id,
                rs0.contains_key(ra),
                rs0.contains_key(rb),
                forall|k: int| 0 <= k < b_groups.len() ==> rgroups(rs0, rb).contains(#[trigger] b_groups@[k].0),
                forall|k: int| 0 <= k < a_groups.len() ==> rgroups(rs0, ra).contains(#[trigger] a_groups@[k].0),
                forall|k: int| i <= k < a_groups.len() ==> rgroups(self.regs(), ra).contains(#[trigger] a_groups@[k].0),
                forall|g: u32| #[trigger] rgroups(self.regs(), ra).contains(g) ==> exists|j: int|
                    0 <= j < a_groups.len() && self.grps()[g].flags == a_groups@[j].1,
                forall|g: u32|
                    #[trigger] rgroups(self.regs(), rb).contains(g) && (forall|j: int| 0 <= j < i ==> #[trigger] a_groups@[j].1 != self.grps()[g].flags)
                        ==> exists|k: int| 0 <= k < b_groups.len() && b_groups@[k] == (g, self.grps()[g].flags),
                forall|j: int, g1: u32, g2: u32|
                    #![trigger rgroups(self.regs(), ra).contains(g1), rgroups(self.regs(), rb).contains(g2), a_groups@[j]]
                    0 <= j < i && rgroups(self.regs(), ra).contains(g1) && rgroups(self.regs(), rb).contains(g2)
                        && self.grps()[g1].flags == a_groups@[j].1 && self.grps()[g2].flags == a_groups@[j].1 ==> g1 == g2,
            decreases a_groups.len() - i,
        {
            let (a_group_id, a_group_flags) = a_groups[i];
            let found = find_matching_group(&b_groups, a_group_id, a_group_flags);
            let ghost gs_pre = self.grps();
            let ghost rs_pre = self.regs();
            match found {
                Some(matching_group_id) => {
                    proof {
                        let k = choose|k: int|
                            0 <= k < b_groups.len() && #[trigger] b_groups@[k] == (matching_group_id, a_group_flags)
                                && matching_group_id != a_group_id && forall|l: int|
                                0 <= l < k ==> !(#[trigger] b_groups@[l].0 != a_group_id && b_groups@[l].1 == a_group_flags);
                        assert(a_groups@[i as int].0 == a_group_id);
                        assert forall|j: int| 0 <= j < i implies #[trigger] a_groups@[j].1 != b_groups@[k].1 by {
                            assert(a_groups@[j].1 != a_groups@[i as int].1);
                        }
                        assert(self.grps().contains_key(b_groups@[k].0));
                    }
                    let big = self.merge_groups(&a_group_id, &matching_group_id);
                    proof {
                        assert forall|q: u32| #[trigger] self.regs().contains_key(q) implies group_flags(self.regs(), self.grps(), q)
                            == group_flags(rs0, gs0, q) by {
                            assert(rs_pre.contains_key(q));
                        }
                    }
                    proof {
                        reveal(regions_wf);
                        let small = if big == a_group_id { matching_group_id } else { a_group_id };
                        let gs1 = self.grps();
                        let rs1 = self.regs();
                        let fi = a_group_flags;
                        let kk0 = choose|k: int|
                            0 <= k < b_groups.len() && #[trigger] b_groups@[k] == (matching_group_id, a_group_flags)
                                && matching_group_id != a_group_id && forall|l: int|
                                0 <= l < k ==> !(#[trigger] b_groups@[l].0 != a_group_id && b_groups@[l].1 == a_group_flags);
                        assert forall|j: int| 0 <= j < i implies #[trigger] a_groups@[j].1 != b_groups@[kk0].1 by {
                            assert(a_groups@[j].1 != a_groups@[i as int].1);
                        }
                        assert(a_groups@[i as int].0 == a_group_id);
                        assert(rgroups(rs_pre, ra).contains(a_group_id));
                        assert(rgroups(rs_pre, rb).contains(matching_group_id));
                        assert(gs_pre[a_group_id].flags == fi);
                        assert(gs_pre[matching_group_id].flags == fi);
                        assert(gs1[big].flags == fi);
                        assert(rgroups(rs1, ra).contains(big)) by {
                            if small == a_group_id {
                                assert(gregions(gs_pre, a_group_id).contains(ra));
                            } else if gregions(gs_pre, small).contains(ra) {
                                assert(rgroups(rs_pre, ra).contains(small));
                            }
                        }
                        assert(rgroups(rs1, rb).contains(big)) by {
                            if small == matching_group_id {
                                assert(gregions(gs_pre, matching_group_id).contains(rb));
                            } else if gregions(gs_pre, small).contains(rb) {
                                assert(rgroups(rs_pre, rb).contains(small));
                            }
                        }
                        assert forall|q: u32, g: u32| rs1.contains_key(q) && #[trigger] rgroups(rs1, q).contains(g) && g != big
                            implies rgroups(rs_pre, q).contains(g) && gs1[g] == gs_pre[g] by {
                            assert(rs_pre.contains_key(q));
                        }
                        assert forall|g: u32| #[trigger] rgroups(rs1, ra).contains(g) implies exists|j: int|
                            0 <= j < a_groups.len() && gs1[g].flags == a_groups@[j].1 by {
                            if g == big {
                                assert(gs1[g].flags == a_groups@[i as int].1);
                            } else {
                                assert(rgroups(rs_pre, ra).contains(g));
                            }
                        }
                        assert forall|g: u32|
                            #[trigger] rgroups(rs1, rb).contains(g) && (forall|j: int| 0 <= j < i + 1 ==> #[trigger] a_groups@[j].1 != gs1[g].flags)
                                implies exists|k: int| 0 <= k < b_groups.len() && b_groups@[k] == (g, gs1[g].flags) by {
                            assert(a_groups@[i as int].1 != gs1[g].flags);
                            assert(g != big);
                            assert(rgroups(rs_pre, rb).contains(g));
                            assert forall|j: int| 0 <= j < i implies #[trigger] a_groups@[j].1 != gs_pre[g].flags by {
                                assert(0 <= j < i + 1);
                            }
                        }
                        assert forall|j: int, g1: u32, g2: u32|
                            #![trigger rgroups(rs1, ra).contains(g1), rgroups(rs1, rb).contains(g2), a_groups@[j]]
                            0 <= j < i + 1 && rgroups(rs1, ra).contains(g1) && rgroups(rs1, rb).contains(g2)
                                && gs1[g1].flags == a_groups@[j].1 && gs1[g2].flags == a_groups@[j].1 implies g1 == g2 by {
                            if j == i {
                                assert(gs1[g1].flags == gs1[big].flags);
                                assert(gs1[g2].flags == gs1[big].flags);
                            } else {
                                assert(a_groups@[j].1 != a_groups@[i as int].1);
                                assert(g1 != big);
                                assert(g2 != big);
                                assert(rgroups(rs_pre, ra).contains(g1));
                                assert(rgroups(rs_pre, rb).contains(g2));
                            }
                        }
                        assert forall|kk: int| i + 1 <= kk < a_groups.len() implies rgroups(rs1, ra).contains(#[trigger] a_groups@[kk].0) by {
                            assert(a_groups@[kk].1 != a_groups@[i as int].1);
                            assert(rgroups(rs_pre, ra).contains(a_groups@[kk].0));
                            assert(gs_pre[a_groups@[kk].0].flags == a_groups@[kk].1);
                            assert(a_groups@[kk].0 != small);
                            assert(rs1.contains_key(ra));
                        }
                        assert forall|kk: int|
                            0 <= kk < b_groups.len() && (forall|j: int| 0 <= j < i + 1 ==> #[trigger] a_groups@[j].1 != b_groups@[kk].1)
                                implies rgroups(rs1, rb).contains(#[trigger] b_groups@[kk].0) by {
                            assert(a_groups@[i as int].1 != b_groups@[kk].1);
                            assert forall|j: int| 0 <= j < i implies #[trigger] a_groups@[j].1 != b_groups@[kk].1 by {
                                assert(0 <= j < i + 1);
                            }
                            assert(rgroups(rs_pre, rb).contains(b_groups@[kk].0));
                            assert(b_groups@[kk].0 != small);
                            assert(rs1.contains_key(rb));
                        }
                    }
                    proof {
                        let k = choose|k: int|
                            0 <= k < b_groups.len() && #[trigger] b_groups@[k] == (matching_group_id, a_group_flags)
                                && matching_group_id != a_group_id && forall|l: int|
                                0 <= l < k ==> !(#[trigger] b_groups@[l].0 != a_group_id && b_groups@[l].1 == a_group_flags);
                        assert forall|kk: int| i + 1 <= kk < a_groups.len() implies {
                            &&& self.grps().contains_key(#[trigger] a_groups@[kk].0)
                            &&& self.grps()[a_groups@[kk].0].flags == a_groups@[kk].1
                        } by {
                            assert(a_groups@[kk].1 != a_groups@[i as int].1);
                            assert(gs_pre.contains_key(a_groups@[kk].0));
                            assert(a_groups@[kk].0 != a_group_id);
                            assert(a_groups@[kk].0 != matching_group_id);
                        }
                        assert forall|kk: int|
                            0 <= kk < b_groups.len() && (forall|j: int| 0 <= j < i + 1 ==> #[trigger] a_groups@[j].1 != b_groups@[kk].1) implies {
                                &&& self.grps().contains_key(#[trigger] b_groups@[kk].0)
                                &&& self.grps()[b_groups@[kk].0].flags == b_groups@[kk].1
                            } by {
                            assert(a_groups@[i as int].1 != b_groups@[kk].1);
                            assert forall|j: int| 0 <= j < i implies #[trigger] a_groups@[j].1 != b_groups@[kk].1 by {
                                assert(0 <= j < i + 1);
                            }
                            assert(gs_pre.contains_key(b_groups@[kk].0));
                            assert(b_groups@[kk].0 != a_group_id);
                            assert(b_groups@[kk].0 != matching_group_id);
                        }
                    }
                },
                None => {
                    proof {
                        reveal(regions_wf);
                        let fi = a_group_flags;
                        assert(a_groups@[i as int].0 == a_group_id);
                        assert(rgroups(rs_pre, ra).contains(a_group_id));
                        assert forall|j: int, g1: u32, g2: u32|
                            #![trigger rgroups(rs_pre, ra).contains(g1), rgroups(rs_pre, rb).contains(g2), a_groups@[j]]
                            0 <= j < i + 1 && rgroups(rs_pre, ra).contains(g1) && rgroups(rs_pre, rb).contains(g2)
                                && gs_pre[g1].flags == a_groups@[j].1 && gs_pre[g2].flags == a_groups@[j].1 implies g1 == g2 by {
                            if j == i {
                                assert(g1 == a_group_id);
                                assert forall|jj: int| 0 <= jj < i implies #[trigger] a_groups@[jj].1 != gs_pre[g2].flags by {
                                    assert(a_groups@[jj].1 != a_groups@[i as int].1);
                                }
                                let k = choose|k: int| 0 <= k < b_groups.len() && b_groups@[k] == (g2, gs_pre[g2].flags);
                                assert(!(b_groups@[k].0 != a_group_id && b_groups@[k].1 == a_group_flags));
                            }
                        }
                        assert forall|kk: int|
                            0 <= kk < b_groups.len() && (forall|j: int| 0 <= j < i + 1 ==> #[trigger] a_groups@[j].1 != b_groups@[kk].1) implies {
                                &&& self.grps().contains_key(#[trigger] b_groups@[kk].0)
                                &&& self.grps()[b_groups@[kk].0].flags == b_groups@[kk].1
                            } by {
                            assert forall|j: int| 0 <= j < i implies #[trigger] a_groups@[j].1 != b_groups@[kk].1 by {
                                assert(0 <= j < i + 1);
                            }
                        }
                    }
                },
            }
            i = i + 1;
        }
        proof {
            if old(self).wf() {
                lemma_partitions_wf_frame(self.parts(), rs0, self.regs());
            }
            assert forall|g1: u32, g2: u32|
                #[trigger] rgroups(self.regs(), ra).contains(g1) && #[trigger] rgroups(self.regs(), rb).contains(g2)
                    && self.grps()[g1].flags == self.grps()[g2].flags implies g1 == g2 by {
                let j = choose|j: int| 0 <= j < a_groups.len() && self.grps()[g1].flags == a_groups@[j].1;
                assert(a_groups@[j] == a_groups@[j]);
            }
            lemma_shared_groups_join(rs0, gs0, self.regs(), self.grps(), ra, rb);
        }
    }

    /// Makes regions `a` and `b` neighbors, and merges their navigation groups of the same
    /// flags.
    #[verifier::spinoff_prover]
    pub fn set_region_neighbors(&mut self, a_id: &u32, b_id: &u32)
        requires
            old(self).links_wf(),
            *a_id != *b_id,
            old(self).regs().contains_key(*a_id),
            old(self).regs().contains_key(*b_id),
        ensures
            final(self).links_wf(),
            old(self).wf() ==> final(self).wf(),
            shares_groups(final(self).regs(), final(self).grps(), *a_id, *b_id),
            keeps_group_flags(old(self).regs(), old(self).grps(), final(self).regs(), final(self).grps()),
            joins_groups(old(self).regs(), old(self).grps(), final(self).regs(), final(self).grps(), *a_id, *b_id),
            same_region_parts(old(self).regs(), final(self).regs()),
            rnbrs(final(self).regs(), *a_id) == rnbrs(old(self).regs(), *a_id).insert(*b_id),
            rnbrs(final(self).regs(), *b_id) == rnbrs(old(self).regs(), *b_id).insert(*a_id),
            forall|q: u32| #[trigger] final(self).regs().contains_key(q) && q != *a_id && q != *b_id ==> rnbrs(final(self).regs(), q)
                == rnbrs(old(self).regs(), q),
            final(self).parts() == old(self).parts(),
            final(self).last_partition_id() == old(self).last_partition_id(),
            final(self).last_region_id() == old(self).last_region_id(),
            final(self).last_group_id() == old(self).last_group_id(),
    {
        let ghost rs0 = self.regs();
        let mut a_region = self.regions.remove(*a_id).unwrap();
        a_region.neighbor_ids.insert(*b_id);
        self.regions.insert(*a_id, a_region);
        let mut b_region = self.regions.remove(*b_id).unwrap();
        b_region.neighbor_ids.insert(*a_id);
        self.regions.insert(*b_id, b_region);
        let ghost rs1 = self.regs();
        proof {
            reveal(regions_wf);
            assert(rs1.dom() =~= rs0.dom());
            assert forall|q: u32| #[trigger] rs1.contains_key(q) implies {
                &&& rs1[q].id == rs0[q].id
                &&& rs1[q].flags == rs0[q].flags
                &&& rparts(rs1, q) == rparts(rs0, q)
                &&& rgroups(rs1, q) == rgroups(rs0, q)
                &&& rnbrs(rs1, q) == (if q == *a_id {
                    rnbrs(rs0, q).insert(*b_id)
                } else if q == *b_id {
                    rnbrs(rs0, q).insert(*a_id)
                } else {
                    rnbrs(rs0, q)
                })
            } by {}
            if old(self).wf() {
                lemma_partitions_wf_frame(self.parts(), rs0, rs1);
            }
            assert forall|r: u32, n: u32| rs1.contains_key(r) && #[trigger] rnbrs(rs1, r).contains(n) implies rs1.contains_key(n)
                && n != r && rnbrs(rs1, n).contains(r) by {
                if !((r == *a_id && n == *b_id) || (r == *b_id && n == *a_id)) {
                    assert(rnbrs(rs0, r).contains(n));
                }
            }
            assert forall|r: u32, g: u32| rs1.contains_key(r) && #[trigger] rgroups(rs1, r).contains(g) implies self.grps().contains_key(g)
                && gregions(self.grps(), g).contains(r) by {
                assert(rgroups(rs0, r).contains(g));
            }
            assert forall|g: u32, r: u32| self.grps().contains_key(g) && #[trigger] gregions(self.grps(), g).contains(r) implies rs1.contains_key(r)
                && rgroups(rs1, r).contains(g) by {
            }
            assert forall|r: u32, g1: u32, g2: u32|
                rs1.contains_key(r) && #[trigger] rgroups(rs1, r).contains(g1) && #[trigger] rgroups(rs1, r).contains(g2)
                    && self.grps()[g1].flags == self.grps()[g2].flags implies g1 == g2 by {
                assert(rgroups(rs0, r).contains(g1));
                assert(rgroups(rs0, r).contains(g2));
            }
        }
        self.merge_navigation_groups_for_regions(a_id, b_id);
        proof {
            let rs2 = self.regs();
            let gs2 = self.grps();
            assert forall|q: u32| #[trigger] rs2.contains_key(q) implies group_flags(rs2, gs2, q) == group_flags(rs0, old(self).grps(), q) by {
                assert(rs1.contains_key(q));
                assert(group_flags(rs1, old(self).grps(), q) =~= group_flags(rs0, old(self).grps(), q));
            }
            assert forall|f: NavigationFlags|
                #[trigger] group_flags(rs0, old(self).grps(), *a_id).contains(f) && group_flags(rs0, old(self).grps(), *b_id).contains(f)
                    implies exists|g: u32|
                    #[trigger] rgroups(rs2, *a_id).contains(g) && rgroups(rs2, *b_id).contains(g) && gs2[g].flags == f
                        && gregions(gs2, g).contains(*a_id) && gregions(gs2, g).contains(*b_id) by {
                assert(group_flags(rs1, old(self).grps(), *a_id) =~= group_flags(rs0, old(self).grps(), *a_id));
                assert(group_flags(rs1, old(self).grps(), *b_id) =~= group_flags(rs0, old(self).grps(), *b_id));
                assert(group_flags(rs1, old(self).grps(), *a_id).contains(f));
            }
        }
    }
}

impl NavigationGraph {
    /// Drops region `region_id`, which no partition may lie in any more: its neighbors
    /// forget it, its navigation groups lose it, and those left without regions are
    /// dropped.
    #[verifier::spinoff_prover]
    pub fn delete_region(&mut self, region_id: &u32)
        requires
            regions_wf(old(self).regs(), old(self).grps()),
            partitions_linked(old(self).parts(), old(self).regs().remove(*region_id)),
            old(self).ids_ok(),
            old(self).regs().contains_key(*region_id),
        ensures
            final(self).links_wf(),
            partitions_linked(final(self).parts(), final(self).regs()),
            partitions_wf(old(self).parts(), old(self).regs().remove(*region_id)) ==> final(self).wf(),
            final(self).regs().dom() == old(self).regs().dom().remove(*region_id),
            forall|q: u32| #[trigger] final(self).regs().contains_key(q) ==> {
                &&& final(self).regs()[q].id == old(self).regs()[q].id
                &&& final(self).regs()[q].flags == old(self).regs()[q].flags
                &&& rparts(final(self).regs(), q) == rparts(old(self).regs(), q)
                &&& rgroups(final(self).regs(), q) == rgroups(old(self).regs(), q)
                &&& rnbrs(final(self).regs(), q) == rnbrs(old(self).regs(), q).remove(*region_id)
            },
            forall|g: u32| #[trigger] final(self).grps().contains_key(g) <==> old(self).grps().contains_key(g) && gregions(
                old(self).grps(),
                g,
            ) != set![*region_id],
            forall|g: u32| #[trigger] final(self).grps().contains_key(g) ==> {
                &&& final(self).grps()[g].id == old(self).grps()[g].id
                &&& final(self).grps()[g].flags == old(self).grps()[g].flags
                &&& gregions(final(self).grps(), g) == gregions(old(self).grps(), g).remove(*region_id)
            },
            final(self).parts() == old(self).parts(),
            final(self).last_partition_id() == old(self).last_partition_id(),
            final(self).last_region_id() == old(self).last_region_id(),
            final(self).last_group_id() == old(self).last_group_id(),
    {
        let ghost rs0 = self.regs();
        let ghost gs0 = self.grps();
        let ghost rid = *region_id;
        proof {
            reveal(regions_wf);
        }
        let region = self.regions.remove(*region_id).unwrap();
        let neighbor_ids = region.neighbor_ids.to_vec();
        proof {
            assert forall|m: int| 0 <= m < neighbor_ids.len() implies #[trigger] rs0.contains_key(neighbor_ids@[m])
                && neighbor_ids@[m] != rid by {
                assert(neighbor_ids@.to_set().contains(neighbor_ids@[m]));
                assert(rnbrs(rs0, rid).contains(neighbor_ids@[m]));
            }
        }
        let mut i: usize = 0;
        while i < neighbor_ids.len()
            invariant
                0 <= i <= neighbor_ids.len(),
                rid == *region_id,
                neighbor_ids@.no_duplicates(),
                neighbor_ids@.to_set() == rnbrs(rs0, rid),
                forall|m: int| 0 <= m < neighbor_ids.len() ==> #[trigger] rs0.contains_key(neighbor_ids@[m])
                    && neighbor_ids@[m] != rid,
                self.regs().dom() == rs0.dom().remove(rid),
                forall|q: u32| #[trigger] self.regs().contains_key(q) ==> {
                    &&& self.regs()[q].id == rs0[q].id
                    &&& self.regs()[q].flags == rs0[q].flags
                    &&& rparts(self.regs(), q) == rparts(rs0, q)
                    &&& rgroups(self.regs(), q) == rgroups(rs0, q)
                    &&& rnbrs(self.regs(), q) == (if neighbor_ids@.subrange(0, i as int).contains(q) {
                        rnbrs(rs0, q).remove(rid)
                    } else {
                        rnbrs(rs0, q)
                    })
                },
                self.grps() == gs0,
                self.parts() == old(self).parts(),
                self.group_type_bits() == old(self).group_type_bits(),
                self.cur_partition_id == old(self).cur_partition_id,
                self.cur_region_id == old(self).cur_region_id,
                self.cur_group_id == old(self).cur_group_id,
                rs0 == old(self).regs(),
                gs0 == old(self).grps(),
            decreases neighbor_ids.len() - i,
        {
            let neighbor_id = neighbor_ids[i];
            let ghost rs_pre = self.regs();
            proof {
                assert(rs0.contains_key(neighbor_ids@[i as int]));
                assert(self.regs().contains_key(neighbor_id));
            }
            let mut neighbor = self.regions.remove(neighbor_id).unwrap();
            neighbor.neighbor_ids.remove(*region_id);
            self.regions.insert(neighbor_id, neighbor);
            proof {
                let sub0 = neighbor_ids@.subrange(0, i as int);
                let sub1 = neighbor_ids@.subrange(0, i as int + 1);
                assert(sub1 == sub0.push(neighbor_id));
                assert(self.regs().dom() =~= rs0.dom().remove(rid));
                assert forall|q: u32| #[trigger] self.regs().contains_key(q) implies {
                    &&& self.regs()[q].id == rs0[q].id
                    &&& self.regs()[q].flags == rs0[q].flags
                    &&& rparts(self.regs(), q) == rparts(rs0, q)
                    &&& rgroups(self.regs(), q) == rgroups(rs0, q)
                    &&& rnbrs(self.regs(), q) == (if sub1.contains(q) {
                        rnbrs(rs0, q).remove(rid)
                    } else {
                        rnbrs(rs0, q)
                    })
                } by {
                    assert(rs_pre.contains_key(q));
                    if q == neighbor_id {
                        assert(sub1[i as int] == q);
                        if sub0.contains(q) {
                            let k = choose|k: int| 0 <= k < sub0.len() && sub0[k] == q;
                            assert(neighbor_ids@[k] == neighbor_ids@[i as int]);
                        }
                    } else {
                        assert(self.regs()[q] == rs_pre[q]);
                        assert(sub1.contains(q) == sub0.contains(q)) by {
                            if sub1.contains(q) {
                                let k = choose|k: int| 0 <= k < sub1.len() && sub1[k] == q;
                                assert(sub0[k] == q);
                            }
                        }
                    }
                }
            }
            i = i + 1;
        }
        let ghost rs1 = self.regs();
        proof {
            assert(neighbor_ids@.subrange(0, neighbor_ids@.len() as int) == neighbor_ids@);
            assert forall|q: u32| #[trigger] rs1.contains_key(q) implies rnbrs(rs1, q) == rnbrs(rs0, q).remove(rid) by {
                if !neighbor_ids@.contains(q) {
                    if rnbrs(rs0, q).contains(rid) {
                        assert(rnbrs(rs0, rid).contains(q));
                        assert(neighbor_ids@.to_set().contains(q));
                    }
                    assert(rnbrs(rs0, q) =~= rnbrs(rs0, q).remove(rid));
                }
            }
        }
        let group_ids = region.group_ids.to_vec();
        proof {
            assert forall|m: int| 0 <= m < group_ids.len() implies #[trigger] gs0.contains_key(group_ids@[m])
                && gregions(gs0, group_ids@[m]).contains(rid) by {
                assert(group_ids@.to_set().contains(group_ids@[m]));
                assert(rgroups(rs0, rid).contains(group_ids@[m]));
            }
        }
        let mut j: usize = 0;
        while j < group_ids.len()
            invariant
                0 <= j <= group_ids.len(),
                rid == *region_id,
                group_ids@.no_duplicates(),
                group_ids@.to_set() == rgroups(rs0, rid),
                forall|m: int| 0 <= m < group_ids.len() ==> #[trigger] gs0.contains_key(group_ids@[m])
                    && gregions(gs0, group_ids@[m]).contains(rid),
                forall|g: u32| #[trigger] self.grps().contains_key(g) <==> gs0.contains_key(g) && !(
                    group_ids@.subrange(0, j as int).contains(g) && gregions(gs0, g) == set![rid]),
                forall|g: u32| #[trigger] self.grps().contains_key(g) ==> {
                    &&& self.grps()[g].id == gs0[g].id
                    &&& self.grps()[g].flags == gs0[g].flags
                    &&& gregions(self.grps(), g) == (if group_ids@.subrange(0, j as int).contains(g) {
                        gregions(gs0, g).remove(rid)
                    } else {
                        gregions(gs0, g)
                    })
                },
                self.regs() == rs1,
                self.parts() == old(self).parts(),
                self.group_type_bits() == old(self).group_type_bits(),
                self.cur_partition_id == old(self).cur_partition_id,
                self.cur_region_id == old(self).cur_region_id,
                self.cur_group_id == old(self).cur_group_id,
                gs0 == old(self).grps(),
            decreases group_ids.len() - j,
        {
            let group_id = group_ids[j];
            let ghost gs_pre = self.grps();
            let ghost sub0 = group_ids@.subrange(0, j as int);
            let ghost sub1 = group_ids@.subrange(0, j as int + 1);
            proof {
                assert(sub1 == sub0.push(group_id));
                assert(sub1[j as int] == group_id);
                assert(gs0.contains_key(group_ids@[j as int]));
                if sub0.contains(group_id) {
                    let k = choose|k: int| 0 <= k < sub0.len() && sub0[k] == group_id;
                    assert(group_ids@[k] == group_ids@[j as int]);
                }
                assert(!sub0.contains(group_id));
                assert(gregions(gs0, group_id).contains(rid));
                assert(gregions(gs0, group_id) != Set::<u32>::empty());
                assert(self.grps().contains_key(group_id));
            }
            let mut group = self.groups.remove(group_id).unwrap();
            group.region_ids.remove(*region_id);
            let now_empty = group.region_ids.is_empty();
            self.groups.insert(group_id, group);
            if now_empty {
                self.delete_group(&group_id);
            }
            proof {
                let empty_now = gregions(gs0, group_id).remove(rid) == Set::<u32>::empty();
                assert(empty_now <==> gregions(gs0, group_id) == set![rid]) by {
                    if empty_now {
                        assert(gregions(gs0, group_id) =~= set![rid]) by {
                            assert forall|x: u32| gregions(gs0, group_id).contains(x) implies x == rid by {
                                if x != rid {
                                    assert(gregions(gs0, group_id).remove(rid).contains(x));
                                }
                            }
                        }
                    } else if gregions(gs0, group_id) == set![rid] {
                        assert(gregions(gs0, group_id).remove(rid) =~= Set::<u32>::empty());
                    }
                }
                assert forall|g: u32| #[trigger] self.grps().contains_key(g) <==> gs0.contains_key(g) && !(
                    sub1.contains(g) && gregions(gs0, g) == set![rid]) by {
                    if g != group_id {
                        assert(sub1.contains(g) == sub0.contains(g)) by {
                            if sub1.contains(g) {
                                let k = choose|k: int| 0 <= k < sub1.len() && sub1[k] == g;
                                assert(sub0[k] == g);
                            }
                        }
                        assert(self.grps().contains_key(g) == gs_pre.contains_key(g));
                    }
                }
                assert forall|g: u32| #[trigger] self.grps().contains_key(g) implies {
                    &&& self.grps()[g].id == gs0[g].id
                    &&& self.grps()[g].flags == gs0[g].flags
                    &&& gregions(self.grps(), g) == (if sub1.contains(g) {
                        gregions(gs0, g).remove(rid)
                    } else {
                        gregions(gs0, g)
                    })
                } by {
                    if g != group_id {
                        assert(sub1.contains(g) == sub0.contains(g)) by {
                            if sub1.contains(g) {
                                let k = choose|k: int| 0 <= k < sub1.len() && sub1[k] == g;
                                assert(sub0[k] == g);
                            }
                        }
                        assert(gs_pre.contains_key(g));
                        assert(self.grps()[g] == gs_pre[g]);
                    }
                }
            }
            j = j + 1;
        }
        proof {
            let gs1 = self.grps();
            let ps = self.parts();
            assert(group_ids@.subrange(0, group_ids@.len() as int) == group_ids@);
            assert forall|g: u32| #[trigger] gs1.contains_key(g) implies gregions(gs1, g) == gregions(gs0, g).remove(rid) by {
                if !group_ids@.contains(g) {
                    if gregions(gs0, g).contains(rid) {
                        assert(rgroups(rs0, rid).contains(g));
                        assert(group_ids@.to_set().contains(g));
                    }
                    assert(gregions(gs0, g) =~= gregions(gs0, g).remove(rid));
                }
            }
            assert forall|g: u32| #[trigger] gs1.contains_key(g) <==> gs0.contains_key(g) && gregions(gs0, g) != set![rid] by {
                if gs0.contains_key(g) && gregions(gs0, g) == set![rid] {
                    assert(gregions(gs0, g).contains(rid));
                    assert(rgroups(rs0, rid).contains(g));
                    assert(group_ids@.to_set().contains(g));
                }
            }
            assert(rs1.dom().finite());
            assert(gs1.dom().finite()) by {
                assert(gs1.dom().subset_of(gs0.dom()));
                vstd::set_lib::lemma_len_subset(gs1.dom(), gs0.dom());
            }
            assert(rs1 =~= rs1);
            assert forall|r: u32| #[trigger] rs1.contains_key(r) implies rs1[r].id == r by {}
            assert forall|g: u32| #[trigger] gs1.contains_key(g) implies gs1[g].id == g by {}
            assert forall|r: u32, n: u32| rs1.contains_key(r) && #[trigger] rnbrs(rs1, r).contains(n) implies rs1.contains_key(n)
                && n != r && rnbrs(rs1, n).contains(r) by {
                assert(rnbrs(rs0, r).contains(n));
            }
            assert forall|r: u32, g: u32| rs1.contains_key(r) && #[trigger] rgroups(rs1, r).contains(g) implies gs1.contains_key(g)
                && gregions(gs1, g).contains(r) by {
                assert(rgroups(rs0, r).contains(g));
                assert(gregions(gs0, g).contains(r));
                if gregions(gs0, g) == set![rid] {
                    assert(set![rid].contains(r));
                }
            }
            assert forall|g: u32, r: u32| gs1.contains_key(g) && #[trigger] gregions(gs1, g).contains(r) implies rs1.contains_key(r)
                && rgroups(rs1, r).contains(g) by {
                assert(gregions(gs0, g).contains(r));
            }
            assert forall|r: u32, g1: u32, g2: u32|
                rs1.contains_key(r) && #[trigger] rgroups(rs1, r).contains(g1) && #[trigger] rgroups(rs1, r).contains(g2)
                    && gs1[g1].flags == gs1[g2].flags implies g1 == g2 by {
                assert(rgroups(rs0, r).contains(g1));
                assert(rgroups(rs0, r).contains(g2));
                assert(gregions(gs0, g1).contains(r));
                assert(gregions(gs0, g2).contains(r));
                if gregions(gs0, g1) == set![rid] {
                    assert(set![rid].contains(r));
                }
                if gregions(gs0, g2) == set![rid] {
                    assert(set![rid].contains(r));
                }
            }
            assert(same_region_parts(rs0.remove(rid), rs1));
            lemma_linked_frame(ps, rs0.remove(rid), rs1);
            if partitions_wf(ps, rs0.remove(rid)) {
                lemma_partitions_wf_frame(ps, rs0.remove(rid), rs1);
            }
            assert forall|g: u32| #[trigger] gs1.contains_key(g) implies 0 < g <= self.last_group_id() by {}
            assert forall|r: u32| #[trigger] rs1.contains_key(r) implies 0 < r <= self.last_region_id() by {}
        }
    }
}

/// `p` moved to region `r`.
pub open spec fn moved_to(p: Partition, r: u32) -> Partition {
    Partition { region_id: r, ..p }
}

impl NavigationGraph {
    /// Merges the smaller of two regions into the bigger one (by number of partitions; `b`
    /// on a tie): its partitions move over and it is dropped. Hands back the id of the
    /// bigger region. The graph stays consistent when the two regions have the same flags;
    /// otherwise the moved partitions keep flags other than their new region's.
    #[verifier::spinoff_prover]
    pub fn merge_regions(&mut self, a_id: &u32, b_id: &u32) -> (r: u32)
        requires
            old(self).wf(),
            old(self).regs().contains_key(*a_id),
            old(self).regs().contains_key(*b_id),
        ensures
            final(self).links_wf(),
            partitions_linked(final(self).parts(), final(self).regs()),
            old(self).regs()[*a_id].flags == old(self).regs()[*b_id].flags ==> final(self).wf(),
            *a_id == *b_id ==> r == *a_id && final(self).regs() == old(self).regs() && final(self).parts()
                == old(self).parts() && final(self).grps() == old(self).grps(),
            *a_id != *b_id ==> ({
                let rs0 = old(self).regs();
                let small = if r == *a_id { *b_id } else { *a_id };
                &&& r == (if rparts(rs0, *a_id).len() > rparts(rs0, *b_id).len() { *a_id } else { *b_id })
                &&& final(self).regs().dom() == rs0.dom().remove(small)
                &&& rparts(final(self).regs(), r) == rparts(rs0, r) + rparts(rs0, small)
                &&& forall|q: u32| #[trigger] final(self).regs().contains_key(q) && q != r ==> rparts(final(self).regs(), q) == rparts(rs0, q)
                &&& final(self).parts().dom() == old(self).parts().dom()
                &&& forall|p: u32| #[trigger] final(self).parts().contains_key(p) ==> final(self).parts()[p] == (
                    if rparts(rs0, small).contains(p) {
                        moved_to(old(self).parts()[p], r)
                    } else {
                        old(self).parts()[p]
                    })
            }),
            final(self).last_partition_id() == old(self).last_partition_id(),
            final(self).last_region_id() == old(self).last_region_id(),
            final(self).last_group_id() == old(self).last_group_id(),
    {
        if *a_id == *b_id {
            proof {
                lemma_wf_linked(self.parts(), self.regs());
            }
            return *a_id;
        }
        let (small_id, big_id) = self.compare_regions(a_id, b_id);
        let ghost ps0 = self.parts();
        let ghost rs0 = self.regs();
        let ghost small = small_id;
        let ghost big = big_id;
        proof {
            reveal(partitions_wf);
        }
        let small_parts = self.regions.get(small_id).unwrap().partition_ids.to_vec();
        proof {
            assert forall|m: int| 0 <= m < small_parts.len() implies #[trigger] ps0.contains_key(small_parts@[m])
                && ps0[small_parts@[m]].region_id == small by {
                assert(small_parts@.to_set().contains(small_parts@[m]));
                assert(rparts(rs0, small).contains(small_parts@[m]));
            }
        }
        let mut i: usize = 0;
        while i < small_parts.len()
            invariant
                0 <= i <= small_parts.len(),
                small == small_id,
                big == big_id,
                small != big,
                rs0.contains_key(small) && rs0.contains_key(big),
                small_parts@.no_duplicates(),
                small_parts@.to_set() == rparts(rs0, small),
                forall|m: int| 0 <= m < small_parts.len() ==> #[trigger] ps0.contains_key(small_parts@[m])
                    && ps0[small_parts@[m]].region_id == small,
                self.parts().dom() == ps0.dom(),
                forall|p: u32| #[trigger] self.parts().contains_key(p) ==> self.parts()[p] == (
                    if small_parts@.subrange(0, i as int).contains(p) {
                        moved_to(ps0[p], big)
                    } else {
                        ps0[p]
                    }),
                self.regs().dom() == rs0.dom(),
                forall|q: u32| #[trigger] self.regs().contains_key(q) && q != big ==> self.regs()[q] == rs0[q],
                self.regs()[big].id == rs0[big].id,
                self.regs()[big].flags == rs0[big].flags,
                rnbrs(self.regs(), big) == rnbrs(rs0, big),
                rgroups(self.regs(), big) == rgroups(rs0, big),
                rparts(self.regs(), big) == rparts(rs0, big) + small_parts@.subrange(0, i as int).to_set(),
                self.grps() == old(self).grps(),
                self.group_type_bits() == old(self).group_type_bits(),
                self.cur_partition_id == old(self).cur_partition_id,
                self.cur_region_id == old(self).cur_region_id,
                self.cur_group_id == old(self).cur_group_id,
                ps0 == old(self).parts(),
                rs0 == old(self).regs(),
            decreases small_parts.len() - i,
        {
            let partition_id = small_parts[i];
            let ghost ps_pre = self.parts();
            let ghost rs_pre = self.regs();
            let ghost sub0 = small_parts@.subrange(0, i as int);
            let ghost sub1 = small_parts@.subrange(0, i as int + 1);
            proof {
                assert(sub1 == sub0.push(partition_id));
                assert(sub1[i as int] == partition_id);
                if sub0.contains(partition_id) {
                    let k = choose|k: int| 0 <= k < sub0.len() && sub0[k] == partition_id;
                    assert(small_parts@[k] == small_parts@[i as int]);
                }
                assert(ps0.contains_key(small_parts@[i as int]));
                assert(self.parts().contains_key(partition_id));
                assert(self.regs().contains_key(big));
            }
            let mut partition = self.partitions.remove(partition_id).unwrap();
            partition.region_id = big_id;
            self.partitions.insert(partition_id, partition);
            let mut big_region = self.regions.remove(big_id).unwrap();
            big_region.partition_ids.insert(partition_id);
            self.regions.insert(big_id, big_region);
            proof {
                sub0.lemma_push_to_set_commute(partition_id);
                assert(self.parts().dom() =~= ps0.dom());
                assert(self.regs().dom() =~= rs0.dom());
                assert(rparts(self.regs(), big) =~= rparts(rs0, big) + sub1.to_set());
                assert forall|p: u32| #[trigger] self.parts().contains_key(p) implies self.parts()[p] == (
                    if sub1.contains(p) {
                        moved_to(ps0[p], big)
                    } else {
                        ps0[p]
                    }) by {
                    if p == partition_id {
                        assert(sub1.contains(p));
                        assert(ps_pre[p] == ps0[p]);
                    } else {
                        assert(ps_pre.contains_key(p));
                        assert(self.parts()[p] == ps_pre[p]);
                        assert(sub1.contains(p) == sub0.contains(p)) by {
                            if sub1.contains(p) {
                                let k = choose|k: int| 0 <= k < sub1.len() && sub1[k] == p;
                                assert(sub0[k] == p);
                            }
                        }
                    }
                }
                assert forall|q: u32| #[trigger] self.regs().contains_key(q) && q != big implies self.regs()[q] == rs0[q] by {
                    assert(rs_pre.contains_key(q));
                }
            }
            i = i + 1;
        }
        let ghost ps1 = self.parts();
        let ghost rs1 = self.regs();
        proof {
            assert(small_parts@.subrange(0, small_parts@.len() as int) == small_parts@);
            let rsd = rs1.remove(small);
            reveal(regions_wf);
            assert forall|p: u32| #[trigger] ps1.contains_key(p) implies {
                &&& ps1[p].id == p
                &&& rsd.contains_key(ps1[p].region_id)
                &&& (rs0[small].flags == rs0[big].flags ==> ps1[p].flags == rsd[ps1[p].region_id].flags)
                &&& rparts(rsd, ps1[p].region_id).contains(p)
            } by {
                if small_parts@.contains(p) {
                    assert(small_parts@.to_set().contains(p));
                } else {
                    assert(ps1[p] == ps0[p]);
                    if ps0[p].region_id == small {
                        assert(rparts(rs0, small).contains(p));
                        assert(small_parts@.to_set().contains(p));
                    }
                    assert(rparts(rs0, ps0[p].region_id).contains(p));
                }
            }
            assert forall|r: u32, p: u32| rsd.contains_key(r) && #[trigger] rparts(rsd, r).contains(p) implies ps1.contains_key(p)
                && ps1[p].region_id == r by {
                if r == big {
                    if small_parts@.to_set().contains(p) {
                        let m = choose|m: int| 0 <= m < small_parts.len() && small_parts@[m] == p;
                        assert(ps0.contains_key(small_parts@[m]));
                        assert(small_parts@.contains(p));
                    } else {
                        assert(rparts(rs0, big).contains(p));
                        assert(ps0[p].region_id == big);
                        if small_parts@.contains(p) {
                            assert(small_parts@.to_set().contains(p));
                        }
                    }
                } else {
                    assert(rparts(rs0, r).contains(p));
                    assert(ps0[p].region_id == r);
                    if small_parts@.contains(p) {
                        assert(small_parts@.to_set().contains(p));
                        assert(rparts(rs0, small).contains(p));
                    }
                }
            }
            assert forall|p: u32, n: u32| ps1.contains_key(p) && #[trigger] pnbrs(ps1, p).contains(n) implies ps1.contains_key(n)
                && n != p && pnbrs(ps1, n).contains(p) && (ps1[n].flags == ps1[p].flags ==> ps1[n].region_id == ps1[p].region_id) by {
                assert(pnbrs(ps0, p).contains(n));
                assert(ps0.contains_key(n));
                if ps0[n].flags == ps0[p].flags {
                    assert(ps0[n].region_id == ps0[p].region_id);
                    if small_parts@.contains(p) {
                        assert(small_parts@.to_set().contains(p));
                        assert(rparts(rs0, ps0[n].region_id).contains(n));
                        assert(small_parts@.to_set().contains(n));
                    } else if small_parts@.contains(n) {
                        assert(small_parts@.to_set().contains(n));
                        assert(rparts(rs0, ps0[p].region_id).contains(p));
                        assert(small_parts@.to_set().contains(p));
                    }
                }
            }
            if rs0[small].flags == rs0[big].flags {
                assert(partitions_wf(ps1, rsd));
            }
            reveal(partitions_linked);
            assert(partitions_linked(ps1, rsd));
            assert(regions_wf(rs1, self.grps())) by {
                assert forall|r: u32, n: u32| rs1.contains_key(r) && #[trigger] rnbrs(rs1, r).contains(n) implies rs1.contains_key(n)
                    && n != r && rnbrs(rs1, n).contains(r) by {
                    assert(rnbrs(rs0, r).contains(n));
                }
                assert forall|r: u32, g: u32| rs1.contains_key(r) && #[trigger] rgroups(rs1, r).contains(g) implies self.grps().contains_key(g)
                    && gregions(self.grps(), g).contains(r) by {
                    assert(rgroups(rs0, r).contains(g));
                }
                assert forall|g: u32, r: u32| self.grps().contains_key(g) && #[trigger] gregions(self.grps(), g).contains(r) implies rs1.contains_key(r)
                    && rgroups(rs1, r).contains(g) by {
                    assert(rgroups(rs0, r).contains(g));
                }
                assert forall|r: u32, g1: u32, g2: u32|
                    rs1.contains_key(r) && #[trigger] rgroups(rs1, r).contains(g1) && #[trigger] rgroups(rs1, r).contains(g2)
                        && self.grps()[g1].flags == self.grps()[g2].flags implies g1 == g2 by {
                    assert(rgroups(rs0, r).contains(g1));
                    assert(rgroups(rs0, r).contains(g2));
                }
                assert forall|r: u32| #[trigger] rs1.contains_key(r) implies rs1[r].id == r by {}
            }
            assert forall|p: u32| #[trigger] ps1.contains_key(p) implies 0 < p <= self.last_partition_id() by {}
        }
        self.delete_region(&small_id);
        proof {
            assert forall|q: u32| #[trigger] self.regs().contains_key(q) && q != big implies rparts(self.regs(), q) == rparts(rs0, q) by {}
        }
        big_id
    }
}

impl NavigationGraph {
    /// Links partitions `a` and `b` as neighbors; two regions get linked as well, or
    /// merged when they have the same flags, and then the id of the merged region comes
    /// back.
    #[verifier::spinoff_prover]
    pub fn set_partition_neighbors(&mut self, a_id: &u32, b_id: &u32) -> (r: Option<u32>)
        requires
            old(self).wf(),
            *a_id != *b_id,
            old(self).parts().contains_key(*a_id),
            old(self).parts().contains_key(*b_id),
        ensures
            final(self).wf(),
            ({
                let ps0 = old(self).parts();
                let ra = ps0[*a_id].region_id;
                let rb = ps0[*b_id].region_id;
                &&& r is Some <==> ra != rb && ps0[*a_id].flags == ps0[*b_id].flags
                &&& r matches Some(m) ==> (m == ra || m == rb) && final(self).parts()[*a_id].region_id == m
                    && final(self).parts()[*b_id].region_id == m
                &&& ra != rb && ps0[*a_id].flags != ps0[*b_id].flags ==> rnbrs(final(self).regs(), ra).contains(rb)
                    && rnbrs(final(self).regs(), rb).contains(ra)
            }),
            final(self).parts().dom() == old(self).parts().dom(),
            pnbrs(final(self).parts(), *a_id) == pnbrs(old(self).parts(), *a_id).insert(*b_id),
            pnbrs(final(self).parts(), *b_id) == pnbrs(old(self).parts(), *b_id).insert(*a_id),
            forall|p: u32| #[trigger] final(self).parts().contains_key(p) && p != *a_id && p != *b_id ==> pnbrs(final(self).parts(), p)
                == pnbrs(old(self).parts(), p),
            final(self).last_partition_id() == old(self).last_partition_id(),
            final(self).last_region_id() == old(self).last_region_id(),
            final(self).last_group_id() == old(self).last_group_id(),
    {
        proof {
            reveal(partitions_wf);
        }
        let a_region_id = self.partitions.get(*a_id).unwrap().region_id;
        let b_region_id = self.partitions.get(*b_id).unwrap().region_id;
        let a_flags = self.partitions.get(*a_id).unwrap().flags;
        let b_flags = self.partitions.get(*b_id).unwrap().flags;
        let ghost ps0 = self.parts();
        let mut merged = None;
        if a_region_id != b_region_id {
            if a_flags == b_flags {
                let region_id = self.merge_regions(&a_region_id, &b_region_id);
                merged = Some(region_id);
            } else {
                self.set_region_neighbors(&a_region_id, &b_region_id);
            }
        }
        let ghost ps1 = self.parts();
        let ghost rs1 = self.regs();
        proof {
            assert(ps1.dom() == ps0.dom());
            assert forall|p: u32| #[trigger] ps1.contains_key(p) implies pnbrs(ps1, p) == pnbrs(ps0, p) && ps1[p].flags == ps0[p].flags by {}
        }
        let mut a_partition = self.partitions.remove(*a_id).unwrap();
        a_partition.neighbor_ids.insert(*b_id);
        self.partitions.insert(*a_id, a_partition);
        let mut b_partition = self.partitions.remove(*b_id).unwrap();
        b_partition.neighbor_ids.insert(*a_id);
        self.partitions.insert(*b_id, b_partition);
        proof {
            let ps2 = self.parts();
            assert(ps2.dom() =~= ps1.dom());
            assert forall|p: u32| #[trigger] ps2.contains_key(p) implies {
                &&& ps2[p].id == ps1[p].id
                &&& ps2[p].region_id == ps1[p].region_id
                &&& ps2[p].flags == ps1[p].flags
                &&& pnbrs(ps2, p) == (if p == *a_id {
                    pnbrs(ps1, p).insert(*b_id)
                } else if p == *b_id {
                    pnbrs(ps1, p).insert(*a_id)
                } else {
                    pnbrs(ps1, p)
                })
            } by {}
            assert(ps1[*a_id].region_id == ps1[*b_id].region_id || ps1[*a_id].flags != ps1[*b_id].flags);
            assert forall|p: u32| #[trigger] ps2.contains_key(p) implies rparts(rs1, ps2[p].region_id).contains(p) && ps2[p].id == p
                && rs1.contains_key(ps2[p].region_id) && ps2[p].flags == rs1[ps2[p].region_id].flags by {
                assert(ps1.contains_key(p));
            }
            assert forall|q: u32, p: u32| rs1.contains_key(q) && #[trigger] rparts(rs1, q).contains(p) implies ps2.contains_key(p)
                && ps2[p].region_id == q by {}
            assert forall|p: u32, n: u32| ps2.contains_key(p) && #[trigger] pnbrs(ps2, p).contains(n) implies ps2.contains_key(n)
                && n != p && pnbrs(ps2, n).contains(p) && (ps2[n].flags == ps2[p].flags ==> ps2[n].region_id == ps2[p].region_id) by {
                if !((p == *a_id && n == *b_id) || (p == *b_id && n == *a_id)) {
                    assert(pnbrs(ps1, p).contains(n));
                }
            }
            assert forall|p: u32| #[trigger] ps2.contains_key(p) implies 0 < p <= self.last_partition_id() by {
                assert(ps1.contains_key(p));
            }
        }
        merged
    }
}

/// Whether `v` holds `x`.
pub(crate) fn contains_id(v: &Vec<u32>, x: u32) -> (r: bool)
    ensures
        r == v@.contains(x),
{
    let mut k: usize = 0;
    while k < v.len()
        invariant
            0 <= k <= v.len(),
            forall|l: int| 0 <= l < k ==> v@[l] != x,
        decreases v.len() - k,
    {
        if v[k] == x {
            return true;
        }
        k = k + 1;
    }
    false
}

/// Drops every `x` from `v`, keeping the others in order.
fn remove_id(v: &mut Vec<u32>, x: u32)
    ensures
        final(v)@.to_set() == old(v)@.to_set().remove(x),
        old(v)@.no_duplicates() ==> final(v)@.no_duplicates(),
        final(v)@.len() <= old(v)@.len(),
{
    let mut kept: Vec<u32> = Vec::new();
    let mut k: usize = 0;
    while k < v.len()
        invariant
            0 <= k <= v.len(),
            kept@.len() <= k,
            kept@.to_set() == v@.subrange(0, k as int).to_set().remove(x),
            forall|i: int| 0 <= i < kept@.len() ==> exists|j: int| 0 <= j < k && #[trigger] kept@[i] == v@[j],
            v@.no_duplicates() ==> forall|i: int, j: int| 0 <= i < kept@.len() && 0 <= j < kept@.len() && i != j ==> kept@[i] != kept@[j],
            forall|i: int, j: int| 0 <= i < kept@.len() && k <= j < v@.len() && v@.no_duplicates() ==> kept@[i] != v@[j],
        decreases v.len() - k,
    {
        let y = v[k];
        let ghost sub0 = v@.subrange(0, k as int);
        proof {
            assert(v@.subrange(0, k as int + 1) == sub0.push(y));
            sub0.lemma_push_to_set_commute(y);
        }
        let ghost kept0 = kept@;
        if y != x {
            kept.push(y);
        }
        proof {
            kept0.lemma_push_to_set_commute(y);
            assert(kept@.to_set() =~= v@.subrange(0, k as int + 1).to_set().remove(x));
            assert forall|i: int| 0 <= i < kept@.len() implies exists|j: int| 0 <= j < k + 1 && #[trigger] kept@[i] == v@[j] by {
                if i == kept@.len() - 1 && y != x {
                    assert(kept@[i] == v@[k as int]);
                } else {
                    let j = choose|j: int| 0 <= j < k && kept@[i] == v@[j];
                }
            }
        }
        k = k + 1;
    }
    proof {
        assert(v@.subrange(0, v@.len() as int) == v@);
    }
    *v = kept;
}

/// The sets held by a list of island entries.
pub open spec fn island_sets(v: Seq<(IdSet, IdSet)>) -> Seq<(Set<u32>, Set<u32>)> {
    v.map_values(|e: (IdSet, IdSet)| (id_set_items(e.0), id_set_items(e.1)))
}

/// `path` walks from partition to neighboring partition and stays inside `s`.
pub open spec fn walk_in(ps: Map<u32, Partition>, s: Set<u32>, path: Seq<u32>) -> bool {
    &&& path.len() > 0
    &&& forall|i: int| 0 <= i < path.len() ==> #[trigger] s.contains(path[i])
    &&& forall|i: int| 0 <= i < path.len() - 1 ==> #[trigger] pnbrs(ps, path[i]).contains(path[i + 1])
}

/// Partitions `a` and `b` are joined by a walk through neighbors inside `s`.
pub open spec fn joined_in(ps: Map<u32, Partition>, s: Set<u32>, a: u32, b: u32) -> bool {
    exists|path: Seq<u32>| #[trigger] walk_in(ps, s, path) && path[0] == a && path[path.len() - 1] == b
}

proof fn lemma_joined_self(ps: Map<u32, Partition>, s: Set<u32>, a: u32)
    requires
        s.contains(a),
    ensures
        joined_in(ps, s, a, a),
{
    let path = seq![a];
    assert(walk_in(ps, s, path));
}

proof fn lemma_joined_grow(ps: Map<u32, Partition>, s: Set<u32>, t: Set<u32>, a: u32, b: u32)
    requires
        joined_in(ps, s, a, b),
        s.subset_of(t),
    ensures
        joined_in(ps, t, a, b),
{
    let path = choose|path: Seq<u32>| #[trigger] walk_in(ps, s, path) && path[0] == a && path[path.len() - 1] == b;
    assert forall|i: int| 0 <= i < path.len() implies #[trigger] t.contains(path[i]) by {
        assert(s.contains(path[i]));
    }
    assert(walk_in(ps, t, path));
}

proof fn lemma_joined_extend(ps: Map<u32, Partition>, s: Set<u32>, a: u32, y: u32, z: u32)
    requires
        joined_in(ps, s, a, y),
        pnbrs(ps, y).contains(z),
        s.contains(z),
    ensures
        joined_in(ps, s, a, z),
{
    let path = choose|path: Seq<u32>| #[trigger] walk_in(ps, s, path) && path[0] == a && path[path.len() - 1] == y;
    let p2 = path.push(z);
    assert forall|i: int| 0 <= i < p2.len() implies #[trigger] s.contains(p2[i]) by {
        if i < path.len() {
            assert(p2[i] == path[i]);
        }
    }
    assert forall|i: int| 0 <= i < p2.len() - 1 implies #[trigger] pnbrs(ps, p2[i]).contains(p2[i + 1]) by {
        if i < path.len() - 1 {
            assert(p2[i] == path[i] && p2[i + 1] == path[i + 1]);
        } else {
            assert(p2[i] == y);
        }
    }
    assert(walk_in(ps, s, p2));
}

proof fn lemma_joined_reverse(ps: Map<u32, Partition>, s: Set<u32>, a: u32, b: u32)
    requires
        joined_in(ps, s, a, b),
        part_links_wf(ps),
        forall|x: u32| #[trigger] s.contains(x) ==> ps.contains_key(x),
    ensures
        joined_in(ps, s, b, a),
{
    let path = choose|path: Seq<u32>| #[trigger] walk_in(ps, s, path) && path[0] == a && path[path.len() - 1] == b;
    let rev = path.reverse();
    let n = path.len();
    assert forall|i: int| 0 <= i < rev.len() implies #[trigger] s.contains(rev[i]) by {
        assert(rev[i] == path[n - 1 - i]);
    }
    assert forall|i: int| 0 <= i < rev.len() - 1 implies #[trigger] pnbrs(ps, rev[i]).contains(rev[i + 1]) by {
        let j = n - 2 - i;
        assert(rev[i] == path[j + 1]);
        assert(rev[i + 1] == path[j]);
        assert(pnbrs(ps, path[j]).contains(path[j + 1]));
        assert(s.contains(path[j]));
    }
    assert(walk_in(ps, s, rev));
    assert(rev[0] == b);
    assert(rev[rev.len() - 1] == a);
}

proof fn lemma_joined_concat(ps: Map<u32, Partition>, s: Set<u32>, a: u32, b: u32, c: u32)
    requires
        joined_in(ps, s, a, b),
        joined_in(ps, s, b, c),
    ensures
        joined_in(ps, s, a, c),
{
    let p1 = choose|path: Seq<u32>| #[trigger] walk_in(ps, s, path) && path[0] == a && path[path.len() - 1] == b;
    let p2 = choose|path: Seq<u32>| #[trigger] walk_in(ps, s, path) && path[0] == b && path[path.len() - 1] == c;
    let q = p1 + p2.drop_first();
    let n = p1.len();
    assert forall|i: int| 0 <= i < q.len() implies #[trigger] s.contains(q[i]) by {
        if i < n {
            assert(q[i] == p1[i]);
        } else {
            assert(q[i] == p2[i - n + 1]);
        }
    }
    assert forall|i: int| 0 <= i < q.len() - 1 implies #[trigger] pnbrs(ps, q[i]).contains(q[i + 1]) by {
        if i < n - 1 {
            assert(q[i] == p1[i] && q[i + 1] == p1[i + 1]);
        } else if i == n - 1 {
            assert(q[i] == b);
            assert(q[i + 1] == p2[1]);
            assert(pnbrs(ps, p2[0]).contains(p2[1]));
        } else {
            assert(q[i] == p2[i - n + 1] && q[i + 1] == p2[i - n + 2]);
        }
    }
    assert(walk_in(ps, s, q));
    if p2.len() == 1 {
        assert(q[q.len() - 1] == p1[n - 1]);
    } else {
        assert(q[q.len() - 1] == p2[p2.len() - 1]);
    }
}

/// `isl` splits the partitions of region `r` into islands: the first sets are disjoint,
/// cover the region, and hold every neighbor with the region's flags of each of their
/// partitions; any two partitions of one island are joined by a walk through neighbors
/// inside it; the second sets hold only regions with other flags.
pub open spec fn islands_ok(ps: Map<u32, Partition>, rs: Map<u32, Region>, r: u32, isl: Seq<(Set<u32>, Set<u32>)>) -> bool {
    &&& forall|k: int, a: u32, b: u32|
        0 <= k < isl.len() && #[trigger] isl[k].0.contains(a) && #[trigger] isl[k].0.contains(b) ==> joined_in(ps, isl[k].0, a, b)
    &&& forall|k: int, p: u32| 0 <= k < isl.len() && #[trigger] isl[k].0.contains(p) ==> rparts(rs, r).contains(p)
    &&& forall|p: u32| #[trigger] rparts(rs, r).contains(p) ==> exists|k: int| 0 <= k < isl.len() && #[trigger] isl[k].0.contains(p)
    &&& forall|k: int, l: int, p: u32|
        0 <= k < isl.len() && 0 <= l < isl.len() && k != l && #[trigger] isl[k].0.contains(p) ==> !#[trigger] isl[l].0.contains(p)
    &&& forall|k: int, p: u32, n: u32|
        0 <= k < isl.len() && #[trigger] isl[k].0.contains(p) && #[trigger] pnbrs(ps, p).contains(n) && ps[n].flags == rs[r].flags
            ==> isl[k].0.contains(n)
    &&& forall|k: int, x: u32| 0 <= k < isl.len() && #[trigger] isl[k].1.contains(x) ==> rs.contains_key(x) && rs[x].flags != rs[r].flags
}

/// Pushes every id of `items` onto `stack`, in order.
fn push_all(stack: &mut Vec<u32>, items: &Vec<u32>)
    ensures
        final(stack)@ == old(stack)@ + items@,
{
    let mut k: usize = 0;
    while k < items.len()
        invariant
            0 <= k <= items.len(),
            stack@ == old(stack)@ + items@.subrange(0, k as int),
        decreases items.len() - k,
    {
        stack.push(items[k]);
        proof {
            assert(items@.subrange(0, k as int + 1) == items@.subrange(0, k as int).push(items@[k as int]));
        }
        k = k + 1;
    }
    proof {
        assert(items@.subrange(0, items@.len() as int) == items@);
    }
}

impl NavigationGraph {
    /// Splits the partitions of region `region_id` into islands by flooding from each
    /// partition not reached yet through neighbors with the region's flags. Each island
    /// comes with the regions of the neighbors with other flags that its flood met first.
    #[verifier::spinoff_prover]
    fn region_islands(&self, region_id: u32) -> (r: Vec<(IdSet, IdSet)>)
        requires
            self.wf(),
            self.regs().contains_key(region_id),
        ensures
            islands_ok(self.parts(), self.regs(), region_id, island_sets(r@)),
            r@.len() <= rparts(self.regs(), region_id).len(),
    {
        let ghost ps = self.parts();
        let ghost rs = self.regs();
        let ghost pdom = ps.dom();
        proof {
            reveal(partitions_wf);
            reveal(regions_wf);
        }
        let region = self.regions.get(region_id).unwrap();
        let region_flags = region.flags;
        let ghost f = region_flags;
        let ghost sr = rparts(rs, region_id);
        let mut open_list = region.partition_ids.to_vec();
        let mut closed_list: Vec<u32> = Vec::new();
        let mut islands: Vec<(IdSet, IdSet)> = Vec::new();
        let ghost mut prev: Set<u32> = Set::empty();
        let ghost mut seeds: Seq<u32> = Seq::empty();
        let ghost start_len = open_list@.len();
        proof {
            assert(open_list@.to_set() =~= sr.difference(prev));
            open_list@.unique_seq_to_set();
        }
        while open_list.len() > 0
            invariant
                ps == self.parts(),
                rs == self.regs(),
                pdom == ps.dom(),
                pdom.finite(),
                partitions_wf(ps, rs),
                rs.contains_key(region_id),
                f == rs[region_id].flags,
                f == region_flags,
                sr == rparts(rs, region_id),
                closed_list@.no_duplicates(),
                forall|x: u32| #[trigger] closed_list@.to_set().contains(x) ==> pdom.contains(x),
                forall|x: u32| #[trigger] prev.contains(x) <==> closed_list@.to_set().contains(x) && ps[x].flags == f,
                forall|x: u32| #[trigger] prev.contains(x) ==> sr.contains(x),
                forall|x: u32, n: u32| prev.contains(x) && #[trigger] pnbrs(ps, x).contains(n) ==> closed_list@.to_set().contains(n),
                open_list@.no_duplicates(),
                open_list@.to_set() == sr.difference(prev),
                islands@.len() + open_list@.len() <= start_len,
                start_len == sr.len(),
                forall|k: int, p: u32| 0 <= k < islands@.len() && #[trigger] island_sets(islands@)[k].0.contains(p) ==> prev.contains(p),
                forall|p: u32| #[trigger] prev.contains(p) ==> exists|k: int| 0 <= k < islands@.len() && #[trigger] island_sets(islands@)[k].0.contains(p),
                forall|k: int, l: int, p: u32|
                    0 <= k < islands@.len() && 0 <= l < islands@.len() && k != l && #[trigger] island_sets(islands@)[k].0.contains(p)
                        ==> !#[trigger] island_sets(islands@)[l].0.contains(p),
                forall|k: int, p: u32, n: u32|
                    0 <= k < islands@.len() && #[trigger] island_sets(islands@)[k].0.contains(p) && #[trigger] pnbrs(ps, p).contains(n)
                        && ps[n].flags == f ==> island_sets(islands@)[k].0.contains(n),
                forall|k: int, x: u32| 0 <= k < islands@.len() && #[trigger] island_sets(islands@)[k].1.contains(x) ==> rs.contains_key(x)
                    && rs[x].flags != f,
                seeds.len() == islands@.len(),
                forall|k: int| 0 <= k < islands@.len() ==> island_sets(islands@)[k].0.contains(#[trigger] seeds[k]),
                forall|k: int, x: u32|
                    0 <= k < islands@.len() && #[trigger] island_sets(islands@)[k].0.contains(x) ==> joined_in(ps, island_sets(islands@)[k].0, seeds[k], x),
            decreases open_list.len(),
        {
            let ghost open_before = open_list@;
            let seed = open_list.pop().unwrap();
            proof {
                reveal(partitions_wf);
                assert(open_before == open_list@.push(seed));
                assert(open_before[open_before.len() - 1] == seed);
                assert(open_before.to_set().contains(seed));
                assert(open_list@.to_set() =~= sr.difference(prev).remove(seed)) by {
                    assert forall|x: u32| open_list@.to_set().contains(x) implies sr.difference(prev).remove(seed).contains(x) by {
                        let i = choose|i: int| 0 <= i < open_list@.len() && open_list@[i] == x;
                        assert(open_before[i] == x);
                        assert(open_before.to_set().contains(x));
                        assert(i != open_before.len() - 1);
                    }
                    assert forall|x: u32| sr.difference(prev).remove(seed).contains(x) implies open_list@.to_set().contains(x) by {
                        assert(open_before.to_set().contains(x));
                        let i = choose|i: int| 0 <= i < open_before.len() && open_before[i] == x;
                        assert(i != open_before.len() - 1);
                        assert(open_list@[i] == x);
                    }
                }
                assert(ps[seed].flags == f) by {
                    assert(rparts(rs, region_id).contains(seed));
                }
            }
            let ghost open_len = open_list@.len();
            let mut island = IdSet::new();
            let mut neighbors = IdSet::new();
            let mut stack: Vec<u32> = Vec::new();
            stack.push(seed);
            proof {
                assert(stack@[0] == seed);
                assert(pdom.contains(seed)) by {
                    assert(rparts(rs, region_id).contains(seed));
                }
                assert(open_list@.to_set() =~= sr.difference(prev).difference(id_set_items(island)).remove(seed));
            }
            while stack.len() > 0
                invariant
                    ps == self.parts(),
                    rs == self.regs(),
                    pdom == ps.dom(),
                    pdom.finite(),
                    partitions_wf(ps, rs),
                    rs.contains_key(region_id),
                    f == rs[region_id].flags,
                    f == region_flags,
                    sr == rparts(rs, region_id),
                    sr.contains(seed),
                    !prev.contains(seed),
                    open_list@.len() <= open_len,
                    ps[seed].flags == f,
                    id_set_items(island).contains(seed) || stack@.contains(seed),
                    closed_list@.no_duplicates(),
                    forall|x: u32| #[trigger] closed_list@.to_set().contains(x) ==> pdom.contains(x),
                    forall|x: u32| prev.contains(x) || id_set_items(island).contains(x) <==> #[trigger] closed_list@.to_set().contains(x) && ps[x].flags == f,
                    forall|x: u32| #[trigger] prev.contains(x) ==> !id_set_items(island).contains(x),
                    forall|x: u32| #[trigger] prev.contains(x) ==> sr.contains(x),
                    forall|x: u32| #[trigger] id_set_items(island).contains(x) ==> sr.contains(x),
                    forall|x: u32, n: u32| prev.contains(x) && #[trigger] pnbrs(ps, x).contains(n) ==> closed_list@.to_set().contains(n),
                    forall|x: u32, n: u32| id_set_items(island).contains(x) && #[trigger] pnbrs(ps, x).contains(n) ==> closed_list@.to_set().contains(n)
                        || stack@.contains(n),
                    forall|i: int| 0 <= i < stack@.len() ==> pdom.contains(#[trigger] stack@[i]) && (sr.contains(stack@[i]) || exists|y: u32|
                        id_set_items(island).contains(y) && #[trigger] pnbrs(ps, y).contains(stack@[i])),
                    open_list@.no_duplicates(),
                    open_list@.to_set() == sr.difference(prev).difference(id_set_items(island)).remove(seed),
                    forall|x: u32| #[trigger] id_set_items(neighbors).contains(x) ==> rs.contains_key(x) && rs[x].flags != f,
                    forall|k: int, p: u32| 0 <= k < islands@.len() && #[trigger] island_sets(islands@)[k].0.contains(p) ==> prev.contains(p),
                    forall|p: u32| #[trigger] prev.contains(p) ==> exists|k: int| 0 <= k < islands@.len() && #[trigger] island_sets(islands@)[k].0.contains(p),
                    forall|k: int, l: int, p: u32|
                        0 <= k < islands@.len() && 0 <= l < islands@.len() && k != l && #[trigger] island_sets(islands@)[k].0.contains(p)
                            ==> !#[trigger] island_sets(islands@)[l].0.contains(p),
                    forall|k: int, p: u32, n: u32|
                        0 <= k < islands@.len() && #[trigger] island_sets(islands@)[k].0.contains(p) && #[trigger] pnbrs(ps, p).contains(n)
                            && ps[n].flags == f ==> island_sets(islands@)[k].0.contains(n),
                    forall|k: int, x: u32| 0 <= k < islands@.len() && #[trigger] island_sets(islands@)[k].1.contains(x) ==> rs.contains_key(x)
                        && rs[x].flags != f,
                    seeds.len() == islands@.len(),
                    forall|k: int| 0 <= k < islands@.len() ==> island_sets(islands@)[k].0.contains(#[trigger] seeds[k]),
                    forall|k: int, x: u32|
                        0 <= k < islands@.len() && #[trigger] island_sets(islands@)[k].0.contains(x) ==> joined_in(ps, island_sets(islands@)[k].0, seeds[k], x),
                    forall|x: u32| #[trigger] id_set_items(island).contains(x) ==> joined_in(ps, id_set_items(island), seed, x),
                    forall|i: int|
                        #![trigger stack@[i]]
                        0 <= i < stack@.len() ==> stack@[i] == seed || exists|y: u32| id_set_items(island).contains(y) && #[trigger] pnbrs(ps, y).contains(stack@[i]),
                decreases pdom.len() - closed_list@.len(), stack.len(),
            {
                let ghost stack_before = stack@;
                let ghost closed_before = closed_list@;
                let ghost island_before = id_set_items(island);
                let id = stack.pop().unwrap();
                proof {
                    reveal(partitions_wf);
                    assert(stack_before == stack@.push(id));
                    assert(stack_before[stack_before.len() - 1] == id);
                    assert(pdom.contains(id));
                    closed_list@.unique_seq_to_set();
                    vstd::set_lib::lemma_len_subset(closed_list@.to_set(), pdom);
                    assert forall|n: u32| stack_before.contains(n) && n != id implies stack@.contains(n) by {
                        let i = choose|i: int| 0 <= i < stack_before.len() && stack_before[i] == n;
                        assert(stack@[i] == n);
                    }
                }
                if contains_id(&closed_list, id) {
                    proof {
                        assert(closed_list@.to_set().contains(id));
                        assert forall|x: u32, n: u32| id_set_items(island).contains(x) && #[trigger] pnbrs(ps, x).contains(n) implies closed_list@.to_set().contains(n)
                            || stack@.contains(n) by {
                            if !closed_list@.to_set().contains(n) {
                                assert(stack_before.contains(n));
                            }
                        }
                        assert forall|i: int| 0 <= i < stack@.len() implies pdom.contains(#[trigger] stack@[i]) && (sr.contains(stack@[i]) || exists|y: u32|
                            id_set_items(island).contains(y) && #[trigger] pnbrs(ps, y).contains(stack@[i])) by {
                            assert(stack_before[i] == stack@[i]);
                        }
                        assert forall|i: int| #![trigger stack@[i]] 0 <= i < stack@.len() implies stack@[i] == seed || exists|y: u32|
                            id_set_items(island).contains(y) && #[trigger] pnbrs(ps, y).contains(stack@[i]) by {
                            assert(stack_before[i] == stack@[i]);
                        }
                    }
                    continue;
                }
                let np = self.partitions.get(id).unwrap();
                closed_list.push(id);
                proof {
                    closed_before.lemma_push_to_set_commute(id);
                    assert(closed_list@.to_set() == closed_before.to_set().insert(id));
                    closed_list@.unique_seq_to_set();
                    closed_before.unique_seq_to_set();
                    vstd::set_lib::lemma_len_subset(closed_list@.to_set(), pdom);
                }
                if np.flags != region_flags {
                    neighbors.insert(np.region_id);
                    proof {
                        assert(id != seed);
                        assert(rs.contains_key(ps[id].region_id));
                        assert(rs[ps[id].region_id].flags == ps[id].flags);
                        assert forall|x: u32, n: u32| id_set_items(island).contains(x) && #[trigger] pnbrs(ps, x).contains(n) implies closed_list@.to_set().contains(n)
                            || stack@.contains(n) by {
                            if !closed_list@.to_set().contains(n) {
                                assert(stack_before.contains(n));
                            }
                        }
                        assert forall|i: int| 0 <= i < stack@.len() implies pdom.contains(#[trigger] stack@[i]) && (sr.contains(stack@[i]) || exists|y: u32|
                            id_set_items(island).contains(y) && #[trigger] pnbrs(ps, y).contains(stack@[i])) by {
                            assert(stack_before[i] == stack@[i]);
                        }
                        assert forall|i: int| #![trigger stack@[i]] 0 <= i < stack@.len() implies stack@[i] == seed || exists|y: u32|
                            id_set_items(island).contains(y) && #[trigger] pnbrs(ps, y).contains(stack@[i]) by {
                            assert(stack_before[i] == stack@[i]);
                        }
                    }
                    continue;
                }
                proof {
                    if !sr.contains(id) {
                        let y = choose|y: u32| id_set_items(island).contains(y) && #[trigger] pnbrs(ps, y).contains(id);
                        assert(sr.contains(y));
                        assert(rparts(rs, region_id).contains(y));
                        assert(ps[y].region_id == region_id);
                        assert(ps[y].flags == rs[ps[y].region_id].flags);
                        assert(ps[id].region_id == ps[y].region_id);
                        assert(rparts(rs, ps[id].region_id).contains(id));
                    }
                    assert(!prev.contains(id));
                }
                remove_id(&mut open_list, id);
                island.insert(id);
                let nbrs = np.neighbor_ids.to_vec();
                let ghost stack_mid = stack@;
                push_all(&mut stack, &nbrs);
                proof {
                    assert(open_list@.to_set() =~= sr.difference(prev).difference(id_set_items(island)).remove(seed));
                    assert forall|n: u32| stack_mid.contains(n) implies stack@.contains(n) by {
                        let i = choose|i: int| 0 <= i < stack_mid.len() && stack_mid[i] == n;
                        assert(stack@[i] == n);
                    }
                    assert forall|n: u32| #[trigger] pnbrs(ps, id).contains(n) implies stack@.contains(n) by {
                        assert(nbrs@.to_set().contains(n));
                        let i = choose|i: int| 0 <= i < nbrs@.len() && nbrs@[i] == n;
                        assert(stack@[stack_mid.len() + i] == n);
                    }
                    assert forall|x: u32, n: u32| id_set_items(island).contains(x) && #[trigger] pnbrs(ps, x).contains(n) implies closed_list@.to_set().contains(n)
                        || stack@.contains(n) by {
                        if x != id && !closed_list@.to_set().contains(n) {
                            assert(stack_before.contains(n));
                            if n != id {
                                assert(stack_mid.contains(n));
                            }
                        }
                    }
                    assert forall|i: int| 0 <= i < stack@.len() implies pdom.contains(#[trigger] stack@[i]) && (sr.contains(stack@[i]) || exists|y: u32|
                        id_set_items(island).contains(y) && #[trigger] pnbrs(ps, y).contains(stack@[i])) by {
                        if i < stack_mid.len() {
                            assert(stack_before[i] == stack@[i]);
                            if !sr.contains(stack@[i]) {
                                let y = choose|y: u32| island_before.contains(y) && #[trigger] pnbrs(ps, y).contains(stack_before[i]);
                                assert(id_set_items(island).contains(y));
                            }
                        } else {
                            let j = i - stack_mid.len();
                            assert(stack@[i] == nbrs@[j]);
                            assert(nbrs@.to_set().contains(nbrs@[j]));
                            assert(pnbrs(ps, id).contains(stack@[i]));
                        }
                    }
                    if id != seed && !island_before.contains(seed) {
                        assert(stack_before.contains(seed));
                        assert(stack_mid.contains(seed));
                    }
                    let isl_now = id_set_items(island);
                    assert(island_before.subset_of(isl_now));
                    assert forall|x: u32| #[trigger] isl_now.contains(x) implies joined_in(ps, isl_now, seed, x) by {
                        if x == id {
                            if id == seed {
                                lemma_joined_self(ps, isl_now, seed);
                            } else {
                                assert(stack_before[stack_before.len() - 1] == id);
                                let y = choose|y: u32| island_before.contains(y) && #[trigger] pnbrs(ps, y).contains(stack_before[stack_before.len() - 1]);
                                lemma_joined_grow(ps, island_before, isl_now, seed, y);
                                lemma_joined_extend(ps, isl_now, seed, y, id);
                            }
                        } else {
                            lemma_joined_grow(ps, island_before, isl_now, seed, x);
                        }
                    }
                    assert forall|i: int| #![trigger stack@[i]] 0 <= i < stack@.len() implies stack@[i] == seed || exists|y: u32|
                        isl_now.contains(y) && #[trigger] pnbrs(ps, y).contains(stack@[i]) by {
                        if i < stack_mid.len() {
                            assert(stack_before[i] == stack@[i]);
                            if stack@[i] != seed {
                                let y = choose|y: u32| island_before.contains(y) && #[trigger] pnbrs(ps, y).contains(stack_before[i]);
                                assert(isl_now.contains(y));
                            }
                        } else {
                            let j = i - stack_mid.len();
                            assert(stack@[i] == nbrs@[j]);
                            assert(nbrs@.to_set().contains(nbrs@[j]));
                            assert(pnbrs(ps, id).contains(stack@[i]));
                            assert(isl_now.contains(id));
                        }
                    }
                }
            }
            let ghost isl_items = id_set_items(island);
            let ghost old_islands = island_sets(islands@);
            islands.push((island, neighbors));
            proof {
                reveal(partitions_wf);
                assert(island_sets(islands@) =~= old_islands.push((isl_items, id_set_items(islands@[islands@.len() - 1].1))));
                let new_prev = prev + isl_items;
                assert forall|x: u32, n: u32| isl_items.contains(x) && #[trigger] pnbrs(ps, x).contains(n) && ps[n].flags == f implies isl_items.contains(n) by {
                    assert(closed_list@.to_set().contains(n));
                    if prev.contains(n) {
                        let k = choose|k: int| 0 <= k < old_islands.len() && #[trigger] old_islands[k].0.contains(n);
                        assert(ps.contains_key(x));
                        assert(pnbrs(ps, n).contains(x));
                        assert(old_islands[k].0.contains(x));
                        assert(prev.contains(x));
                    }
                }
                assert forall|p: u32| #[trigger] new_prev.contains(p) implies exists|k: int| 0 <= k < islands@.len()
                    && #[trigger] island_sets(islands@)[k].0.contains(p) by {
                    if prev.contains(p) {
                        let k = choose|k: int| 0 <= k < old_islands.len() && #[trigger] old_islands[k].0.contains(p);
                        assert(island_sets(islands@)[k] == old_islands[k]);
                    } else {
                        assert(island_sets(islands@)[old_islands.len() as int].0 == isl_items);
                    }
                }
                prev = new_prev;
                assert(open_list@.to_set() =~= sr.difference(prev));
                let isl2 = island_sets(islands@);
                let seeds2 = seeds.push(seed);
                assert(isl2[old_islands.len() as int].0 == isl_items);
                assert(isl_items.contains(seed));
                assert forall|k: int| 0 <= k < islands@.len() implies isl2[k].0.contains(#[trigger] seeds2[k]) by {
                    if k < old_islands.len() {
                        assert(isl2[k] == old_islands[k]);
                    }
                }
                assert forall|k: int, x: u32| 0 <= k < islands@.len() && #[trigger] isl2[k].0.contains(x) implies joined_in(
                    ps,
                    isl2[k].0,
                    seeds2[k],
                    x,
                ) by {
                    if k < old_islands.len() {
                        assert(isl2[k] == old_islands[k]);
                    }
                }
                seeds = seeds2;
            }
        }
        proof {
            assert forall|p: u32| #[trigger] rparts(rs, region_id).contains(p) implies exists|k: int| 0 <= k < island_sets(islands@).len()
                && #[trigger] island_sets(islands@)[k].0.contains(p) by {
                if !prev.contains(p) {
                    assert(sr.difference(prev).contains(p));
                    assert(open_list@.to_set().contains(p));
                }
            }
            reveal(partitions_wf);
            let isl = island_sets(islands@);
            assert forall|k: int, a: u32, b: u32|
                0 <= k < isl.len() && #[trigger] isl[k].0.contains(a) && #[trigger] isl[k].0.contains(b) implies joined_in(ps, isl[k].0, a, b) by {
                assert forall|x: u32| #[trigger] isl[k].0.contains(x) implies ps.contains_key(x) by {
                    assert(prev.contains(x));
                    assert(sr.contains(x));
                }
                lemma_joined_reverse(ps, isl[k].0, seeds[k], a);
                lemma_joined_concat(ps, isl[k].0, a, seeds[k], b);
            }
        }
        islands
    }
}

impl NavigationGraph {
    /// Puts every partition of `ids` in region `region_id`.
    fn move_partitions(&mut self, ids: &Vec<u32>, region_id: u32)
        requires
            forall|i: int| 0 <= i < ids.len() ==> old(self).parts().contains_key(#[trigger] ids@[i]),
        ensures
            final(self).parts().dom() == old(self).parts().dom(),
            forall|p: u32| #[trigger] final(self).parts().contains_key(p) ==> final(self).parts()[p] == (if ids@.contains(p) {
                moved_to(old(self).parts()[p], region_id)
            } else {
                old(self).parts()[p]
            }),
            final(self).regs() == old(self).regs(),
            final(self).grps() == old(self).grps(),
            final(self).group_type_bits() == old(self).group_type_bits(),
            final(self).last_partition_id() == old(self).last_partition_id(),
            final(self).last_region_id() == old(self).last_region_id(),
            final(self).last_group_id() == old(self).last_group_id(),
    {
        let ghost ps0 = self.parts();
        let mut i: usize = 0;
        while i < ids.len()
            invariant
                0 <= i <= ids.len(),
                forall|j: int| 0 <= j < ids.len() ==> ps0.contains_key(#[trigger] ids@[j]),
                self.parts().dom() == ps0.dom(),
                forall|p: u32| #[trigger] self.parts().contains_key(p) ==> self.parts()[p] == (if ids@.subrange(0, i as int).contains(p) {
                    moved_to(ps0[p], region_id)
                } else {
                    ps0[p]
                }),
                ps0 == old(self).parts(),
                self.regs() == old(self).regs(),
                self.grps() == old(self).grps(),
                self.group_type_bits() == old(self).group_type_bits(),
                self.cur_partition_id == old(self).cur_partition_id,
                self.cur_region_id == old(self).cur_region_id,
                self.cur_group_id == old(self).cur_group_id,
            decreases ids.len() - i,
        {
            let id = ids[i];
            let ghost ps_pre = self.parts();
            let ghost sub0 = ids@.subrange(0, i as int);
            let ghost sub1 = ids@.subrange(0, i as int + 1);
            proof {
                assert(sub1 == sub0.push(id));
                assert(ps0.contains_key(ids@[i as int]));
                assert(self.parts().contains_key(id));
            }
            let mut partition = self.partitions.remove(id).unwrap();
            partition.region_id = region_id;
            self.partitions.insert(id, partition);
            proof {
                assert(self.parts().dom() =~= ps0.dom());
                assert forall|p: u32| #[trigger] self.parts().contains_key(p) implies self.parts()[p] == (if sub1.contains(p) {
                    moved_to(ps0[p], region_id)
                } else {
                    ps0[p]
                }) by {
                    assert(ps_pre.contains_key(p));
                    if p == id {
                        assert(sub1[i as int] == id);
                        assert(sub1.contains(p));
                        if sub0.contains(p) {
                            assert(ps_pre[p] == moved_to(ps0[p], region_id));
                        } else {
                            assert(ps_pre[p] == ps0[p]);
                        }
                    } else {
                        assert(sub1.contains(p) == sub0.contains(p)) by {
                            if sub1.contains(p) {
                                let k = choose|k: int| 0 <= k < sub1.len() && sub1[k] == p;
                                assert(sub0[k] == p);
                            }
                        }
                    }
                }
            }
            i = i + 1;
        }
        proof {
            assert(ids@.subrange(0, ids@.len() as int) == ids@);
        }
    }

    /// Makes `parts` the partitions of region `region_id`.
    fn set_region_partitions(&mut self, region_id: u32, parts: IdSet)
        requires
            old(self).regs().contains_key(region_id),
        ensures
            final(self).regs().dom() == old(self).regs().dom(),
            forall|q: u32| #[trigger] final(self).regs().contains_key(q) && q != region_id ==> final(self).regs()[q] == old(self).regs()[q],
            final(self).regs()[region_id].id == old(self).regs()[region_id].id,
            final(self).regs()[region_id].flags == old(self).regs()[region_id].flags,
            rnbrs(final(self).regs(), region_id) == rnbrs(old(self).regs(), region_id),
            rgroups(final(self).regs(), region_id) == rgroups(old(self).regs(), region_id),
            rparts(final(self).regs(), region_id) == id_set_items(parts),
            final(self).parts() == old(self).parts(),
            final(self).grps() == old(self).grps(),
            final(self).group_type_bits() == old(self).group_type_bits(),
            final(self).last_partition_id() == old(self).last_partition_id(),
            final(self).last_region_id() == old(self).last_region_id(),
            final(self).last_group_id() == old(self).last_group_id(),
    {
        let mut region = self.regions.remove(region_id).unwrap();
        region.partition_ids = parts;
        self.regions.insert(region_id, region);
        proof {
            assert(self.regs().dom() =~= old(self).regs().dom());
        }
    }

    /// Makes region `region_id` a neighbor of each region of `ids`.
    fn link_region_to_all(&mut self, region_id: &u32, ids: &Vec<u32>)
        requires
            old(self).links_wf(),
            old(self).regs().contains_key(*region_id),
            forall|i: int| 0 <= i < ids.len() ==> old(self).regs().contains_key(#[trigger] ids@[i]) && ids@[i] != *region_id,
        ensures
            final(self).links_wf(),
            same_region_parts(old(self).regs(), final(self).regs()),
            rnbrs(final(self).regs(), *region_id) == rnbrs(old(self).regs(), *region_id) + ids@.to_set(),
            forall|q: u32| #[trigger] final(self).regs().contains_key(q) && q != *region_id ==> rnbrs(final(self).regs(), q)
                == (if ids@.contains(q) {
                rnbrs(old(self).regs(), q).insert(*region_id)
            } else {
                rnbrs(old(self).regs(), q)
            }),
            final(self).parts() == old(self).parts(),
            final(self).last_partition_id() == old(self).last_partition_id(),
            final(self).last_region_id() == old(self).last_region_id(),
            final(self).last_group_id() == old(self).last_group_id(),
    {
        let ghost rs0 = self.regs();
        let mut i: usize = 0;
        while i < ids.len()
            invariant
                0 <= i <= ids.len(),
                self.links_wf(),
                rs0 == old(self).regs(),
                rs0.contains_key(*region_id),
                forall|j: int| 0 <= j < ids.len() ==> rs0.contains_key(#[trigger] ids@[j]) && ids@[j] != *region_id,
                same_region_parts(rs0, self.regs()),
                rnbrs(self.regs(), *region_id) == rnbrs(rs0, *region_id) + ids@.subrange(0, i as int).to_set(),
                forall|q: u32| #[trigger] self.regs().contains_key(q) && q != *region_id ==> rnbrs(self.regs(), q)
                    == (if ids@.subrange(0, i as int).contains(q) {
                    rnbrs(rs0, q).insert(*region_id)
                } else {
                    rnbrs(rs0, q)
                }),
                self.parts() == old(self).parts(),
                self.cur_partition_id == old(self).cur_partition_id,
                self.cur_region_id == old(self).cur_region_id,
                self.cur_group_id == old(self).cur_group_id,
            decreases ids.len() - i,
        {
            let id = ids[i];
            proof {
                assert(rs0.contains_key(ids@[i as int]));
                assert(self.regs().contains_key(id));
            }
            let ghost rs_a = self.regs();
            self.set_region_neighbors(region_id, &id);
            proof {
                let pre = ids@.subrange(0, i as int);
                let post = ids@.subrange(0, i as int + 1);
                assert(post =~= pre.push(id));
                assert(post.to_set() =~= pre.to_set().insert(id)) by {
                    assert forall|x: u32| post.to_set().contains(x) <==> pre.to_set().insert(id).contains(x) by {
                        assert(post.contains(x) <==> pre.contains(x) || x == id) by {
                            vstd::seq_lib::lemma_seq_contains_after_push(pre, id, x);
                        }
                    }
                }
                assert(rnbrs(self.regs(), *region_id) =~= rnbrs(rs0, *region_id) + post.to_set());
                assert forall|q: u32| #[trigger] self.regs().contains_key(q) && q != *region_id implies rnbrs(self.regs(), q)
                    == (if post.contains(q) {
                    rnbrs(rs0, q).insert(*region_id)
                } else {
                    rnbrs(rs0, q)
                }) by {
                    vstd::seq_lib::lemma_seq_contains_after_push(pre, id, q);
                    assert(rs_a.contains_key(q));
                    if q == id {
                        assert(rnbrs(self.regs(), q) =~= rnbrs(rs0, q).insert(*region_id));
                    }
                }
            }
            i = i + 1;
        }
        proof {
            assert(ids@.subrange(0, ids@.len() as int) =~= ids@);
        }
    }

    /// Clears the neighbors of region `region_id` and takes it out of theirs.
    #[verifier::spinoff_prover]
    fn clear_region_neighbors(&mut self, region_id: u32)
        requires
            old(self).links_wf(),
            old(self).regs().contains_key(region_id),
        ensures
            final(self).links_wf(),
            old(self).wf() ==> final(self).wf(),
            same_region_parts(old(self).regs(), final(self).regs()),
            rnbrs(final(self).regs(), region_id) == Set::<u32>::empty(),
            forall|q: u32| #[trigger] final(self).regs().contains_key(q) && q != region_id ==> rnbrs(final(self).regs(), q)
                == rnbrs(old(self).regs(), q).remove(region_id),
            final(self).parts() == old(self).parts(),
            final(self).grps() == old(self).grps(),
            final(self).last_partition_id() == old(self).last_partition_id(),
            final(self).last_region_id() == old(self).last_region_id(),
            final(self).last_group_id() == old(self).last_group_id(),
    {
        let ghost rs0 = self.regs();
        let ghost rid = region_id;
        proof {
            reveal(regions_wf);
        }
        let mut region = self.regions.remove(region_id).unwrap();
        let current_neighbors = region.neighbor_ids.clone_set();
        region.neighbor_ids.clear();
        self.regions.insert(region_id, region);
        let neighbor_ids = current_neighbors.to_vec();
        proof {
            assert forall|m: int| 0 <= m < neighbor_ids.len() implies #[trigger] rs0.contains_key(neighbor_ids@[m])
                && neighbor_ids@[m] != rid by {
                assert(neighbor_ids@.to_set().contains(neighbor_ids@[m]));
                assert(rnbrs(rs0, rid).contains(neighbor_ids@[m]));
            }
            assert(self.regs().dom() =~= rs0.dom());
        }
        let mut i: usize = 0;
        while i < neighbor_ids.len()
            invariant
                0 <= i <= neighbor_ids.len(),
                rid == region_id,
                neighbor_ids@.no_duplicates(),
                neighbor_ids@.to_set() == rnbrs(rs0, rid),
                forall|m: int| 0 <= m < neighbor_ids.len() ==> #[trigger] rs0.contains_key(neighbor_ids@[m])
                    && neighbor_ids@[m] != rid,
                self.regs().dom() == rs0.dom(),
                forall|q: u32| #[trigger] self.regs().contains_key(q) ==> {
                    &&& self.regs()[q].id == rs0[q].id
                    &&& self.regs()[q].flags == rs0[q].flags
                    &&& rparts(self.regs(), q) == rparts(rs0, q)
                    &&& rgroups(self.regs(), q) == rgroups(rs0, q)
                    &&& rnbrs(self.regs(), q) == (if q == rid {
                        Set::<u32>::empty()
                    } else if neighbor_ids@.subrange(0, i as int).contains(q) {
                        rnbrs(rs0, q).remove(rid)
                    } else {
                        rnbrs(rs0, q)
                    })
                },
                self.grps() == old(self).grps(),
                self.parts() == old(self).parts(),
                self.group_type_bits() == old(self).group_type_bits(),
                self.cur_partition_id == old(self).cur_partition_id,
                self.cur_region_id == old(self).cur_region_id,
                self.cur_group_id == old(self).cur_group_id,
                rs0 == old(self).regs(),
            decreases neighbor_ids.len() - i,
        {
            let neighbor_id = neighbor_ids[i];
            let ghost rs_pre = self.regs();
            proof {
                assert(rs0.contains_key(neighbor_ids@[i as int]));
                assert(self.regs().contains_key(neighbor_id));
            }
            let mut neighbor = self.regions.remove(neighbor_id).unwrap();
            neighbor.neighbor_ids.remove(region_id);
            self.regions.insert(neighbor_id, neighbor);
            proof {
                let sub0 = neighbor_ids@.subrange(0, i as int);
                let sub1 = neighbor_ids@.subrange(0, i as int + 1);
                assert(sub1 == sub0.push(neighbor_id));
                assert(self.regs().dom() =~= rs0.dom());
                assert forall|q: u32| #[trigger] self.regs().contains_key(q) implies {
                    &&& self.regs()[q].id == rs0[q].id
                    &&& self.regs()[q].flags == rs0[q].flags
                    &&& rparts(self.regs(), q) == rparts(rs0, q)
                    &&& rgroups(self.regs(), q) == rgroups(rs0, q)
                    &&& rnbrs(self.regs(), q) == (if q == rid {
                        Set::<u32>::empty()
                    } else if sub1.contains(q) {
                        rnbrs(rs0, q).remove(rid)
                    } else {
                        rnbrs(rs0, q)
                    })
                } by {
                    assert(rs_pre.contains_key(q));
                    if q == neighbor_id {
                        assert(sub1[i as int] == q);
                        if sub0.contains(q) {
                            let k = choose|k: int| 0 <= k < sub0.len() && sub0[k] == q;
                            assert(neighbor_ids@[k] == neighbor_ids@[i as int]);
                        }
                    } else {
                        assert(self.regs()[q] == rs_pre[q]);
                        assert(sub1.contains(q) == sub0.contains(q)) by {
                            if sub1.contains(q) {
                                let k = choose|k: int| 0 <= k < sub1.len() && sub1[k] == q;
                                assert(sub0[k] == q);
                            }
                        }
                    }
                }
            }
            i = i + 1;
        }
        proof {
            let rs1 = self.regs();
            let gs = self.grps();
            assert(neighbor_ids@.subrange(0, neighbor_ids@.len() as int) == neighbor_ids@);
            assert forall|q: u32| #[trigger] rs1.contains_key(q) && q != rid implies rnbrs(rs1, q) == rnbrs(rs0, q).remove(rid) by {
                if !neighbor_ids@.contains(q) {
                    if rnbrs(rs0, q).contains(rid) {
                        assert(rnbrs(rs0, rid).contains(q));
                        assert(neighbor_ids@.to_set().contains(q));
                    }
                    assert(rnbrs(rs0, q) =~= rnbrs(rs0, q).remove(rid));
                }
            }
            assert forall|r: u32, n: u32| rs1.contains_key(r) && #[trigger] rnbrs(rs1, r).contains(n) implies rs1.contains_key(n)
                && n != r && rnbrs(rs1, n).contains(r) by {
                assert(r != rid);
                assert(rnbrs(rs0, r).contains(n));
            }
            assert forall|r: u32, g: u32| rs1.contains_key(r) && #[trigger] rgroups(rs1, r).contains(g) implies gs.contains_key(g)
                && gregions(gs, g).contains(r) by {
                assert(rgroups(rs0, r).contains(g));
            }
            assert forall|g: u32, r: u32| gs.contains_key(g) && #[trigger] gregions(gs, g).contains(r) implies rs1.contains_key(r)
                && rgroups(rs1, r).contains(g) by {
                assert(rgroups(rs0, r).contains(g));
            }
            assert forall|r: u32, g1: u32, g2: u32|
                rs1.contains_key(r) && #[trigger] rgroups(rs1, r).contains(g1) && #[trigger] rgroups(rs1, r).contains(g2)
                    && gs[g1].flags == gs[g2].flags implies g1 == g2 by {
                assert(rgroups(rs0, r).contains(g1));
                assert(rgroups(rs0, r).contains(g2));
            }
            assert forall|r: u32| #[trigger] rs1.contains_key(r) implies rs1[r].id == r by {}
            if old(self).wf() {
                lemma_partitions_wf_frame(self.parts(), rs0, rs1);
            }
        }
    }
}

/// Which partitions regions list plays no part in how regions and groups refer to each
/// other.
proof fn lemma_regions_wf_parts_frame(rs0: Map<u32, Region>, rs1: Map<u32, Region>, gs: Map<u32, NavigationGroup>)
    requires
        regions_wf(rs0, gs),
        rs1.dom() == rs0.dom(),
        forall|q: u32| #[trigger] rs1.contains_key(q) ==> rs1[q].id == rs0[q].id && rnbrs(rs1, q) == rnbrs(rs0, q) && rgroups(rs1, q)
            == rgroups(rs0, q),
    ensures
        regions_wf(rs1, gs),
{
    reveal(regions_wf);
    assert forall|r: u32, n: u32| rs1.contains_key(r) && #[trigger] rnbrs(rs1, r).contains(n) implies rs1.contains_key(n)
        && n != r && rnbrs(rs1, n).contains(r) by {
        assert(rnbrs(rs0, r).contains(n));
    }
    assert forall|r: u32, g: u32| rs1.contains_key(r) && #[trigger] rgroups(rs1, r).contains(g) implies gs.contains_key(g)
        && gregions(gs, g).contains(r) by {
        assert(rgroups(rs0, r).contains(g));
    }
    assert forall|g: u32, r: u32| gs.contains_key(g) && #[trigger] gregions(gs, g).contains(r) implies rs1.contains_key(r)
        && rgroups(rs1, r).contains(g) by {
        assert(rgroups(rs0, r).contains(g));
    }
    assert forall|r: u32, g1: u32, g2: u32|
        rs1.contains_key(r) && #[trigger] rgroups(rs1, r).contains(g1) && #[trigger] rgroups(rs1, r).contains(g2)
            && gs[g1].flags == gs[g2].flags implies g1 == g2 by {
        assert(rgroups(rs0, r).contains(g1));
        assert(rgroups(rs0, r).contains(g2));
    }
}

/// Partway through splitting region `r` (with flags `f`) of `rs0` into the islands `isl`:
/// the first `k` islands have been given their regions `rids` (the first keeps `r`), and
/// the partitions of the others still name `r`, which no longer lists them.
pub open spec fn split_state(
    ps0: Map<u32, Partition>,
    rs0: Map<u32, Region>,
    ps: Map<u32, Partition>,
    rs: Map<u32, Region>,
    r: u32,
    f: NavigationFlags,
    isl: Seq<(Set<u32>, Set<u32>)>,
    rids: Seq<u32>,
    k: int,
) -> bool {
    &&& 0 <= k <= isl.len()
    &&& rids.len() == k
    &&& k > 0 ==> rids[0] == r
    &&& ps.dom() == ps0.dom()
    &&& forall|p: u32| #[trigger] ps.contains_key(p) ==> ps[p] == moved_to(ps0[p], ps[p].region_id)
    &&& forall|p: u32| #[trigger] ps.contains_key(p) && !rparts(rs0, r).contains(p) ==> ps[p].region_id == ps0[p].region_id
    &&& forall|j: int, p: u32|
        0 <= j < isl.len() && #[trigger] isl[j].0.contains(p) ==> ps[p].region_id == (if j < k { rids[j] } else { r })
    &&& forall|j: int| 0 < j < k ==> !rs0.contains_key(#[trigger] rids[j])
    &&& forall|j: int, l: int| 0 <= j < k && 0 <= l < k && j != l ==> #[trigger] rids[j] != #[trigger] rids[l]
    &&& forall|j: int|
        0 <= j < k ==> rs.contains_key(#[trigger] rids[j]) && rs[rids[j]].flags == f && rparts(rs, rids[j]) == isl[j].0
    &&& k == 0 ==> rparts(rs, r) == rparts(rs0, r)
    &&& rs.contains_key(r) && rs[r].flags == f
    &&& forall|q: u32| #[trigger] rs.contains_key(q) ==> rs0.contains_key(q) || exists|j: int| 0 < j < k && rids[j] == q
    &&& forall|q: u32| #[trigger] rs0.contains_key(q) ==> rs.contains_key(q)
    &&& forall|q: u32| rs0.contains_key(q) && q != r ==> #[trigger] rparts(rs, q) == rparts(rs0, q) && rs[q].flags == rs0[q].flags
}

/// The regions among `rids` whose island met region `q`.
pub open spec fn island_links(isl: Seq<(Set<u32>, Set<u32>)>, rids: Seq<u32>, q: u32) -> Set<u32> {
    Set::new(|x: u32| exists|j: int| 0 <= j < rids.len() && rids[j] == x && #[trigger] isl[j].1.contains(q))
}

/// The neighbor links after the islands of region `r` of `rs0` have been given the regions
/// `rids`: each such region neighbors exactly the regions its island met, and every other
/// region of `rs0` has lost `r` and gained the island regions that met it.
pub open spec fn split_links(rs0: Map<u32, Region>, rs: Map<u32, Region>, r: u32, isl: Seq<(Set<u32>, Set<u32>)>, rids: Seq<u32>) -> bool {
    &&& forall|j: int| 0 <= j < rids.len() ==> rnbrs(rs, #[trigger] rids[j]) == isl[j].1
    &&& forall|q: u32|
        #[trigger] rs0.contains_key(q) && q != r ==> rnbrs(rs, q) == rnbrs(rs0, q).remove(r) + island_links(isl, rids, q)
}

/// Region `r` of `rs0` (with flags `f`) was split into the islands `isl`: there are
/// regions for them, the first being `r` itself and the others fresh, which hold the
/// islands' partitions and neighbor the regions the islands met.
pub open spec fn region_split(
    ps0: Map<u32, Partition>,
    rs0: Map<u32, Region>,
    ps: Map<u32, Partition>,
    rs: Map<u32, Region>,
    r: u32,
    f: NavigationFlags,
    isl: Seq<(Set<u32>, Set<u32>)>,
) -> bool {
    exists|rids: Seq<u32>|
        #[trigger] split_state(ps0, rs0, ps, rs, r, f, isl, rids, isl.len() as int) && split_links(rs0, rs, r, isl, rids)
}

/// Linking the region `new_id` of island `k` to the regions that island met keeps the
/// neighbor links of the split in step.
proof fn lemma_split_links_step(
    ps0: Map<u32, Partition>,
    rs0: Map<u32, Region>,
    rs_start: Map<u32, Region>,
    ps_a: Map<u32, Partition>,
    rs_a: Map<u32, Region>,
    rs_b: Map<u32, Region>,
    r: u32,
    f: NavigationFlags,
    isl: Seq<(Set<u32>, Set<u32>)>,
    rids: Seq<u32>,
    k: int,
    new_id: u32,
)
    requires
        split_state(ps0, rs0, ps_a, rs_a, r, f, isl, rids, k),
        islands_ok(ps0, rs0, r, isl),
        rs0.contains_key(r),
        f == rs0[r].flags,
        rs_start.dom() == rs0.dom(),
        split_links(rs_start, rs_a, r, isl, rids),
        0 <= k < isl.len(),
        k == 0 ==> new_id == r,
        k > 0 ==> !rs0.contains_key(new_id) && !rs_a.contains_key(new_id),
        rnbrs(rs_b, new_id) == isl[k].1,
        forall|q: u32| #[trigger] rs_a.contains_key(q) && q != new_id ==> rnbrs(rs_b, q) == (if isl[k].1.contains(q) {
            rnbrs(rs_a, q).insert(new_id)
        } else {
            rnbrs(rs_a, q)
        }),
    ensures
        split_links(rs_start, rs_b, r, isl, rids.push(new_id)),
{
    let rids2 = rids.push(new_id);
    assert forall|j: int| 0 <= j < rids2.len() implies rnbrs(rs_b, #[trigger] rids2[j]) == isl[j].1 by {
        if j < k {
            assert(rids2[j] == rids[j]);
            assert(rs_a.contains_key(rids[j]));
            assert(rids[j] != new_id) by {
                if k > 0 && j == 0 {
                    assert(rids[0] == r);
                }
            }
            if isl[k].1.contains(rids[j]) {
                assert(rs0.contains_key(rids[j]) && rs0[rids[j]].flags != rs0[r].flags);
                if j > 0 {
                    assert(!rs0.contains_key(rids[j]));
                } else {
                    assert(rids[0] == r);
                }
            }
        }
    }
    assert forall|q: u32| #[trigger] rs_start.contains_key(q) && q != r implies rnbrs(rs_b, q) == rnbrs(rs_start, q).remove(r)
        + island_links(isl, rids2, q) by {
        assert(rs0.contains_key(q));
        assert(rs_a.contains_key(q));
        assert(q != new_id);
        assert(rnbrs(rs_a, q) == rnbrs(rs_start, q).remove(r) + island_links(isl, rids, q));
        if isl[k].1.contains(q) {
            assert(island_links(isl, rids2, q) =~= island_links(isl, rids, q).insert(new_id)) by {
                assert(rids2[k] == new_id);
                assert forall|x: u32| island_links(isl, rids2, q).contains(x) implies island_links(isl, rids, q).insert(new_id).contains(x) by {
                    let j = choose|j: int| 0 <= j < rids2.len() && rids2[j] == x && #[trigger] isl[j].1.contains(q);
                    if j < k {
                        assert(rids[j] == x);
                    }
                }
                assert forall|x: u32| island_links(isl, rids, q).contains(x) implies island_links(isl, rids2, q).contains(x) by {
                    let j = choose|j: int| 0 <= j < rids.len() && rids[j] == x && #[trigger] isl[j].1.contains(q);
                    assert(rids2[j] == x);
                }
            }
            assert(rnbrs(rs_b, q) =~= rnbrs(rs_start, q).remove(r) + island_links(isl, rids2, q));
        } else {
            assert(island_links(isl, rids2, q) =~= island_links(isl, rids, q)) by {
                assert forall|x: u32| island_links(isl, rids2, q).contains(x) implies island_links(isl, rids, q).contains(x) by {
                    let j = choose|j: int| 0 <= j < rids2.len() && rids2[j] == x && #[trigger] isl[j].1.contains(q);
                    assert(j < k);
                    assert(rids[j] == x);
                }
                assert forall|x: u32| island_links(isl, rids, q).contains(x) implies island_links(isl, rids2, q).contains(x) by {
                    let j = choose|j: int| 0 <= j < rids.len() && rids[j] == x && #[trigger] isl[j].1.contains(q);
                    assert(rids2[j] == x);
                }
            }
        }
    }
}

/// The state of a split depends on the regions before it only through their ids, flags
/// and partitions.
proof fn lemma_split_state_frame(
    ps0: Map<u32, Partition>,
    rs0: Map<u32, Region>,
    rs1: Map<u32, Region>,
    ps: Map<u32, Partition>,
    rs: Map<u32, Region>,
    r: u32,
    f: NavigationFlags,
    isl: Seq<(Set<u32>, Set<u32>)>,
    rids: Seq<u32>,
    k: int,
)
    requires
        split_state(ps0, rs0, ps, rs, r, f, isl, rids, k),
        same_region_parts(rs1, rs0),
    ensures
        split_state(ps0, rs1, ps, rs, r, f, isl, rids, k),
{
    assert forall|q: u32| rs1.contains_key(q) implies rparts(rs1, q) == rparts(rs0, q) && rs1[q].flags == rs0[q].flags by {
        assert(rs0.contains_key(q));
    }
    if rs1.contains_key(r) {
        assert(rparts(rs1, r) == rparts(rs0, r));
    } else {
        assert(!rs0.contains_key(r));
        assert(rparts(rs1, r) == rparts(rs0, r)) by {
            assert(rs1.dom() == rs0.dom());
        }
    }
}

/// Partway through a split, every partition lies in an existing region with its flags.
proof fn lemma_split_parts_in_regions(
    ps0: Map<u32, Partition>,
    rs0: Map<u32, Region>,
    ps: Map<u32, Partition>,
    rs: Map<u32, Region>,
    r: u32,
    isl: Seq<(Set<u32>, Set<u32>)>,
    rids: Seq<u32>,
    k: int,
)
    requires
        partitions_wf(ps0, rs0),
        rs0.contains_key(r),
        islands_ok(ps0, rs0, r, isl),
        split_state(ps0, rs0, ps, rs, r, rs0[r].flags, isl, rids, k),
    ensures
        parts_in_regions(ps, rs),
{
    reveal(partitions_wf);
    let f = rs0[r].flags;
    assert forall|p: u32| #[trigger] ps.contains_key(p) implies {
        &&& ps[p].id == p
        &&& rs.contains_key(ps[p].region_id)
        &&& ps[p].flags == rs[ps[p].region_id].flags
    } by {
        assert(ps0.contains_key(p));
        assert(ps[p] == moved_to(ps0[p], ps[p].region_id));
        if rparts(rs0, r).contains(p) {
            let j = choose|j: int| 0 <= j < isl.len() && #[trigger] isl[j].0.contains(p);
            assert(ps0[p].region_id == r);
            if j < k {
                assert(rs.contains_key(rids[j]));
            }
        } else {
            assert(ps[p].region_id == ps0[p].region_id);
            assert(rs0.contains_key(ps0[p].region_id));
            if ps0[p].region_id == r {
                assert(rparts(rs0, r).contains(p));
            }
            assert(rparts(rs, ps0[p].region_id) == rparts(rs0, ps0[p].region_id));
        }
    }
}

/// Once every island has its region, the partitions and regions are consistent again.
proof fn lemma_split_done(
    ps0: Map<u32, Partition>,
    rs0: Map<u32, Region>,
    ps: Map<u32, Partition>,
    rs: Map<u32, Region>,
    r: u32,
    isl: Seq<(Set<u32>, Set<u32>)>,
    rids: Seq<u32>,
)
    requires
        partitions_wf(ps0, rs0),
        rs0.contains_key(r),
        islands_ok(ps0, rs0, r, isl),
        split_state(ps0, rs0, ps, rs, r, rs0[r].flags, isl, rids, isl.len() as int),
        isl.len() > 0,
    ensures
        partitions_wf(ps, rs),
{
    lemma_split_parts_in_regions(ps0, rs0, ps, rs, r, isl, rids, isl.len() as int);
    reveal(partitions_wf);
    let f = rs0[r].flags;
    let k = isl.len() as int;
    assert forall|p: u32| #[trigger] ps.contains_key(p) implies rparts(rs, ps[p].region_id).contains(p) by {
        assert(ps0.contains_key(p));
        if rparts(rs0, r).contains(p) {
            let j = choose|j: int| 0 <= j < isl.len() && #[trigger] isl[j].0.contains(p);
            assert(rparts(rs, rids[j]) == isl[j].0);
        } else {
            assert(ps[p].region_id == ps0[p].region_id);
            if ps0[p].region_id == r {
                assert(rparts(rs0, r).contains(p));
            }
            assert(rparts(rs, ps0[p].region_id) == rparts(rs0, ps0[p].region_id));
        }
    }
    assert forall|q: u32, p: u32| rs.contains_key(q) && #[trigger] rparts(rs, q).contains(p) implies ps.contains_key(p)
        && ps[p].region_id == q by {
        let is_new = exists|j: int| 0 <= j < k && rids[j] == q;
        if is_new {
            let j = choose|j: int| 0 <= j < k && rids[j] == q;
            assert(rparts(rs, rids[j]) == isl[j].0);
            assert(isl[j].0.contains(p));
            assert(rparts(rs0, r).contains(p));
        } else {
            assert(rs0.contains_key(q));
            assert(q != r) by {
                assert(rids[0] == r);
            }
            assert(rparts(rs, q) == rparts(rs0, q));
            assert(rparts(rs0, q).contains(p));
            assert(ps0[p].region_id == q);
            if rparts(rs0, r).contains(p) {
                assert(ps0[p].region_id == r);
            }
            assert(ps[p].region_id == ps0[p].region_id);
        }
    }
    assert forall|p: u32, n: u32| ps.contains_key(p) && #[trigger] pnbrs(ps, p).contains(n) implies ps.contains_key(n)
        && n != p && pnbrs(ps, n).contains(p) && (ps[n].flags == ps[p].flags ==> ps[n].region_id == ps[p].region_id) by {
        assert(ps0.contains_key(p));
        assert(ps[p] == moved_to(ps0[p], ps[p].region_id));
        assert(pnbrs(ps0, p).contains(n));
        assert(ps0.contains_key(n));
        assert(ps[n] == moved_to(ps0[n], ps[n].region_id));
        if ps0[n].flags == ps0[p].flags {
            assert(ps0[n].region_id == ps0[p].region_id);
            if rparts(rs0, r).contains(p) {
                assert(ps0[p].region_id == r);
                assert(rparts(rs0, ps0[n].region_id).contains(n));
                let j = choose|j: int| 0 <= j < isl.len() && #[trigger] isl[j].0.contains(p);
                assert(ps0[p].flags == f);
                assert(isl[j].0.contains(n));
            } else {
                if rparts(rs0, r).contains(n) {
                    assert(ps0[n].region_id == r);
                    assert(rparts(rs0, ps0[p].region_id).contains(p));
                }
            }
        }
    }
}

/// Giving the next island (after the first) a fresh region keeps the split going.
proof fn lemma_split_step(
    ps0: Map<u32, Partition>,
    rs0: Map<u32, Region>,
    ps_a: Map<u32, Partition>,
    rs_a: Map<u32, Region>,
    ps_b: Map<u32, Partition>,
    rs_b: Map<u32, Region>,
    r: u32,
    f: NavigationFlags,
    isl: Seq<(Set<u32>, Set<u32>)>,
    rids: Seq<u32>,
    k: int,
    new_id: u32,
)
    requires
        partitions_wf(ps0, rs0),
        split_state(ps0, rs0, ps_a, rs_a, r, f, isl, rids, k),
        islands_ok(ps0, rs0, r, isl),
        0 <= k < isl.len(),
        k == 0 ==> new_id == r,
        k > 0 ==> !rs_a.contains_key(new_id),
        rs_b.dom() == (if k == 0 { rs_a.dom() } else { rs_a.dom().insert(new_id) }),
        rs_b[new_id].flags == f,
        rparts(rs_b, new_id) == isl[k].0,
        forall|q: u32| #[trigger] rs_a.contains_key(q) && q != new_id ==> rparts(rs_b, q) == rparts(rs_a, q) && rs_b[q].flags == rs_a[q].flags,
        ps_b.dom() == ps_a.dom(),
        forall|p: u32| #[trigger] ps_b.contains_key(p) ==> ps_b[p] == (if isl[k].0.contains(p) {
            moved_to(ps_a[p], new_id)
        } else {
            ps_a[p]
        }),
    ensures
        split_state(ps0, rs0, ps_b, rs_b, r, f, isl, rids.push(new_id), k + 1),
{
    let rids2 = rids.push(new_id);
    let k2 = k + 1;
    assert(rids2[k] == new_id);
    assert forall|j: int| 0 <= j < k implies #[trigger] rids2[j] == rids[j] by {}
    if k > 0 {
        assert(rids2[0] == rids[0]);
    }
    assert forall|p: u32| #[trigger] ps_b.contains_key(p) implies ps_b[p] == moved_to(ps0[p], ps_b[p].region_id) by {
        assert(ps_a.contains_key(p));
        assert(ps_a[p] == moved_to(ps0[p], ps_a[p].region_id));
    }
    assert forall|p: u32| #[trigger] ps_b.contains_key(p) && !rparts(rs0, r).contains(p) implies ps_b[p].region_id == ps0[p].region_id by {
        assert(ps_a.contains_key(p));
        if isl[k].0.contains(p) {
            assert(rparts(rs0, r).contains(p));
        }
    }
    assert forall|j: int, p: u32| 0 <= j < isl.len() && #[trigger] isl[j].0.contains(p) implies ps_b[p].region_id == (if j < k2 {
        rids2[j]
    } else {
        r
    }) by {
        assert(rparts(rs0, r).contains(p));
        assert(rs0.contains_key(r)) by {
            assert(rs_a.contains_key(r));
            if !rs0.contains_key(r) {
                let jj = choose|jj: int| 0 < jj < k && rids[jj] == r;
                assert(rids[0] == r);
            }
        }
        assert(ps0.contains_key(p)) by {
            reveal(partitions_wf);
        }
        if j != k {
            assert(!isl[k].0.contains(p));
            assert(ps_a.contains_key(p));
        }
    }
    assert forall|j: int| 0 < j < k2 implies !rs0.contains_key(#[trigger] rids2[j]) by {
        if j < k {
            assert(rids2[j] == rids[j]);
        }
    }
    assert forall|j: int, l: int| 0 <= j < k2 && 0 <= l < k2 && j != l implies #[trigger] rids2[j] != #[trigger] rids2[l] by {
        if j < k && l < k {
            assert(rids2[j] == rids[j]);
            assert(rids2[l] == rids[l]);
        } else if j < k {
            assert(rs_a.contains_key(rids[j]));
        } else {
            assert(rs_a.contains_key(rids[l]));
        }
    }
    assert forall|j: int| 0 <= j < k2 implies rs_b.contains_key(#[trigger] rids2[j]) && rs_b[rids2[j]].flags == f
        && rparts(rs_b, rids2[j]) == isl[j].0 by {
        if j < k {
            assert(rids2[j] == rids[j]);
            assert(rs_a.contains_key(rids[j]));
        }
    }
    assert forall|q: u32| #[trigger] rs_b.contains_key(q) implies rs0.contains_key(q) || exists|j: int| 0 < j < k2 && rids2[j] == q by {
        if q != new_id || k == 0 {
            assert(rs_a.contains_key(q));
            if !rs0.contains_key(q) {
                let j = choose|j: int| 0 < j < k && rids[j] == q;
                assert(rids2[j] == q);
            }
        } else {
            assert(rids2[k] == q);
        }
    }
    assert forall|q: u32| rs0.contains_key(q) && q != r implies #[trigger] rparts(rs_b, q) == rparts(rs0, q) && rs_b[q].flags == rs0[q].flags by {
        assert(rs_a.contains_key(q));
    }
}

impl NavigationGraph {
    /// Gives each island of region `region_id` a region: the first keeps the region, each
    /// other gets a fresh one with the same flags; each becomes a neighbor of the regions
    /// its flood met.
    #[verifier::spinoff_prover]
    fn split_region(&mut self, region_id: &u32, flags: NavigationFlags, islands: Vec<(IdSet, IdSet)>)
        requires
            old(self).wf(),
            old(self).regs().contains_key(*region_id),
            flags == old(self).regs()[*region_id].flags,
            islands_ok(old(self).parts(), old(self).regs(), *region_id, island_sets(islands@)),
            islands@.len() > 0,
            old(self).last_region_id() + islands@.len() <= u32::MAX,
            old(self).last_group_id() + 2 * islands@.len() <= u32::MAX,
        ensures
            final(self).wf(),
            final(self).parts().dom() == old(self).parts().dom(),
            forall|p: u32| #[trigger] final(self).parts().contains_key(p) ==> final(self).parts()[p] == moved_to(old(self).parts()[p], final(self).parts()[p].region_id),
            final(self).last_partition_id() == old(self).last_partition_id(),
            final(self).last_region_id() <= old(self).last_region_id() + islands@.len(),
            final(self).last_group_id() <= old(self).last_group_id() + 2 * islands@.len(),
            region_split(old(self).parts(), old(self).regs(), final(self).parts(), final(self).regs(), *region_id, flags, island_sets(islands@)),
    {
        let ghost isl = island_sets(islands@);
        let ghost r = *region_id;
        let ghost rs_start = self.regs();
        self.clear_region_neighbors(*region_id);
        let ghost ps0 = self.parts();
        let ghost rs0 = self.regs();
        proof {
            assert(islands_ok(ps0, rs0, r, isl)) by {
                assert forall|p: u32| #[trigger] rparts(rs0, r).contains(p) implies exists|k: int| 0 <= k < isl.len() && #[trigger] isl[k].0.contains(p) by {
                    assert(rparts(rs_start, r).contains(p));
                }
                assert forall|k: int, x: u32| 0 <= k < isl.len() && #[trigger] isl[k].1.contains(x) implies rs0.contains_key(x)
                    && rs0[x].flags != rs0[r].flags by {
                    assert(rs_start.contains_key(x));
                }
            }
        }
        let ghost mut rids: Seq<u32> = Seq::empty();
        proof {
            reveal(partitions_wf);
            assert forall|p: u32| #[trigger] ps0.contains_key(p) implies ps0[p] == moved_to(ps0[p], ps0[p].region_id) by {}
            assert forall|j: int, p: u32| 0 <= j < isl.len() && #[trigger] isl[j].0.contains(p) implies ps0[p].region_id == r by {
                assert(rparts(rs0, r).contains(p));
            }
            assert(split_state(ps0, rs0, ps0, rs0, r, flags, isl, rids, 0));
            assert forall|q: u32| #[trigger] rs_start.contains_key(q) && q != r implies rnbrs(rs0, q) == rnbrs(rs_start, q).remove(r)
                + island_links(isl, rids, q) by {
                assert(island_links(isl, rids, q) =~= Set::<u32>::empty());
                assert(rnbrs(rs0, q) =~= rnbrs(rs_start, q).remove(r) + Set::<u32>::empty());
            }
            assert(split_links(rs_start, rs0, r, isl, rids));
        }
        let mut idx: usize = 0;
        while idx < islands.len()
            invariant
                0 <= idx <= islands.len(),
                isl == island_sets(islands@),
                r == *region_id,
                self.links_wf(),
                partitions_wf(ps0, rs0),
                rs0.contains_key(r),
                flags == rs0[r].flags,
                islands_ok(ps0, rs0, r, isl),
                split_state(ps0, rs0, self.parts(), self.regs(), r, flags, isl, rids, idx as int),
                idx == 0 ==> self.regs() == rs0 && self.parts() == ps0,
                self.last_partition_id() == old(self).last_partition_id(),
                self.last_region_id() + islands@.len() - (if idx == 0 { 0 } else { idx - 1 }) <= old(self).last_region_id() + islands@.len(),
                self.last_region_id() + islands@.len() - idx <= u32::MAX,
                self.last_group_id() + 2 * (islands@.len() - idx) <= u32::MAX,
                self.last_group_id() <= old(self).last_group_id() + 2 * idx,
                self.last_region_id() <= old(self).last_region_id() + idx,
                islands@.len() > 0,
                rs_start == old(self).regs(),
                same_region_parts(rs_start, rs0),
                rnbrs(rs0, r) == Set::<u32>::empty(),
                split_links(rs_start, self.regs(), r, isl, rids),
            decreases islands.len() - idx,
        {
            let island_ids = islands[idx].0.to_vec();
            let neighbor_ids = islands[idx].1.to_vec();
            let ghost ps_a = self.parts();
            let ghost rs_a = self.regs();
            proof {
                reveal(partitions_wf);
                assert(isl[idx as int].0 == id_set_items(islands@[idx as int].0));
                assert(isl[idx as int].1 == id_set_items(islands@[idx as int].1));
                assert forall|i: int| 0 <= i < island_ids.len() implies ps_a.contains_key(#[trigger] island_ids@[i]) by {
                    assert(island_ids@.to_set().contains(island_ids@[i]));
                    assert(isl[idx as int].0.contains(island_ids@[i]));
                    assert(rparts(rs0, r).contains(island_ids@[i]));
                }
                assert forall|i: int| 0 <= i < neighbor_ids.len() implies rs_a.contains_key(#[trigger] neighbor_ids@[i])
                    && rs0.contains_key(neighbor_ids@[i]) && rs0[neighbor_ids@[i]].flags != flags by {
                    assert(neighbor_ids@.to_set().contains(neighbor_ids@[i]));
                    assert(isl[idx as int].1.contains(neighbor_ids@[i]));
                }
            }
            proof {
                assert(neighbor_ids@.to_set() == isl[idx as int].1);
            }
            if idx == 0 {
                self.link_region_to_all(region_id, &neighbor_ids);
                let ghost rs_l = self.regs();
                self.move_partitions(&island_ids, *region_id);
                let ghost rs_pre_set = self.regs();
                let parts = islands[idx].0.clone_set();
                self.set_region_partitions(*region_id, parts);
                proof {
                    let rs_b = self.regs();
                    let ps_b = self.parts();
                    assert forall|q: u32| #[trigger] rs_b.contains_key(q) implies rs_b[q].id == rs_pre_set[q].id && rnbrs(rs_b, q) == rnbrs(rs_pre_set, q)
                        && rgroups(rs_b, q) == rgroups(rs_pre_set, q) by {}
                    lemma_regions_wf_parts_frame(rs_pre_set, rs_b, self.grps());
                    assert(rs_b.dom() =~= rs_a.dom());
                    assert forall|p: u32| #[trigger] ps_b.contains_key(p) implies ps_b[p] == (if isl[0].0.contains(p) {
                        moved_to(ps_a[p], r)
                    } else {
                        ps_a[p]
                    }) by {
                        if island_ids@.contains(p) {
                            assert(island_ids@.to_set().contains(p));
                        } else if isl[0].0.contains(p) {
                            assert(island_ids@.to_set().contains(p));
                        }
                    }
                    assert(rnbrs(rs_b, r) =~= isl[0].1) by {
                        assert(rnbrs(rs_l, r) =~= rnbrs(rs_a, r) + isl[0].1);
                    }
                    assert forall|q: u32| #[trigger] rs_a.contains_key(q) && q != r implies rnbrs(rs_b, q) == (if isl[0].1.contains(q) {
                        rnbrs(rs_a, q).insert(r)
                    } else {
                        rnbrs(rs_a, q)
                    }) by {
                        assert(rs_l.contains_key(q));
                        assert(neighbor_ids@.contains(q) <==> neighbor_ids@.to_set().contains(q));
                    }
                    lemma_split_links_step(ps0, rs0, rs_start, ps_a, rs_a, rs_b, r, flags, isl, rids, 0, r);
                    lemma_split_step(ps0, rs0, ps_a, rs_a, ps_b, rs_b, r, flags, isl, rids, 0, r);
                    rids = rids.push(r);
                }
            } else {
                proof {
                    lemma_split_parts_in_regions(ps0, rs0, ps_a, rs_a, r, isl, rids, idx as int);
                }
                let new_region_id = self.create_region(flags);
                let ghost rs_pre_set = self.regs();
                let parts = islands[idx].0.clone_set();
                self.set_region_partitions(new_region_id, parts);
                proof {
                    let rs_set = self.regs();
                    assert forall|q: u32| #[trigger] rs_set.contains_key(q) implies rs_set[q].id == rs_pre_set[q].id && rnbrs(rs_set, q) == rnbrs(rs_pre_set, q)
                        && rgroups(rs_set, q) == rgroups(rs_pre_set, q) by {}
                    lemma_regions_wf_parts_frame(rs_pre_set, rs_set, self.grps());
                    assert forall|i: int| 0 <= i < neighbor_ids.len() implies self.regs().contains_key(#[trigger] neighbor_ids@[i])
                        && neighbor_ids@[i] != new_region_id by {
                        assert(rs_a.contains_key(neighbor_ids@[i]));
                    }
                    assert(self.regs()[new_region_id].flags == flags);
                }
                let ghost rs_mid = self.regs();
                self.link_region_to_all(&new_region_id, &neighbor_ids);
                let ghost rs_l = self.regs();
                self.move_partitions(&island_ids, new_region_id);
                proof {
                    let rs_b = self.regs();
                    let ps_b = self.parts();
                    assert(rs_mid.contains_key(new_region_id));
                    assert(rs_b.contains_key(new_region_id));
                    assert(rs_b[new_region_id].flags == rs_mid[new_region_id].flags);
                    assert(rs_b.dom() =~= rs_a.dom().insert(new_region_id));
                    assert forall|q: u32| #[trigger] rs_a.contains_key(q) && q != new_region_id implies rparts(rs_b, q) == rparts(rs_a, q)
                        && rs_b[q].flags == rs_a[q].flags by {
                        assert(rs_mid.contains_key(q));
                    }
                    assert forall|p: u32| #[trigger] ps_b.contains_key(p) implies ps_b[p] == (if isl[idx as int].0.contains(p) {
                        moved_to(ps_a[p], new_region_id)
                    } else {
                        ps_a[p]
                    }) by {
                        if island_ids@.contains(p) {
                            assert(island_ids@.to_set().contains(p));
                        } else if isl[idx as int].0.contains(p) {
                            assert(island_ids@.to_set().contains(p));
                        }
                    }
                    assert(rnbrs(rs_b, new_region_id) =~= isl[idx as int].1) by {
                        assert(rnbrs(rs_mid, new_region_id) == Set::<u32>::empty());
                        assert(rnbrs(rs_l, new_region_id) =~= rnbrs(rs_mid, new_region_id) + isl[idx as int].1);
                    }
                    assert forall|q: u32| #[trigger] rs_a.contains_key(q) && q != new_region_id implies rnbrs(rs_b, q) == (if isl[idx as int].1.contains(q) {
                        rnbrs(rs_a, q).insert(new_region_id)
                    } else {
                        rnbrs(rs_a, q)
                    }) by {
                        assert(rs_mid.contains_key(q));
                        assert(rs_l.contains_key(q));
                        assert(rnbrs(rs_mid, q) == rnbrs(rs_a, q));
                        assert(neighbor_ids@.contains(q) <==> neighbor_ids@.to_set().contains(q));
                    }
                    assert(!rs0.contains_key(new_region_id));
                    lemma_split_links_step(ps0, rs0, rs_start, ps_a, rs_a, rs_b, r, flags, isl, rids, idx as int, new_region_id);
                    lemma_split_step(ps0, rs0, ps_a, rs_a, ps_b, rs_b, r, flags, isl, rids, idx as int, new_region_id);
                    rids = rids.push(new_region_id);
                }
            }
            idx = idx + 1;
        }
        proof {
            lemma_split_done(ps0, rs0, self.parts(), self.regs(), r, isl, rids);
            assert(ps0 == old(self).parts());
            lemma_split_state_frame(ps0, rs0, rs_start, self.parts(), self.regs(), r, flags, isl, rids, isl.len() as int);
            assert(split_state(ps0, rs_start, self.parts(), self.regs(), r, flags, isl, rids, isl.len() as int)
                && split_links(rs_start, self.regs(), r, isl, rids));
        }
    }
}

impl NavigationGraph {
    /// Checks that the partitions of region `region_id` still hang together: the region
    /// goes when it has none left, and each further island of them gets a region of its
    /// own.
    fn flood_region(&mut self, region_id: &u32)
        requires
            old(self).wf(),
            old(self).regs().contains_key(*region_id),
            old(self).last_region_id() + rparts(old(self).regs(), *region_id).len() <= u32::MAX,
            old(self).last_group_id() + 2 * rparts(old(self).regs(), *region_id).len() <= u32::MAX,
        ensures
            final(self).wf(),
            final(self).parts().dom() == old(self).parts().dom(),
            forall|p: u32| #[trigger] final(self).parts().contains_key(p) ==> final(self).parts()[p] == moved_to(old(self).parts()[p], final(self).parts()[p].region_id),
            final(self).last_partition_id() == old(self).last_partition_id(),
            final(self).last_region_id() <= old(self).last_region_id() + rparts(old(self).regs(), *region_id).len(),
            final(self).last_group_id() <= old(self).last_group_id() + 2 * rparts(old(self).regs(), *region_id).len(),
            rparts(old(self).regs(), *region_id) == Set::<u32>::empty() ==> {
                &&& final(self).parts() == old(self).parts()
                &&& final(self).regs().dom() == old(self).regs().dom().remove(*region_id)
                &&& forall|q: u32| #[trigger] final(self).regs().contains_key(q) ==> {
                    &&& final(self).regs()[q].id == old(self).regs()[q].id
                    &&& final(self).regs()[q].flags == old(self).regs()[q].flags
                    &&& rparts(final(self).regs(), q) == rparts(old(self).regs(), q)
                    &&& rnbrs(final(self).regs(), q) == rnbrs(old(self).regs(), q).remove(*region_id)
                }
            },
            rparts(old(self).regs(), *region_id) != Set::<u32>::empty() ==> exists|isl: Seq<(Set<u32>, Set<u32>)>|
                0 < isl.len() <= rparts(old(self).regs(), *region_id).len()
                && islands_ok(old(self).parts(), old(self).regs(), *region_id, isl)
                && #[trigger] region_split(
                old(self).parts(),
                old(self).regs(),
                final(self).parts(),
                final(self).regs(),
                *region_id,
                old(self).regs()[*region_id].flags,
                isl,
            ),
    {
        let region = self.regions.get(*region_id).unwrap();
        if region.partition_ids.is_empty() {
            proof {
                reveal(partitions_wf);
                let ps = self.parts();
                let rs = self.regs();
                let rsd = rs.remove(*region_id);
                assert forall|p: u32| #[trigger] ps.contains_key(p) implies rsd.contains_key(ps[p].region_id) && rparts(rsd, ps[p].region_id).contains(p)
                    && ps[p].flags == rsd[ps[p].region_id].flags by {
                    if ps[p].region_id == *region_id {
                        assert(rparts(rs, *region_id).contains(p));
                    }
                }
                assert forall|q: u32, p: u32| rsd.contains_key(q) && #[trigger] rparts(rsd, q).contains(p) implies ps.contains_key(p)
                    && ps[p].region_id == q by {
                    assert(rparts(rs, q).contains(p));
                }
                assert(partitions_wf(ps, rsd));
                lemma_wf_linked(ps, rsd);
            }
            self.delete_region(region_id);
            return;
        }
        let flags = region.flags;
        let islands = self.region_islands(*region_id);
        proof {
            let isl = island_sets(islands@);
            let sr = rparts(self.regs(), *region_id);
            assert(sr != Set::<u32>::empty());
            if !(exists|x: u32| sr.contains(x)) {
                assert(sr =~= Set::<u32>::empty());
            }
            let p = choose|x: u32| sr.contains(x);
            assert(sr.contains(p));
            let k = choose|k: int| 0 <= k < isl.len() && #[trigger] isl[k].0.contains(p);
            assert(islands@.len() > 0);
        }
        let ghost isl = island_sets(islands@);
        self.split_region(region_id, flags, islands);
        proof {
            assert(0 < isl.len() <= rparts(old(self).regs(), *region_id).len());
            assert(region_split(old(self).parts(), old(self).regs(), self.parts(), self.regs(), *region_id, flags, isl));
        }
    }

    /// Drops partition `partition_id` and hands it back: its neighbors forget it, its
    /// region loses it and is checked for whether it still hangs together.
    #[verifier::spinoff_prover]
    pub fn delete_partition(&mut self, partition_id: &u32) -> (r: Partition)
        requires
            old(self).wf(),
            old(self).parts().contains_key(*partition_id),
            old(self).last_region_id() + old(self).parts().len() <= u32::MAX,
            old(self).last_group_id() + 2 * old(self).parts().len() <= u32::MAX,
        ensures
            final(self).wf(),
            r == old(self).parts()[*partition_id],
            final(self).parts().dom() == old(self).parts().dom().remove(*partition_id),
            forall|p: u32| #[trigger] final(self).parts().contains_key(p) ==> {
                &&& pnbrs(final(self).parts(), p) == pnbrs(old(self).parts(), p).remove(*partition_id)
                &&& final(self).parts()[p].flags == old(self).parts()[p].flags
                &&& final(self).parts()[p].chunk_idx == old(self).parts()[p].chunk_idx
                &&& final(self).parts()[p].blocks == old(self).parts()[p].blocks
            },
            final(self).last_partition_id() == old(self).last_partition_id(),
            final(self).last_region_id() <= old(self).last_region_id() + old(self).parts().len(),
            final(self).last_group_id() <= old(self).last_group_id() + 2 * old(self).parts().len(),
    {
        let ghost ps0 = self.parts();
        let ghost rs0 = self.regs();
        let ghost pid = *partition_id;
        proof {
            reveal(partitions_wf);
        }
        let partition = self.partitions.remove(*partition_id).unwrap();
        let neighbor_ids = partition.neighbor_ids.to_vec();
        proof {
            assert forall|m: int| 0 <= m < neighbor_ids.len() implies #[trigger] ps0.contains_key(neighbor_ids@[m])
                && neighbor_ids@[m] != pid by {
                assert(neighbor_ids@.to_set().contains(neighbor_ids@[m]));
                assert(pnbrs(ps0, pid).contains(neighbor_ids@[m]));
            }
            assert(self.parts().dom() =~= ps0.dom().remove(pid));
        }
        let mut i: usize = 0;
        while i < neighbor_ids.len()
            invariant
                0 <= i <= neighbor_ids.len(),
                pid == *partition_id,
                neighbor_ids@.no_duplicates(),
                neighbor_ids@.to_set() == pnbrs(ps0, pid),
                forall|m: int| 0 <= m < neighbor_ids.len() ==> #[trigger] ps0.contains_key(neighbor_ids@[m])
                    && neighbor_ids@[m] != pid,
                self.parts().dom() == ps0.dom().remove(pid),
                forall|q: u32| #[trigger] self.parts().contains_key(q) ==> self.parts()[q] == (if neighbor_ids@.subrange(0, i as int).contains(q) {
                    Partition { neighbor_ids: self.parts()[q].neighbor_ids, ..ps0[q] }
                } else {
                    ps0[q]
                }),
                forall|q: u32| #[trigger] self.parts().contains_key(q) ==> pnbrs(self.parts(), q) == (if neighbor_ids@.subrange(0, i as int).contains(q) {
                    pnbrs(ps0, q).remove(pid)
                } else {
                    pnbrs(ps0, q)
                }),
                self.regs() == rs0,
                self.grps() == old(self).grps(),
                self.group_type_bits() == old(self).group_type_bits(),
                self.cur_partition_id == old(self).cur_partition_id,
                self.cur_region_id == old(self).cur_region_id,
                self.cur_group_id == old(self).cur_group_id,
                ps0 == old(self).parts(),
                rs0 == old(self).regs(),
            decreases neighbor_ids.len() - i,
        {
            let neighbor_id = neighbor_ids[i];
            let ghost ps_pre = self.parts();
            proof {
                assert(ps0.contains_key(neighbor_ids@[i as int]));
                assert(self.parts().contains_key(neighbor_id));
            }
            let mut neighbor = self.partitions.remove(neighbor_id).unwrap();
            neighbor.neighbor_ids.remove(*partition_id);
            self.partitions.insert(neighbor_id, neighbor);
            proof {
                let sub0 = neighbor_ids@.subrange(0, i as int);
                let sub1 = neighbor_ids@.subrange(0, i as int + 1);
                assert(sub1 == sub0.push(neighbor_id));
                assert(self.parts().dom() =~= ps0.dom().remove(pid));
                assert forall|q: u32| #[trigger] self.parts().contains_key(q) implies self.parts()[q] == (if sub1.contains(q) {
                    Partition { neighbor_ids: self.parts()[q].neighbor_ids, ..ps0[q] }
                } else {
                    ps0[q]
                }) && pnbrs(self.parts(), q) == (if sub1.contains(q) {
                    pnbrs(ps0, q).remove(pid)
                } else {
                    pnbrs(ps0, q)
                }) by {
                    assert(ps_pre.contains_key(q));
                    if q == neighbor_id {
                        assert(sub1[i as int] == q);
                        if sub0.contains(q) {
                            let k = choose|k: int| 0 <= k < sub0.len() && sub0[k] == q;
                            assert(neighbor_ids@[k] == neighbor_ids@[i as int]);
                        }
                    } else {
                        assert(self.parts()[q] == ps_pre[q]);
                        assert(sub1.contains(q) == sub0.contains(q)) by {
                            if sub1.contains(q) {
                                let k = choose|k: int| 0 <= k < sub1.len() && sub1[k] == q;
                                assert(sub0[k] == q);
                            }
                        }
                    }
                }
            }
            i = i + 1;
        }
        let ghost ps1 = self.parts();
        proof {
            assert(neighbor_ids@.subrange(0, neighbor_ids@.len() as int) == neighbor_ids@);
            assert forall|q: u32| #[trigger] ps1.contains_key(q) implies pnbrs(ps1, q) == pnbrs(ps0, q).remove(pid) by {
                if !neighbor_ids@.contains(q) {
                    if pnbrs(ps0, q).contains(pid) {
                        assert(pnbrs(ps0, pid).contains(q));
                        assert(neighbor_ids@.to_set().contains(q));
                    }
                    assert(pnbrs(ps0, q) =~= pnbrs(ps0, q).remove(pid));
                }
            }
        }
        let ghost rid = partition.region_id;
        let mut region = self.regions.remove(partition.region_id).unwrap();
        let region_id = region.id;
        region.partition_ids.remove(*partition_id);
        self.regions.insert(partition.region_id, region);
        proof {
            reveal(regions_wf);
            let ps = self.parts();
            let rs = self.regs();
            assert(region_id == rid);
            assert(rs.dom() =~= rs0.dom());
            assert forall|q: u32| #[trigger] rs.contains_key(q) implies rs[q].id == rs0[q].id && rnbrs(rs, q) == rnbrs(rs0, q)
                && rgroups(rs, q) == rgroups(rs0, q) by {}
            lemma_regions_wf_parts_frame(rs0, rs, self.grps());
            assert forall|p: u32| #[trigger] ps.contains_key(p) implies {
                &&& ps[p].id == p
                &&& rs.contains_key(ps[p].region_id)
                &&& ps[p].flags == rs[ps[p].region_id].flags
                &&& rparts(rs, ps[p].region_id).contains(p)
            } by {
                assert(ps0.contains_key(p));
            }
            assert forall|q: u32, p: u32| rs.contains_key(q) && #[trigger] rparts(rs, q).contains(p) implies ps.contains_key(p)
                && ps[p].region_id == q by {
                assert(rparts(rs0, q).contains(p));
            }
            assert forall|p: u32, n: u32| ps.contains_key(p) && #[trigger] pnbrs(ps, p).contains(n) implies ps.contains_key(n)
                && n != p && pnbrs(ps, n).contains(p) && (ps[n].flags == ps[p].flags ==> ps[n].region_id == ps[p].region_id) by {
                assert(pnbrs(ps0, p).contains(n));
                assert(ps0.contains_key(n));
                assert(pnbrs(ps0, n).contains(p));
            }
            assert(partitions_wf(ps, rs));
            assert forall|p: u32| #[trigger] ps.contains_key(p) implies 0 < p <= self.last_partition_id() by {
                assert(ps0.contains_key(p));
            }
            assert(rparts(rs, rid).subset_of(ps0.dom()));
            assert(ps0.dom().finite());
            vstd::set_lib::lemma_len_subset(rparts(rs, rid), ps0.dom());
        }
        let ghost ps_before_flood = self.parts();
        self.flood_region(&region_id);
        proof {
            assert forall|p: u32| #[trigger] self.parts().contains_key(p) implies {
                &&& pnbrs(self.parts(), p) == pnbrs(ps0, p).remove(pid)
                &&& self.parts()[p].flags == ps0[p].flags
                &&& self.parts()[p].chunk_idx == ps0[p].chunk_idx
                &&& self.parts()[p].blocks == ps0[p].blocks
            } by {
                assert(ps_before_flood.contains_key(p));
                assert(ps1.contains_key(p));
            }
        }
        partition
    }
}

/// The partitions of chunk `chunk_idx`.
pub open spec fn chunk_parts(ps: Map<u32, Partition>, chunk_idx: u32) -> Set<u32> {
    ps.dom().filter(|p: u32| ps[p].chunk_idx == chunk_idx)
}

impl NavigationGraph {
    /// The ids of the partitions of chunk `chunk_idx`, each once.
    fn get_partition_ids_for_chunk(&self, chunk_idx: u32) -> (r: Vec<u32>)
        ensures
            r@.no_duplicates(),
            r@.to_set() == chunk_parts(self.parts(), chunk_idx),
    {
        let keys = self.partitions.keys();
        let mut out: Vec<u32> = Vec::new();
        let mut i: usize = 0;
        while i < keys.len()
            invariant
                0 <= i <= keys.len(),
                keys@.no_duplicates(),
                keys@.to_set() == self.parts().dom(),
                out@.no_duplicates(),
                out@.to_set() == keys@.subrange(0, i as int).to_set().filter(|p: u32| self.parts()[p].chunk_idx == chunk_idx),
                forall|k: int| 0 <= k < out.len() ==> exists|j: int| 0 <= j < i && #[trigger] keys@[j] == #[trigger] out@[k],
            decreases keys.len() - i,
        {
            let id = keys[i];
            let ghost out0 = out@;
            let ghost sub0 = keys@.subrange(0, i as int);
            proof {
                assert(keys@.to_set().contains(keys@[i as int]));
                assert(keys@.subrange(0, i as int + 1) == sub0.push(id));
                sub0.lemma_push_to_set_commute(id);
            }
            let partition = self.partitions.get(id).unwrap();
            if partition.chunk_idx == chunk_idx {
                out.push(id);
                proof {
                    out0.lemma_push_to_set_commute(id);
                    assert forall|a: int, b: int| 0 <= a < out@.len() && 0 <= b < out@.len() && a != b implies out@[a] != out@[b] by {
                        if a == out@.len() - 1 || b == out@.len() - 1 {
                            let other = if a == out@.len() - 1 { b } else { a };
                            let j = choose|j: int| 0 <= j < i && #[trigger] keys@[j] == out0[other];
                            assert(keys@[j] != keys@[i as int]);
                        }
                    }
                }
            }
            proof {
                assert(out@.to_set() =~= keys@.subrange(0, i as int + 1).to_set().filter(|p: u32| self.parts()[p].chunk_idx == chunk_idx));
                assert forall|k: int| 0 <= k < out.len() implies exists|j: int| 0 <= j < i + 1 && #[trigger] keys@[j] == #[trigger] out@[k] by {
                    if k < out0.len() {
                        assert(out@[k] == out0[k]);
                        let j = choose|j: int| 0 <= j < i && #[trigger] keys@[j] == out0[k];
                    } else {
                        assert(keys@[i as int] == out@[k]);
                    }
                }
            }
            i = i + 1;
        }
        proof {
            assert(keys@.subrange(0, keys@.len() as int) == keys@);
            assert(out@.to_set() =~= chunk_parts(self.parts(), chunk_idx));
        }
        out
    }

    /// Drops every partition of chunk `chunk_idx`, as `delete_partition` does, and hands
    /// them back.
    pub fn delete_partitions_for_chunk(&mut self, chunk_idx: u32) -> (r: Vec<Partition>)
        requires
            old(self).wf(),
            old(self).last_region_id() + old(self).parts().len() * old(self).parts().len() <= u32::MAX,
            old(self).last_group_id() + 2 * old(self).parts().len() * old(self).parts().len() <= u32::MAX,
        ensures
            final(self).wf(),
            final(self).parts().dom() == old(self).parts().dom().difference(chunk_parts(old(self).parts(), chunk_idx)),
            forall|i: int| 0 <= i < r.len() ==> #[trigger] r@[i].chunk_idx == chunk_idx && chunk_parts(old(self).parts(), chunk_idx).contains(r@[i].id),
            forall|i: int, j: int| 0 <= i < r.len() && 0 <= j < r.len() && i != j ==> #[trigger] r@[i].id != #[trigger] r@[j].id,
            forall|p: u32| #[trigger] chunk_parts(old(self).parts(), chunk_idx).contains(p) ==> exists|i: int| 0 <= i < r.len() && r@[i].id == p,
            final(self).last_partition_id() == old(self).last_partition_id(),
    {
        let partition_ids = self.get_partition_ids_for_chunk(chunk_idx);
        let ghost ps0 = self.parts();
        let ghost cp = chunk_parts(ps0, chunk_idx);
        let mut removed: Vec<Partition> = Vec::new();
        let mut i: usize = 0;
        proof {
            reveal(partitions_wf);
            assert(self.parts().dom() =~= ps0.dom().difference(partition_ids@.subrange(0, 0).to_set()));
        }
        while i < partition_ids.len()
            invariant
                0 <= i <= partition_ids.len(),
                self.wf(),
                partition_ids@.no_duplicates(),
                partition_ids@.to_set() == cp,
                cp == chunk_parts(ps0, chunk_idx),
                ps0 == old(self).parts(),
                self.parts().dom() == ps0.dom().difference(partition_ids@.subrange(0, i as int).to_set()),
                forall|p: u32| #[trigger] self.parts().contains_key(p) ==> self.parts()[p].chunk_idx == ps0[p].chunk_idx,
                removed.len() == i,
                forall|k: int| 0 <= k < i ==> (#[trigger] removed@[k]).id == partition_ids@[k],
                forall|k: int| 0 <= k < i ==> (#[trigger] removed@[k]).chunk_idx == chunk_idx,
                self.last_partition_id() == old(self).last_partition_id(),
                self.last_region_id() + self.parts().len() * self.parts().len() <= u32::MAX,
                self.last_group_id() + 2 * self.parts().len() * self.parts().len() <= u32::MAX,
            decreases partition_ids.len() - i,
        {
            let partition_id = partition_ids[i];
            let ghost sub0 = partition_ids@.subrange(0, i as int);
            let ghost n = self.parts().len();
            let ghost lr = self.last_region_id();
            let ghost lg = self.last_group_id();
            proof {
                reveal(partitions_wf);
                assert(partition_ids@.subrange(0, i as int + 1) == sub0.push(partition_id));
                sub0.lemma_push_to_set_commute(partition_id);
                assert(partition_ids@.to_set().contains(partition_ids@[i as int]));
                if sub0.to_set().contains(partition_id) {
                    let k = choose|k: int| 0 <= k < sub0.len() && sub0[k] == partition_id;
                    assert(partition_ids@[k] == partition_ids@[i as int]);
                }
                assert(self.parts().contains_key(partition_id));
                assert(n >= 1) by {
                    vstd::set_lib::lemma_set_empty_equivalency_len(self.parts().dom());
                }
                assert(n <= n * n) by (nonlinear_arith)
                    requires n >= 1;
                assert(2 * n <= 2 * n * n) by (nonlinear_arith)
                    requires n >= 1;
            }
            let ghost pre = self.parts();
            let partition = self.delete_partition(&partition_id);
            proof {
                reveal(partitions_wf);
                assert(partition.id == partition_id);
                assert(cp.contains(partition_id));
                assert(pre[partition_id].chunk_idx == ps0[partition_id].chunk_idx);
                assert(self.parts().dom() =~= ps0.dom().difference(partition_ids@.subrange(0, i as int + 1).to_set()));
                assert(self.parts().len() == n - 1);
                let m = (n - 1) as nat;
                assert(self.last_region_id() <= lr + n);
                assert(lr + n + m * m <= lr + n * n) by (nonlinear_arith)
                    requires n >= 1, m == n - 1;
                assert(lg + 2 * n + 2 * m * m <= lg + 2 * n * n) by (nonlinear_arith)
                    requires n >= 1, m == n - 1;
            }
            let ghost removed0 = removed@;
            let ghost pchunk = partition.chunk_idx;
            removed.push(partition);
            proof {
                assert(removed@[i as int].id == partition_ids@[i as int]);
                assert(ps0[partition_id].chunk_idx == chunk_idx);
                assert(pchunk == chunk_idx);
                assert(removed@[i as int].chunk_idx == chunk_idx);
                assert forall|k: int| 0 <= k < i + 1 implies (#[trigger] removed@[k]).id == partition_ids@[k] && removed@[k].chunk_idx == chunk_idx by {
                    if k < i {
                        assert(removed@[k] == removed0[k]);
                    }
                }
            }
            i = i + 1;
        }
        proof {
            assert(partition_ids@.subrange(0, partition_ids@.len() as int) == partition_ids@);
            assert forall|p: u32| #[trigger] cp.contains(p) implies exists|k: int| 0 <= k < removed.len() && removed@[k].id == p by {
                let k = choose|k: int| 0 <= k < partition_ids@.len() && partition_ids@[k] == p;
                assert(removed@[k].id == partition_ids@[k]);
            }
            assert forall|k: int| 0 <= k < removed.len() implies #[trigger] removed@[k].chunk_idx == chunk_idx && cp.contains(removed@[k].id) by {
                assert(removed@[k].id == partition_ids@[k]);
            }
            assert forall|a: int, b: int| 0 <= a < removed.len() && 0 <= b < removed.len() && a != b implies #[trigger] removed@[a].id != #[trigger] removed@[b].id by {
                assert(removed@[a].id == partition_ids@[a]);
                assert(removed@[b].id == partition_ids@[b]);
            }
        }
        removed
    }
}

impl NavigationGraph {
    /// Partition `id`, to change in place. What the caller changes is all that changes.
    pub fn get_partition_mut(&mut self, id: &u32) -> (r: Option<&mut Partition>)
        ensures
            match r {
                Some(p) => old(self).parts().contains_key(*id) && *p == old(self).parts()[*id] && final(self).parts()
                    == old(self).parts().insert(*id, *final(p)),
                None => !old(self).parts().contains_key(*id) && final(self).parts() == old(self).parts(),
            },
            final(self).regs() == old(self).regs(),
            final(self).grps() == old(self).grps(),
            final(self).group_type_bits() == old(self).group_type_bits(),
            final(self).last_partition_id() == old(self).last_partition_id(),
            final(self).last_region_id() == old(self).last_region_id(),
            final(self).last_group_id() == old(self).last_group_id(),
    {
        self.partitions.get_mut(*id)
    }

    /// Region `id`, to change in place. What the caller changes is all that changes.
    pub fn get_region_mut(&mut self, id: &u32) -> (r: Option<&mut Region>)
        ensures
            match r {
                Some(g) => old(self).regs().contains_key(*id) && *g == old(self).regs()[*id] && final(self).regs()
                    == old(self).regs().insert(*id, *final(g)),
                None => !old(self).regs().contains_key(*id) && final(self).regs() == old(self).regs(),
            },
            final(self).parts() == old(self).parts(),
            final(self).grps() == old(self).grps(),
            final(self).group_type_bits() == old(self).group_type_bits(),
            final(self).last_partition_id() == old(self).last_partition_id(),
            final(self).last_region_id() == old(self).last_region_id(),
            final(self).last_group_id() == old(self).last_group_id(),
    {
        self.regions.get_mut(*id)
    }

    /// Navigation group `id`, to change in place. What the caller changes is all that
    /// changes.
    pub fn get_group_mut(&mut self, id: &u32) -> (r: Option<&mut NavigationGroup>)
        ensures
            match r {
                Some(g) => old(self).grps().contains_key(*id) && *g == old(self).grps()[*id] && final(self).grps()
                    == old(self).grps().insert(*id, *final(g)),
                None => !old(self).grps().contains_key(*id) && final(self).grps() == old(self).grps(),
            },
            final(self).parts() == old(self).parts(),
            final(self).regs() == old(self).regs(),
            final(self).group_type_bits() == old(self).group_type_bits(),
            final(self).last_partition_id() == old(self).last_partition_id(),
            final(self).last_region_id() == old(self).last_region_id(),
            final(self).last_group_id() == old(self).last_group_id(),
    {
        self.groups.get_mut(*id)
    }
}


impl Default for NavigationGraph {
    fn default() -> (r: Self)
        ensures
            r.wf(),
            r.parts().dom() == Set::<u32>::empty(),
            r.regs().dom() == Set::<u32>::empty(),
            r.grps().dom() == Set::<u32>::empty(),
            r.last_partition_id() == 0,
            r.last_region_id() == 0,
            r.last_group_id() == 0,
    {
        let mut group_types = IdSet::new();
        group_types.insert(NavigationFlags::colonist().bits() as u32);
        group_types.insert(NavigationFlags::cat().bits() as u32);
        let r = NavigationGraph {
            partitions: PartitionMap::new(),
            regions: RegionMap::new(),
            groups: GroupMap::new(),
            group_types,
            cur_partition_id: 0,
            cur_region_id: 0,
            cur_group_id: 0,
        };
        proof {
            reveal(regions_wf);
            reveal(partitions_wf);
            assert(r.group_type_bits() =~= set![6u32, 1u32]);
            assert(r.parts() =~= Map::empty());
            assert(r.regs() =~= Map::empty());
            assert(r.grps() =~= Map::empty());
        }
        r
    }
}

} // verus!
