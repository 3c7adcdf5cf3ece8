use vstd::prelude::*;

use super::hash_collections::id_set_items;
use super::navigation_graph::{partitions_wf, regions_wf, rnbrs, rparts, NavigationGraph};
use super::region::Region;

verus! {

broadcast use vstd::seq_lib::lemma_seq_contains_after_push;

/// The partition whose surroundings are drawn for debugging, if any.
#[derive(Default)]
pub struct PartitionDebug {
    pub partition_id: Option<u32>,
}

/// How a partition is highlighted when the surroundings of the debugged partition are
/// drawn.
#[derive(Clone, Copy, PartialEq, Eq, Debug, Structural)]
pub enum DebugHighlight {
    /// The debugged partition itself.
    Selected,
    /// Another partition of its region.
    SameRegion,
    /// A partition of a neighboring region.
    NeighborRegion,
}

/// The highlight of partition `p` of the debugged partition's own region.
pub open spec fn own_highlight(id: u32, p: u32) -> DebugHighlight {
    if p == id {
        DebugHighlight::Selected
    } else {
        DebugHighlight::SameRegion
    }
}

/// `q` is a partition of one of the regions `ns`.
pub open spec fn in_some_region(rs: Map<u32, Region>, ns: Seq<u32>, q: u32) -> bool {
    exists|j: int| 0 <= j < ns.len() && #[trigger] rparts(rs, ns[j]).contains(q)
}

/// What is drawn around partition `id`: the partition itself, the other partitions of
/// its region, and the partitions of the neighboring regions, each with its highlight.
pub open spec fn is_debug_target(g: NavigationGraph, id: u32, e: (u32, DebugHighlight)) -> bool {
    let reg = g.parts()[id].region_id;
    match e.1 {
        DebugHighlight::Selected => e.0 == id,
        DebugHighlight::SameRegion => e.0 != id && rparts(g.regs(), reg).contains(e.0),
        DebugHighlight::NeighborRegion => exists|n: u32|
            #[trigger] rnbrs(g.regs(), reg).contains(n) && rparts(g.regs(), n).contains(e.0),
    }
}

/// Going one region further in `ns` adds that region's partitions.
proof fn lemma_in_some_region_step(rs: Map<u32, Region>, ns: Seq<u32>, j: int, q: u32)
    requires
        0 <= j < ns.len(),
    ensures
        in_some_region(rs, ns.subrange(0, j + 1), q) <==> in_some_region(rs, ns.subrange(0, j), q)
            || rparts(rs, ns[j]).contains(q),
{
    let a = ns.subrange(0, j);
    let b = ns.subrange(0, j + 1);
    if in_some_region(rs, b, q) {
        let k = choose|k: int| 0 <= k < b.len() && #[trigger] rparts(rs, b[k]).contains(q);
        if k < j {
            assert(a[k] == b[k]);
            assert(rparts(rs, a[k]).contains(q));
        }
    }
    if in_some_region(rs, a, q) {
        let k = choose|k: int| 0 <= k < a.len() && #[trigger] rparts(rs, a[k]).contains(q);
        assert(b[k] == a[k]);
        assert(rparts(rs, b[k]).contains(q));
    }
    if rparts(rs, ns[j]).contains(q) {
        assert(b[j] == ns[j]);
        assert(rparts(rs, b[j]).contains(q));
    }
}

/// The partitions to draw around the debugged partition, each with its highlight: the
/// partition itself, the other partitions of its region and those of its neighboring
/// regions. When the debugged partition no longer exists, debugging stops and nothing
/// is drawn.
pub fn partition_debug(graph: &NavigationGraph, debug: &mut PartitionDebug) -> (r: Vec<(u32, DebugHighlight)>)
    requires
        graph.wf(),
    ensures
        match old(debug).partition_id {
            None => final(debug).partition_id == old(debug).partition_id && r@.len() == 0,
            Some(id) => if graph.parts().contains_key(id) {
                &&& final(debug).partition_id == Some(id)
                &&& forall|e: (u32, DebugHighlight)| #[trigger] r@.contains(e) <==> is_debug_target(*graph, id, e)
            } else {
                final(debug).partition_id == None::<u32> && r@.len() == 0
            },
        },
        forall|i: int| 0 <= i < r.len() ==> graph.parts().contains_key(#[trigger] r[i].0),
{
    let id = match debug.partition_id {
        Some(id) => id,
        None => {
            return Vec::new();
        },
    };
    let partition = match graph.get_partition(&id) {
        Some(p) => p,
        None => {
            debug.partition_id = None;
            return Vec::new();
        },
    };
    proof {
        reveal(partitions_wf);
        reveal(regions_wf);
    }
    let ghost rs = graph.regs();
    let ghost reg = partition.region_id;
    let region = graph.get_region(&partition.region_id).unwrap();
    let mut out: Vec<(u32, DebugHighlight)> = Vec::new();
    let own = region.partition_ids.to_vec();
    let mut i: usize = 0;
    while i < own.len()
        invariant
            i <= own.len(),
            own@.to_set() == rparts(rs, reg),
            forall|e: (u32, DebugHighlight)|
                #[trigger] out@.contains(e) <==> own@.subrange(0, i as int).contains(e.0) && e.1
                    == own_highlight(id, e.0),
        decreases own.len() - i,
    {
        let p = own[i];
        if p == id {
            out.push((p, DebugHighlight::Selected));
        } else {
            out.push((p, DebugHighlight::SameRegion));
        }
        proof {
            assert(own@.subrange(0, i + 1) =~= own@.subrange(0, i as int).push(p));
        }
        i += 1;
    }
    proof {
        assert(own@.subrange(0, own.len() as int) =~= own@);
    }
    let nbrs = region.neighbor_ids.to_vec();
    let mut j: usize = 0;
    while j < nbrs.len()
        invariant
            j <= nbrs.len(),
            graph.wf(),
            rs == graph.regs(),
            rs.contains_key(reg),
            nbrs@.to_set() == rnbrs(rs, reg),
            forall|e: (u32, DebugHighlight)|
                #[trigger] out@.contains(e) <==> (own@.contains(e.0) && e.1 == own_highlight(id, e.0))
                    || (e.1 == DebugHighlight::NeighborRegion && in_some_region(rs, nbrs@.subrange(0, j as int), e.0)),
        decreases nbrs.len() - j,
    {
        proof {
            reveal(regions_wf);
            assert(nbrs@.to_set().contains(nbrs@[j as int]));
        }
        let n = nbrs[j];
        let neighbor = graph.get_region(&n).unwrap();
        let parts = neighbor.partition_ids.to_vec();
        let mut k: usize = 0;
        while k < parts.len()
            invariant
                k <= parts.len(),
                j < nbrs.len(),
                n == nbrs@[j as int],
                forall|e: (u32, DebugHighlight)|
                    #[trigger] out@.contains(e) <==> (own@.contains(e.0) && e.1 == own_highlight(id, e.0))
                        || (e.1 == DebugHighlight::NeighborRegion && in_some_region(rs, nbrs@.subrange(0, j as int), e.0))
                        || (e.1 == DebugHighlight::NeighborRegion && parts@.subrange(0, k as int).contains(e.0)),
            decreases parts.len() - k,
        {
            let q = parts[k];
            out.push((q, DebugHighlight::NeighborRegion));
            proof {
                assert(parts@.subrange(0, k + 1) =~= parts@.subrange(0, k as int).push(q));
            }
            k += 1;
        }
        proof {
            assert(parts@.subrange(0, parts.len() as int) =~= parts@);
            assert(parts@.to_set() == rparts(rs, n));
            assert forall|q: u32| #![auto]
                in_some_region(rs, nbrs@.subrange(0, j + 1), q) <==> in_some_region(rs, nbrs@.subrange(0, j as int), q)
                    || parts@.contains(q) by {
                lemma_in_some_region_step(rs, nbrs@, j as int, q);
                assert(parts@.contains(q) <==> parts@.to_set().contains(q));
            }
        }
        j += 1;
    }
    proof {
        assert(nbrs@.subrange(0, nbrs.len() as int) =~= nbrs@);
        let g = *graph;
        assert forall|e: (u32, DebugHighlight)| #[trigger] out@.contains(e) <==> is_debug_target(g, id, e) by {
            assert(own@.contains(e.0) <==> own@.to_set().contains(e.0));
            assert(rparts(rs, reg).contains(id));
            if e.1 == DebugHighlight::NeighborRegion {
                if in_some_region(rs, nbrs@, e.0) {
                    let w = choose|w: int| 0 <= w < nbrs@.len() && #[trigger] rparts(rs, nbrs@[w]).contains(e.0);
                    assert(nbrs@.to_set().contains(nbrs@[w]));
                    assert(rnbrs(rs, reg).contains(nbrs@[w]));
                }
                if is_debug_target(g, id, e) {
                    let n = choose|n: u32| #[trigger] rnbrs(rs, reg).contains(n) && rparts(rs, n).contains(e.0);
                    assert(nbrs@.to_set().contains(n));
                    let w = choose|w: int| 0 <= w < nbrs@.len() && nbrs@[w] == n;
                    assert(rparts(rs, nbrs@[w]).contains(e.0));
                }
            }
        }
        assert forall|x: int| 0 <= x < out.len() implies graph.parts().contains_key(#[trigger] out[x].0) by {
            assert(out@.contains(out@[x]));
            let e = out@[x];
            if e.1 == DebugHighlight::NeighborRegion {
                let n = choose|n: u32| #[trigger] rnbrs(rs, reg).contains(n) && rparts(rs, n).contains(e.0);
                assert(rs.contains_key(n));
            }
        }
    }
    out
}

} // verus!
