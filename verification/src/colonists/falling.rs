use vstd::prelude::*;

use super::partitioning::navigation_flags::NavigationFlags;
use super::partitioning::navigation_graph::NavigationGraph;

verus! {

/// Marks what falls when nothing holds it.
pub struct Faller;

/// Whether the cell at height `cy` of the column is one to land in: it lies in a
/// partition the graph knows, and that partition shares a flag with `flags` when those
/// are given. `column[k]` is the partition of the cell at height `k`; cells beyond the
/// column lie in none.
pub open spec fn can_land(graph: NavigationGraph, column: Seq<Option<u32>>, cy: int, flags: Option<NavigationFlags>) -> bool {
    &&& 0 <= cy < column.len()
    &&& column[cy] is Some
    &&& graph.parts().contains_key(column[cy]->0)
    &&& match flags {
        Some(f) => graph.parts()[column[cy]->0].flags.bits & f.bits != 0,
        None => true,
    }
}

/// Where something at height `y` falls to, searching outward from distance `d`: at each
/// distance, first the cell that far below (while that is above the floor), then the cell
/// that far above (while the distance is below the world's height `world_y`, landing on
/// top of it). The search ends once the distance reaches `world_y`.
pub open spec fn spec_landing(
    graph: NavigationGraph,
    column: Seq<Option<u32>>,
    y: int,
    world_y: int,
    flags: Option<NavigationFlags>,
    d: int,
) -> Option<int>
    decreases world_y - d,
{
    if d < y && can_land(graph, column, y - d, flags) {
        Some(y - d)
    } else if d < world_y {
        if can_land(graph, column, y + d, flags) {
            Some(y + d + 1)
        } else {
            spec_landing(graph, column, y, world_y, flags, d + 1)
        }
    } else {
        None
    }
}

/// The height a faller at height `y` comes down to, or `None` when no cell within the
/// world's height `world_y` takes it. `column[k]` is the partition of the cell at height
/// `k` of its column.
pub fn find_landing(graph: &NavigationGraph, column: &Vec<Option<u32>>, y: u32, world_y: u32, flags: Option<NavigationFlags>) -> (r: Option<u64>)
    ensures
        match spec_landing(*graph, column@, y as int, world_y as int, flags, 1) {
            Some(t) => r == Some(t as u64),
            None => r is None,
        },
{
    let mut delta_y: u32 = 0;
    loop
        invariant
            delta_y < world_y || delta_y == 0,
            spec_landing(*graph, column@, y as int, world_y as int, flags, delta_y as int + 1)
                == spec_landing(*graph, column@, y as int, world_y as int, flags, 1),
        decreases world_y - delta_y,
    {
        delta_y = delta_y + 1;
        if delta_y < y {
            let sub_y = y - delta_y;
            if (sub_y as usize) < column.len() {
                if let Some(partition_id) = column[sub_y as usize] {
                    if let Some(partition) = graph.get_partition(&partition_id) {
                        let flag_ok = match flags {
                            Some(f) => partition.flags.intersects(f),
                            None => true,
                        };
                        if flag_ok {
                            return Some(sub_y as u64);
                        }
                    }
                }
            }
        }
        if delta_y < world_y {
            let add_y = y as u64 + delta_y as u64;
            if add_y < column.len() as u64 {
                if let Some(partition_id) = column[add_y as usize] {
                    if let Some(partition) = graph.get_partition(&partition_id) {
                        let flag_ok = match flags {
                            Some(f) => partition.flags.intersects(f),
                            None => true,
                        };
                        if flag_ok {
                            return Some(add_y + 1);
                        }
                    }
                }
            }
        } else {
            return None;
        }
    }
}

/// Whether the cell at height `c` of the column takes a faller: the cell lies in a
/// partition of the graph, and that partition has at least one of the faller's flags set
/// when the faller has flags.
pub open spec fn lands_in(graph: NavigationGraph, column: Seq<Option<u32>>, c: int, flags: Option<NavigationFlags>) -> bool {
    0 <= c < column.len() && match column[c] {
        Some(p) => graph.parts().contains_key(p) && match flags {
            Some(f) => (graph.parts()[p].flags.bits & f.bits) != 0,
            None => true,
        },
        None => false,
    }
}

/// The cell `e` below height `y` takes the faller, `e` being less than `y`.
pub open spec fn lands_below(graph: NavigationGraph, column: Seq<Option<u32>>, y: int, flags: Option<NavigationFlags>, e: int) -> bool {
    e < y && lands_in(graph, column, y - e, flags)
}

/// The cell `e` above height `y` takes the faller, `e` being less than the world's height.
pub open spec fn lands_above(
    graph: NavigationGraph,
    column: Seq<Option<u32>>,
    y: int,
    world_y: int,
    flags: Option<NavigationFlags>,
    e: int,
) -> bool {
    e < world_y && lands_in(graph, column, y + e, flags)
}

/// How far from `y` the landing height `h` is: a cell below is landed in, a cell above
/// is landed on top of.
pub open spec fn landing_distance(y: int, h: int) -> int {
    if h < y {
        y - h
    } else {
        h - 1 - y
    }
}

proof fn lemma_landing_from(
    graph: NavigationGraph,
    column: Seq<Option<u32>>,
    y: int,
    world_y: int,
    flags: Option<NavigationFlags>,
    d: int,
)
    requires
        1 <= d,
        y <= world_y,
    ensures
        match spec_landing(graph, column, y, world_y, flags, d) {
            Some(h) => {
                let dist = landing_distance(y, h);
                &&& d <= dist
                &&& (h < y ==> lands_below(graph, column, y, flags, dist))
                &&& (h >= y ==> h == y + dist + 1 && lands_above(graph, column, y, world_y, flags, dist)
                    && !lands_below(graph, column, y, flags, dist))
                &&& forall|e: int|
                    #![trigger lands_below(graph, column, y, flags, e)]
                    #![trigger lands_above(graph, column, y, world_y, flags, e)]
                    d <= e < dist ==> !lands_below(graph, column, y, flags, e) && !lands_above(
                        graph,
                        column,
                        y,
                        world_y,
                        flags,
                        e,
                    )
            },
            None => forall|e: int|
                #![trigger lands_below(graph, column, y, flags, e)]
                #![trigger lands_above(graph, column, y, world_y, flags, e)]
                d <= e ==> !lands_below(graph, column, y, flags, e) && !lands_above(graph, column, y, world_y, flags, e),
        },
    decreases world_y - d,
{
    assert(can_land(graph, column, y - d, flags) == lands_in(graph, column, y - d, flags));
    assert(can_land(graph, column, y + d, flags) == lands_in(graph, column, y + d, flags));
    if d < y && can_land(graph, column, y - d, flags) {
    } else if d < world_y {
        if !can_land(graph, column, y + d, flags) {
            lemma_landing_from(graph, column, y, world_y, flags, d + 1);
        }
    }
}

/// A faller lands in the nearest cell that takes it: at the height returned, the cell
/// (below) or the cell under it (above) lies in a known partition that shares a flag with
/// the faller; no cell nearer takes it; at equal distance a cell below wins over one
/// above; and `None` comes only when no cell of the world's height takes it.
pub proof fn lemma_landing_is_nearest(
    graph: NavigationGraph,
    column: Seq<Option<u32>>,
    y: int,
    world_y: int,
    flags: Option<NavigationFlags>,
)
    requires
        y <= world_y,
    ensures
        match spec_landing(graph, column, y, world_y, flags, 1) {
            Some(h) => {
                let dist = landing_distance(y, h);
                &&& 1 <= dist
                &&& (h < y ==> lands_below(graph, column, y, flags, dist))
                &&& (h >= y ==> h == y + dist + 1 && lands_above(graph, column, y, world_y, flags, dist)
                    && !lands_below(graph, column, y, flags, dist))
                &&& forall|e: int|
                    #![trigger lands_below(graph, column, y, flags, e)]
                    #![trigger lands_above(graph, column, y, world_y, flags, e)]
                    1 <= e < dist ==> !lands_below(graph, column, y, flags, e) && !lands_above(
                        graph,
                        column,
                        y,
                        world_y,
                        flags,
                        e,
                    )
            },
            None => forall|e: int|
                #![trigger lands_below(graph, column, y, flags, e)]
                #![trigger lands_above(graph, column, y, world_y, flags, e)]
                1 <= e ==> !lands_below(graph, column, y, flags, e) && !lands_above(graph, column, y, world_y, flags, e),
        },
{
    lemma_landing_from(graph, column, y, world_y, flags, 1);
}

} // verus!
