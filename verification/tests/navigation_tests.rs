use colony::colonists::falling::find_landing;
use colony::colonists::partition_flags::PartitionFlags;
use colony::colonists::partitioning::hash_collections::IdSet;
use colony::colonists::partitioning::navigation_flags::NavigationFlags;
use colony::colonists::partitioning::navigation_graph::NavigationGraph;
use colony::colonists::partitioning::partition::Partition;
use colony::colonists::partitioning::partition_debug::{partition_debug, DebugHighlight, PartitionDebug};
use colony::colonists::partitioning::partition_extents::PartitionExtents;
use colony::colonists::partitioning::partitioner::{flood_cell, flood_continues, FloodCell};
use colony::colonists::pathfinding::{
    at_goal, is_reachable, move_check, move_leg, move_route, move_tick, MoveStep, Path, PartitionPath, PathProgress,
};

fn tall() -> NavigationFlags {
    NavigationFlags::tall()
}

fn sorted(s: &IdSet) -> Vec<u32> {
    let mut v = s.to_vec();
    v.sort();
    v
}

#[test]
fn flags_behave_like_bit_sets() {
    assert_eq!(NavigationFlags::colonist().bits(), 6);
    assert_eq!(NavigationFlags::cat(), NavigationFlags::solid_ground());
    assert!(NavigationFlags::colonist().contains(tall()));
    assert!(!tall().contains(NavigationFlags::colonist()));
    assert!(NavigationFlags::colonist().intersects(NavigationFlags::ladder()));
    assert!(!NavigationFlags::cat().intersects(NavigationFlags::colonist()));
    assert!(NavigationFlags::none().is_empty());
    assert_eq!(tall().union(NavigationFlags::ladder()), NavigationFlags::colonist());
    assert_eq!(NavigationFlags::colonist().intersection(tall()), tall());
    assert_eq!(PartitionFlags::tall().bits, 4);
    assert_eq!(PartitionFlags::none().bits, 0);
}

#[test]
fn extents_grow_around_their_cells() {
    let mut e = PartitionExtents::default();
    assert_eq!(e.center(), [0, 0, 0]);
    e.extend([4, 5, 6]);
    assert_eq!((e.min_x, e.max_x, e.min_y, e.max_y), (4, 4, 5, 5));
    e.extend([10, 1, 6]);
    assert_eq!((e.min_x, e.max_x, e.min_y, e.max_y, e.min_z, e.max_z), (4, 10, 1, 5, 6, 6));
    assert_eq!(e.center(), [7, 3, 6]);
    let mut p = Partition::new(3, 1, 0, tall());
    p.assign_block(12, [2, 2, 2]);
    assert!(p.blocks.to_vec().contains(&12));
    assert_eq!(p.extents.center(), [2, 2, 2]);
    assert!(!p.is_computed);
}

#[test]
fn regions_get_one_group_per_kind_they_serve() {
    let mut g = NavigationGraph::default();
    let r1 = g.create_region(tall());
    assert_eq!(r1, 1);
    assert_eq!(g.get_region(&r1).unwrap().group_ids.len(), 1);
    let r2 = g.create_region(NavigationFlags { bits: 7 });
    assert_eq!(r2, 2);
    assert_eq!(sorted(&g.get_region(&r2).unwrap().group_ids), vec![2, 3]);
    let r3 = g.create_region(NavigationFlags::none());
    assert_eq!(g.get_region(&r3).unwrap().group_ids.len(), 0);
    let p = g.create_partition(r2, 5, NavigationFlags { bits: 7 });
    assert_eq!(p, 1);
    assert_eq!(g.get_partition(&p).unwrap().chunk_idx, 5);
    assert_eq!(sorted(&g.get_group_ids_for_partition(&p)), vec![2, 3]);
    assert_eq!(g.get_groups_for_partition(&p).len(), 2);
    assert_eq!(g.get_group_ids_for_partition(&99).len(), 0);
    assert!(g.get_partition(&99).is_none());
}

#[test]
fn neighbors_with_the_same_flags_merge_their_regions() {
    let mut g = NavigationGraph::default();
    let r1 = g.create_region(tall());
    let p1 = g.create_partition(r1, 0, tall());
    let r2 = g.create_region(tall());
    let p2 = g.create_partition(r2, 0, tall());
    let merged = g.set_partition_neighbors(&p1, &p2);
    assert_eq!(merged, Some(r2));
    assert!(g.get_region(&r1).is_none());
    assert_eq!(g.get_partition(&p1).unwrap().region_id, r2);
    assert_eq!(sorted(&g.get_region(&r2).unwrap().partition_ids), vec![p1, p2]);
    assert!(g.get_partition(&p1).unwrap().neighbor_ids.to_vec().contains(&p2));
    assert!(g.get_partition(&p2).unwrap().neighbor_ids.to_vec().contains(&p1));
    assert!(g.get_group(&1).is_none());
}

#[test]
fn neighbors_with_other_flags_link_their_regions() {
    let mut g = NavigationGraph::default();
    let r1 = g.create_region(NavigationFlags { bits: 7 });
    let p1 = g.create_partition(r1, 0, NavigationFlags { bits: 7 });
    let r2 = g.create_region(NavigationFlags::cat());
    let p2 = g.create_partition(r2, 0, NavigationFlags::cat());
    assert_eq!(g.set_partition_neighbors(&p1, &p2), None);
    assert!(g.get_region(&r1).unwrap().neighbor_ids.to_vec().contains(&r2));
    assert!(g.get_region(&r2).unwrap().neighbor_ids.to_vec().contains(&r1));
    let shared: Vec<u32> = sorted(&g.get_group_ids_for_partition(&p1))
        .into_iter()
        .filter(|id| g.get_group_ids_for_partition(&p2).to_vec().contains(id))
        .collect();
    assert_eq!(shared.len(), 1);
    assert_eq!(g.get_group(&shared[0]).unwrap().flags, NavigationFlags::cat());
    assert!(is_reachable(&g, Some(p1), &vec![None, Some(p2)], NavigationFlags::cat()));
    assert!(!is_reachable(&g, Some(p1), &vec![Some(p2)], NavigationFlags::colonist()));
    assert!(!is_reachable(&g, None, &vec![Some(p2)], NavigationFlags::cat()));
    assert!(!is_reachable(&g, Some(p1), &vec![None], NavigationFlags::cat()));
}

#[test]
fn merging_groups_keeps_the_bigger_one() {
    let mut g = NavigationGraph::default();
    let r1 = g.create_region(NavigationFlags::cat());
    let r2 = g.create_region(NavigationFlags::cat());
    let r3 = g.create_region(NavigationFlags::cat());
    g.set_region_neighbors(&r1, &r2);
    let kept = sorted(&g.get_region(&r1).unwrap().group_ids)[0];
    assert_eq!(g.get_group(&kept).unwrap().region_ids.len(), 2);
    let g3 = sorted(&g.get_region(&r3).unwrap().group_ids)[0];
    assert_eq!(g.merge_groups(&g3, &kept), kept);
    assert!(g.get_group(&g3).is_none());
    assert_eq!(sorted(&g.get_group(&kept).unwrap().region_ids), vec![r1, r2, r3]);
}

#[test]
fn deleting_a_partition_splits_its_region() {
    let mut g = NavigationGraph::default();
    let r = g.create_region(tall());
    let a = g.create_partition(r, 0, tall());
    let b = g.create_partition(r, 1, tall());
    let c = g.create_partition(r, 2, tall());
    assert_eq!(g.set_partition_neighbors(&a, &b), None);
    assert_eq!(g.set_partition_neighbors(&b, &c), None);
    let removed = g.delete_partition(&b);
    assert_eq!(removed.id, b);
    assert!(g.get_partition(&b).is_none());
    let ra = g.get_partition(&a).unwrap().region_id;
    let rc = g.get_partition(&c).unwrap().region_id;
    assert_ne!(ra, rc);
    assert!(ra == r || rc == r);
    assert_eq!(sorted(&g.get_region(&ra).unwrap().partition_ids), vec![a]);
    assert_eq!(sorted(&g.get_region(&rc).unwrap().partition_ids), vec![c]);
    assert_eq!(g.get_partition(&a).unwrap().neighbor_ids.len(), 0);
    assert!(!is_reachable(&g, Some(a), &vec![Some(c)], tall()));
}

#[test]
fn deleting_the_last_partition_drops_the_region() {
    let mut g = NavigationGraph::default();
    let r = g.create_region(tall());
    let a = g.create_partition(r, 4, tall());
    let b = g.create_partition(r, 5, tall());
    let removed = g.delete_partitions_for_chunk(4);
    assert_eq!(removed.len(), 1);
    assert_eq!(removed[0].id, a);
    assert!(g.get_region(&r).is_some());
    g.delete_partition(&b);
    assert!(g.get_region(&r).is_none());
    assert!(g.get_group(&1).is_none());
}

#[test]
fn landing_search_prefers_the_nearest_cell_below() {
    let mut g = NavigationGraph::default();
    let r = g.create_region(tall());
    let p = g.create_partition(r, 0, tall());
    let r2 = g.create_region(NavigationFlags::cat());
    let q = g.create_partition(r2, 0, NavigationFlags::cat());
    let column = vec![None, Some(p), None, None, None, Some(q), None];
    assert_eq!(find_landing(&g, &column, 3, 7, None), Some(1));
    assert_eq!(find_landing(&g, &column, 4, 7, None), Some(6));
    assert_eq!(find_landing(&g, &column, 4, 7, Some(tall())), Some(1));
    assert_eq!(find_landing(&g, &column, 3, 7, Some(NavigationFlags::cat())), Some(6));
    assert_eq!(find_landing(&g, &vec![None; 4], 2, 4, None), None);
}

#[test]
fn following_a_path() {
    let mut path = Path::from_partition_path(
        PartitionPath { path: vec![7, 8, 9], goals: vec![[5, 0, 5], [6, 0, 5]], flags: tall() },
        tall(),
    );
    assert_eq!(path.current_partition_idx, 1);
    assert_eq!(path.next_partition_id(), Some(&7));
    assert_eq!(path.begin_step([5, 0, 5], Some(9)), PathProgress::Arrived);
    assert_eq!(path.current_partition_idx, 1);
    assert_eq!(path.begin_step([1, 0, 1], Some(9)), PathProgress::NeedBlocks);
    assert_eq!(path.current_partition_idx, 2);
    assert_eq!(path.next_partition_id(), Some(&8));
    path.load_blocks(vec![[3, 0, 3], [2, 0, 2], [1, 0, 1]]);
    assert_eq!(path.current_block_idx, 2);
    assert_eq!(path.advance_block(), [2, 0, 2]);
    assert_eq!(path.next_block(), Some(&[3, 0, 3]));
    assert_eq!(path.begin_step([2, 0, 2], None), PathProgress::Continue);
    assert_eq!(path.advance_block(), [3, 0, 3]);
    assert_eq!(path.next_block(), Some(&[3, 0, 3]));
    assert!(at_goal(&vec![[1, 2, 3]], [1, 2, 3]));
    assert!(!at_goal(&vec![[1, 2, 3]], [1, 2, 4]));
}

#[test]
fn debugging_a_partition_draws_its_surroundings() {
    let mut g = NavigationGraph::default();
    let r1 = g.create_region(tall());
    let p1 = g.create_partition(r1, 0, tall());
    let p2 = g.create_partition(r1, 1, tall());
    let r2 = g.create_region(NavigationFlags::cat());
    let p3 = g.create_partition(r2, 0, NavigationFlags::cat());
    g.set_partition_neighbors(&p2, &p3);
    let r3 = g.create_region(NavigationFlags::cat());
    let _far = g.create_partition(r3, 2, NavigationFlags::cat());

    let mut debug = PartitionDebug { partition_id: Some(p1) };
    let mut drawn = partition_debug(&g, &mut debug);
    drawn.sort_by_key(|(id, _)| *id);
    assert_eq!(
        drawn,
        vec![(p1, DebugHighlight::Selected), (p2, DebugHighlight::SameRegion), (p3, DebugHighlight::NeighborRegion)]
    );
    assert_eq!(debug.partition_id, Some(p1));

    let mut off = PartitionDebug { partition_id: None };
    assert!(partition_debug(&g, &mut off).is_empty());

    let mut gone = PartitionDebug { partition_id: Some(99) };
    assert!(partition_debug(&g, &mut gone).is_empty());
    assert_eq!(gone.partition_id, None);
}

#[test]
fn moving_along_a_route_step_by_step() {
    let flags = NavigationFlags::colonist();
    let mut route: Option<Path> = None;
    assert_eq!(move_tick(&mut route, false, [0, 0, 0], Some(7)), MoveStep::Failed);
    assert_eq!(move_tick(&mut route, true, [0, 0, 0], Some(7)), MoveStep::FindRoute);
    assert_eq!(move_route(&mut route, None, flags, [0, 0, 0], Some(7)), MoveStep::Failed);
    assert!(route.is_none());

    let found = PartitionPath { path: vec![5, 7], goals: vec![[3, 0, 0]], flags };
    assert_eq!(move_route(&mut route, Some(found), flags, [0, 0, 0], Some(7)), MoveStep::FindLeg(Some(5)));
    assert_eq!(route.as_ref().unwrap().current_partition_idx, 1);

    let mut path = route.take().unwrap();
    assert_eq!(move_leg(&mut path, None), MoveStep::Failed);
    let leg = vec![[3, 0, 0], [2, 0, 0], [1, 0, 0], [0, 0, 0]];
    assert_eq!(move_leg(&mut path, Some(leg)), MoveStep::CheckCell([2, 0, 0]));
    assert_eq!(path.current_block_idx, 2);
    assert_eq!(move_check(&path, NavigationFlags::none()), MoveStep::Failed);
    assert_eq!(move_check(&path, NavigationFlags::tall()), MoveStep::Move([1, 0, 0]));

    route = Some(path);
    assert_eq!(move_tick(&mut route, true, [1, 0, 0], Some(5)), MoveStep::CheckCell([3, 0, 0]));
    assert_eq!(route.as_ref().unwrap().current_partition_idx, 0);
    assert_eq!(move_tick(&mut route, true, [3, 0, 0], Some(5)), MoveStep::Arrived);
    assert!(route.is_none());
}

#[test]
fn flood_handles_each_kind_of_cell() {
    let t = tall();
    let c = NavigationFlags::cat();
    let none = NavigationFlags::none();
    assert_eq!(flood_cell(true, true, None, 1, t, t, true), FloodCell::Stop);
    assert_eq!(flood_cell(false, true, Some(1), 1, t, t, true), FloodCell::Seed);
    assert_eq!(flood_cell(false, false, Some(1), 1, t, t, true), FloodCell::Stop);
    assert_eq!(flood_cell(false, false, Some(2), 1, none, t, true), FloodCell::Stop);
    assert_eq!(flood_cell(false, false, Some(2), 1, c, t, true), FloodCell::Link(2));
    assert_eq!(flood_cell(false, false, Some(2), 1, t, t, false), FloodCell::Link(2));
    assert_eq!(flood_cell(false, false, Some(2), 1, t, t, true), FloodCell::Merge(2));
    assert_eq!(flood_cell(false, false, None, 1, none, t, true), FloodCell::Stop);
    assert_eq!(flood_cell(false, false, None, 1, c, t, false), FloodCell::NewRegion);
    assert_eq!(flood_cell(false, false, None, 1, t, t, false), FloodCell::NewPartition);
    assert_eq!(flood_cell(false, false, None, 1, t, t, true), FloodCell::Claim);
    assert!(flood_continues(FloodCell::Claim) && flood_continues(FloodCell::Merge(2)) && flood_continues(FloodCell::Seed));
    assert!(!flood_continues(FloodCell::Link(2)) && !flood_continues(FloodCell::NewRegion) && !flood_continues(FloodCell::Stop));
}

#[test]
fn merging_regions_of_other_flags_moves_the_partitions() {
    let mut g = NavigationGraph::default();
    let r1 = g.create_region(tall());
    let p1 = g.create_partition(r1, 0, tall());
    let r2 = g.create_region(NavigationFlags::cat());
    let p2 = g.create_partition(r2, 0, NavigationFlags::cat());
    assert_eq!(g.merge_regions(&r1, &r2), r2);
    assert!(g.get_region(&r1).is_none());
    assert_eq!(g.get_partition(&p1).unwrap().region_id, r2);
    assert_eq!(g.get_partition(&p2).unwrap().region_id, r2);
    assert_eq!(sorted(&g.get_region(&r2).unwrap().partition_ids), vec![p1, p2]);
    assert_eq!(g.get_partition(&p1).unwrap().flags, tall());
}
