use itertools::Itertools;
use vstd::prelude::*;

use super::partitioning::hash_collections::id_set_items;
use super::partitioning::navigation_flags::NavigationFlags;
use super::partitioning::navigation_graph::{contains_id, NavigationGraph};

verus! {

/// A route being followed: the partitions to pass through, then the cells to step on.
/// Both lists are walked from their end towards their start.
pub struct Path {
    pub partition_path: Vec<u32>,
    pub goals: Vec<[u32; 3]>,
    pub current_partition_idx: usize,
    pub flags: NavigationFlags,
    pub blocks: Vec<[i32; 3]>,
    pub current_block_idx: usize,
}

/// A request for the partitions that lead from `start` to one of `goals`.
#[derive(Clone)]
pub struct PartitionPathRequest {
    pub start: [u32; 3],
    pub goals: Vec<[u32; 3]>,
    pub flags: NavigationFlags,
}

/// A request for the cells that lead from `start` into partition `goal_partition_id`, or
/// onto one of `goals` when that is the partition of `start`.
pub struct GranularPathRequest {
    pub start: [u32; 3],
    pub goals: Vec<[u32; 3]>,
    pub goal_partition_id: u32,
    pub partition_path: Vec<u32>,
    pub flags: NavigationFlags,
}

/// The cells of a route.
pub struct GranularPath {
    pub blocks: Vec<[i32; 3]>,
}

/// The partitions of a route.
pub struct PartitionPath {
    pub path: Vec<u32>,
    pub goals: Vec<[u32; 3]>,
    pub flags: NavigationFlags,
}

/// The entry of `s` that is walked after entry `idx`: the one before it, or the first
/// one once `idx` is 0.
pub open spec fn spec_next_idx(idx: int) -> int {
    if idx > 0 { idx - 1 } else { 0 }
}

impl Path {
    /// The partition to head for next.
    pub fn next_partition_id(&self) -> (r: Option<&u32>)
        ensures
            ({
                let i = spec_next_idx(self.current_partition_idx as int);
                r == (if i < self.partition_path@.len() { Some(&self.partition_path@[i]) } else { None })
            }),
    {
        let i = if self.current_partition_idx > 0 { self.current_partition_idx - 1 } else { 0 };
        if i < self.partition_path.len() {
            Some(&self.partition_path[i])
        } else {
            None
        }
    }

    /// The cell to step on next.
    pub fn next_block(&self) -> (r: Option<&[i32; 3]>)
        ensures
            ({
                let i = spec_next_idx(self.current_block_idx as int);
                r == (if i < self.blocks@.len() { Some(&self.blocks@[i]) } else { None })
            }),
    {
        let i = if self.current_block_idx > 0 { self.current_block_idx - 1 } else { 0 };
        if i < self.blocks.len() {
            Some(&self.blocks[i])
        } else {
            None
        }
    }
}

/// Whether `pos` is one of `goals`.
pub fn at_goal(goals: &Vec<[u32; 3]>, pos: [u32; 3]) -> (r: bool)
    ensures
        r == goals@.contains(pos),
{
    let mut i: usize = 0;
    while i < goals.len()
        invariant
            0 <= i <= goals.len(),
            forall|k: int| 0 <= k < i ==> goals@[k] != pos,
        decreases goals.len() - i,
    {
        let g = goals[i];
        if g[0] == pos[0] && g[1] == pos[1] && g[2] == pos[2] {
            proof {
                assert(goals@[i as int] =~= pos);
            }
            return true;
        }
        proof {
            assert(goals@[i as int] != pos) by {
                if goals@[i as int] == pos {
                    assert(g[0] == pos[0]);
                }
            }
        }
        i = i + 1;
    }
    false
}

/// What following a path calls for next.
#[derive(Clone, Copy, PartialEq, Eq, Debug, Structural)]
pub enum PathProgress {
    /// The mover stands on a goal.
    Arrived,
    /// The cells of the current leg are used up: the next leg has to be found.
    NeedBlocks,
    /// The current leg still has cells to step on.
    Continue,
}

/// The first index of `id` in `s`, if it occurs.
pub open spec fn first_index(s: Seq<u32>, id: u32) -> Option<int> {
    if s.contains(id) {
        Some(choose|i: int| 0 <= i < s.len() && s[i] == id && forall|k: int| 0 <= k < i ==> s[k] != id)
    } else {
        None
    }
}

/// Where `id` first occurs in `v`.
fn first_position(v: &Vec<u32>, id: u32) -> (r: Option<usize>)
    ensures
        match first_index(v@, id) {
            Some(i) => r == Some(i as usize),
            None => r is None,
        },
{
    let mut i: usize = 0;
    while i < v.len()
        invariant
            0 <= i <= v.len(),
            forall|k: int| 0 <= k < i ==> v@[k] != id,
        decreases v.len() - i,
    {
        if v[i] == id {
            proof {
                let s = v@;
                assert(s.contains(id));
                let c = choose|c: int| 0 <= c < s.len() && s[c] == id && forall|k: int| 0 <= k < c ==> s[k] != id;
                assert(c == i);
            }
            return Some(i);
        }
        i = i + 1;
    }
    None
}

impl Path {
    /// A path along the partitions of `partition_path`, with no cells yet; the partition
    /// index starts at the last goal's index.
    pub fn from_partition_path(partition_path: PartitionPath, flags: NavigationFlags) -> (r: Path)
        requires
            partition_path.goals.len() > 0,
        ensures
            r.current_partition_idx == partition_path.goals.len() - 1,
            r.goals == partition_path.goals,
            r.partition_path == partition_path.path,
            r.flags == flags,
            r.blocks@.len() == 0,
            r.current_block_idx == 0,
    {
        Path {
            current_partition_idx: partition_path.goals.len() - 1,
            goals: partition_path.goals,
            partition_path: partition_path.path,
            flags,
            blocks: Vec::new(),
            current_block_idx: 0,
        }
    }

    /// Takes stock of a mover at `pos`, standing in partition `partition_id`: whether it
    /// has arrived, and otherwise moves the partition index to where that partition first
    /// occurs on the route (when it does) and tells whether the next leg is needed.
    pub fn begin_step(&mut self, pos: [u32; 3], partition_id: Option<u32>) -> (r: PathProgress)
        ensures
            final(self).goals == old(self).goals,
            final(self).partition_path == old(self).partition_path,
            final(self).flags == old(self).flags,
            final(self).blocks == old(self).blocks,
            final(self).current_block_idx == old(self).current_block_idx,
            old(self).goals@.contains(pos) ==> r == PathProgress::Arrived && final(self).current_partition_idx == old(self).current_partition_idx,
            !old(self).goals@.contains(pos) ==> {
                &&& final(self).current_partition_idx == (match partition_id {
                    Some(id) => match first_index(old(self).partition_path@, id) {
                        Some(i) => i as usize,
                        None => old(self).current_partition_idx,
                    },
                    None => old(self).current_partition_idx,
                })
                &&& r == (if old(self).current_block_idx == 0 { PathProgress::NeedBlocks } else { PathProgress::Continue })
            },
    {
        if at_goal(&self.goals, pos) {
            return PathProgress::Arrived;
        }
        if let Some(id) = partition_id {
            if let Some(i) = first_position(&self.partition_path, id) {
                self.current_partition_idx = i;
            }
        }
        if self.current_block_idx == 0 {
            PathProgress::NeedBlocks
        } else {
            PathProgress::Continue
        }
    }

    /// Starts a new leg on the cells `blocks`: they are walked from their end.
    pub fn load_blocks(&mut self, blocks: Vec<[i32; 3]>)
        requires
            blocks.len() >= 2,
        ensures
            final(self).blocks@ == blocks@,
            final(self).current_block_idx == blocks.len() - 1,
            final(self).goals == old(self).goals,
            final(self).partition_path == old(self).partition_path,
            final(self).flags == old(self).flags,
            final(self).current_partition_idx == old(self).current_partition_idx,
    {
        self.current_block_idx = blocks.len() - 1;
        self.blocks = blocks;
    }

    /// Moves on to the next cell of the current leg and hands it back.
    pub fn advance_block(&mut self) -> (r: [i32; 3])
        requires
            old(self).current_block_idx > 0,
            old(self).current_block_idx <= old(self).blocks.len(),
        ensures
            final(self).current_block_idx == old(self).current_block_idx - 1,
            r == old(self).blocks@[old(self).current_block_idx - 1],
            final(self).blocks == old(self).blocks,
            final(self).goals == old(self).goals,
            final(self).partition_path == old(self).partition_path,
            final(self).flags == old(self).flags,
            final(self).current_partition_idx == old(self).current_partition_idx,
    {
        self.current_block_idx = self.current_block_idx - 1;
        self.blocks[self.current_block_idx]
    }
}

/// `s` without the entries that already occurred earlier in it.
pub open spec fn spec_unique(s: Seq<u32>) -> Seq<u32>
    decreases s.len(),
{
    if s.len() == 0 {
        s
    } else {
        let front = spec_unique(s.drop_last());
        if front.contains(s.last()) {
            front
        } else {
            front.push(s.last())
        }
    }
}

/// `itertools::Itertools::unique`: keeps the first occurrence of each id, in order.
#[verifier::external_body]
fn unique_ids(ids: Vec<u32>) -> (r: Vec<u32>)
    ensures
        r@ == spec_unique(ids@),
{
    ids.into_iter().unique().collect()
}

/// The partitions each present goal lies in, each once.
pub open spec fn goal_partitions(goals: Seq<Option<u32>>) -> Seq<u32>
    decreases goals.len(),
{
    if goals.len() == 0 {
        Seq::empty()
    } else {
        goal_partitions(goals.drop_last()) + match goals.last() {
            Some(p) => seq![p],
            None => Seq::empty(),
        }
    }
}

/// The navigation groups of the partition `start` that a body with `flags` can use.
pub open spec fn usable_groups(graph: NavigationGraph, start: u32, flags: NavigationFlags) -> Set<u32> {
    graph.partition_group_ids(start).filter(
        |g: u32| graph.grps().contains_key(g) && graph.grps()[g].flags.bits & flags.bits == flags.bits,
    )
}

/// Whether a body with `flags` in partition `start` shares a navigation group with some
/// goal partition: whether it can reach that goal.
pub open spec fn spec_reachable(graph: NavigationGraph, start: Option<u32>, goals: Seq<Option<u32>>, flags: NavigationFlags) -> bool {
    match start {
        None => false,
        Some(s) => exists|i: int|
            0 <= i < goals.len() && #[trigger] goals[i] is Some && !graph.partition_group_ids(goals[i]->0).intersect(
                usable_groups(graph, s, flags),
            ).is_empty(),
    }
}

proof fn lemma_unique_same_items(s: Seq<u32>)
    ensures
        spec_unique(s).to_set() == s.to_set(),
    decreases s.len(),
{
    if s.len() > 0 {
        lemma_unique_same_items(s.drop_last());
        let front = spec_unique(s.drop_last());
        assert(s == s.drop_last().push(s.last()));
        s.drop_last().lemma_push_to_set_commute(s.last());
        front.lemma_push_to_set_commute(s.last());
        if front.contains(s.last()) {
            assert(front.to_set().contains(s.last()));
            assert(s.to_set() =~= front.to_set());
        }
    } else {
        assert(s.to_set() =~= Set::<u32>::empty());
    }
}

proof fn lemma_goal_partitions(goals: Seq<Option<u32>>)
    ensures
        forall|p: u32| goal_partitions(goals).contains(p) <==> exists|i: int| 0 <= i < goals.len() && #[trigger] goals[i] == Some(p),
    decreases goals.len(),
{
    if goals.len() > 0 {
        let front = goals.drop_last();
        lemma_goal_partitions(front);
        assert forall|p: u32| goal_partitions(goals).contains(p) <==> exists|i: int| 0 <= i < goals.len() && #[trigger] goals[i] == Some(p) by {
            let tail: Seq<u32> = match goals.last() {
                Some(q) => seq![q],
                None => Seq::empty(),
            };
            assert(goal_partitions(goals) == goal_partitions(front) + tail);
            if goal_partitions(goals).contains(p) {
                let k = choose|k: int| 0 <= k < goal_partitions(goals).len() && goal_partitions(goals)[k] == p;
                if k < goal_partitions(front).len() {
                    assert(goal_partitions(front)[k] == p);
                    assert(goal_partitions(front).contains(p));
                    let i = choose|i: int| 0 <= i < front.len() && #[trigger] front[i] == Some(p);
                    assert(goals[i] == Some(p));
                } else {
                    assert(goals[goals.len() - 1] == Some(p));
                }
            }
            if exists|i: int| 0 <= i < goals.len() && #[trigger] goals[i] == Some(p) {
                let i = choose|i: int| 0 <= i < goals.len() && #[trigger] goals[i] == Some(p);
                if i < goals.len() - 1 {
                    assert(front[i] == Some(p));
                    assert(goal_partitions(front).contains(p));
                    let k = choose|k: int| 0 <= k < goal_partitions(front).len() && goal_partitions(front)[k] == p;
                    assert(goal_partitions(goals)[k] == p);
                } else {
                    assert(goal_partitions(goals)[goal_partitions(front).len() as int] == p);
                }
            }
        }
    }
}

/// Whether a body with `flags` standing in partition `start` can reach one of the goal
/// partitions: whether one of them lies in a navigation group of the start, among those
/// whose flags include `flags`. A cell outside every partition is `None`.
pub fn is_reachable(graph: &NavigationGraph, start: Option<u32>, goals: &Vec<Option<u32>>, flags: NavigationFlags) -> (r: bool)
    requires
        graph.wf(),
    ensures
        r == spec_reachable(*graph, start, goals@, flags),
{
    let partition_id = match start {
        Some(p) => p,
        None => {
            return false;
        },
    };
    let start_groups = graph.get_groups_for_partition(&partition_id);
    let mut start_group_ids: Vec<u32> = Vec::new();
    let mut i: usize = 0;
    while i < start_groups.len()
        invariant
            0 <= i <= start_groups.len(),
            forall|k: int| 0 <= k < start_groups.len() ==> {
                &&& graph.grps().contains_key(#[trigger] start_groups[k].id)
                &&& *start_groups[k] == graph.grps()[start_groups[k].id]
                &&& graph.partition_group_ids(partition_id).contains(start_groups[k].id)
            },
            forall|g: u32| #[trigger] graph.partition_group_ids(partition_id).contains(g) ==> exists|k: int|
                0 <= k < start_groups.len() && #[trigger] start_groups[k].id == g,
            forall|g: u32| start_group_ids@.contains(g) <==> exists|k: int|
                0 <= k < i && #[trigger] start_groups[k].id == g && start_groups[k].flags.bits & flags.bits == flags.bits,
        decreases start_groups.len() - i,
    {
        let group = start_groups[i];
        let ghost before = start_group_ids@;
        if group.flags.contains(flags) {
            start_group_ids.push(group.id);
        }
        proof {
            assert forall|g: u32| start_group_ids@.contains(g) <==> exists|k: int|
                0 <= k < i + 1 && #[trigger] start_groups[k].id == g && start_groups[k].flags.bits & flags.bits == flags.bits by {
                if start_group_ids@.contains(g) && !before.contains(g) {
                    assert(start_group_ids@[start_group_ids@.len() - 1] == g);
                    assert(start_groups[i as int].id == g);
                }
                if exists|k: int| 0 <= k < i + 1 && #[trigger] start_groups[k].id == g && start_groups[k].flags.bits & flags.bits == flags.bits {
                    let k = choose|k: int| 0 <= k < i + 1 && #[trigger] start_groups[k].id == g && start_groups[k].flags.bits & flags.bits == flags.bits;
                    if k < i {
                        assert(before.contains(g));
                        let j = choose|j: int| 0 <= j < before.len() && before[j] == g;
                        assert(start_group_ids@[j] == g);
                    } else {
                        assert(start_group_ids@[start_group_ids@.len() - 1] == g);
                    }
                }
            }
        }
        i = i + 1;
    }
    let ghost usable = usable_groups(*graph, partition_id, flags);
    proof {
        assert forall|g: u32| start_group_ids@.contains(g) <==> usable.contains(g) by {
            if usable.contains(g) {
                let k = choose|k: int| 0 <= k < start_groups.len() && #[trigger] start_groups[k].id == g;
            }
        }
    }
    let mut present: Vec<u32> = Vec::new();
    let mut j: usize = 0;
    while j < goals.len()
        invariant
            0 <= j <= goals.len(),
            present@ == goal_partitions(goals@.subrange(0, j as int)),
        decreases goals.len() - j,
    {
        proof {
            assert(goals@.subrange(0, j as int + 1).drop_last() == goals@.subrange(0, j as int));
        }
        match goals[j] {
            Some(p) => {
                present.push(p);
            },
            None => {},
        }
        proof {
            assert(present@ =~= goal_partitions(goals@.subrange(0, j as int + 1)));
        }
        j = j + 1;
    }
    proof {
        assert(goals@.subrange(0, goals@.len() as int) == goals@);
    }
    let goal_ids = unique_ids(present);
    proof {
        lemma_unique_same_items(goal_partitions(goals@));
        lemma_goal_partitions(goals@);
    }
    let mut k: usize = 0;
    while k < goal_ids.len()
        invariant
            0 <= k <= goal_ids.len(),
            graph.wf(),
            goal_ids@.to_set() == goal_partitions(goals@).to_set(),
            forall|g: u32| start_group_ids@.contains(g) <==> usable.contains(g),
            usable == usable_groups(*graph, partition_id, flags),
            start == Some(partition_id),
            forall|p: u32| goal_partitions(goals@).contains(p) <==> exists|i: int| 0 <= i < goals@.len() && #[trigger] goals@[i] == Some(p),
            forall|m: int| 0 <= m < k ==> graph.partition_group_ids(#[trigger] goal_ids@[m]).intersect(usable).is_empty(),
        decreases goal_ids.len() - k,
    {
        let goal_partition_id = goal_ids[k];
        let goal_groups = graph.get_group_ids_for_partition(&goal_partition_id).to_vec();
        let mut l: usize = 0;
        while l < goal_groups.len()
            invariant
                0 <= l <= goal_groups.len(),
                goal_groups@.to_set() == graph.partition_group_ids(goal_partition_id),
                forall|g: u32| start_group_ids@.contains(g) <==> usable.contains(g),
                0 <= k < goal_ids.len(),
                goal_partition_id == goal_ids@[k as int],
                goal_ids@.to_set() == goal_partitions(goals@).to_set(),
                usable == usable_groups(*graph, partition_id, flags),
                start == Some(partition_id),
                forall|p: u32| goal_partitions(goals@).contains(p) <==> exists|i: int| 0 <= i < goals@.len() && #[trigger] goals@[i] == Some(p),
                forall|m: int| 0 <= m < l ==> !usable.contains(#[trigger] goal_groups@[m]),
            decreases goal_groups.len() - l,
        {
            let found = contains_id(&start_group_ids, goal_groups[l]);
            if found {
                proof {
                    let s = start.unwrap();
                    assert(start_group_ids@.contains(goal_groups@[l as int]));
                    assert(goal_groups@.to_set().contains(goal_groups@[l as int]));
                    assert(graph.partition_group_ids(goal_partition_id).intersect(usable).contains(goal_groups@[l as int]));
                    assert(goal_ids@.to_set().contains(goal_ids@[k as int]));
                    assert(goal_partitions(goals@).to_set().contains(goal_partition_id));
                    assert(goal_partitions(goals@).contains(goal_partition_id));
                    let i = choose|i: int| 0 <= i < goals@.len() && #[trigger] goals@[i] == Some(goal_partition_id);
                    assert(goals@[i] is Some);
                    assert(!graph.partition_group_ids(goal_partition_id).intersect(usable).is_empty());
                }
                return true;
            }
            proof {
                if usable.contains(goal_groups@[l as int]) {
                    assert(start_group_ids@.contains(goal_groups@[l as int]));
                    let m = choose|m: int| 0 <= m < start_group_ids@.len() && start_group_ids@[m] == goal_groups@[l as int];
                }
            }
            l = l + 1;
        }
        proof {
            assert(graph.partition_group_ids(goal_partition_id).intersect(usable) =~= Set::<u32>::empty()) by {
                assert forall|g: u32| graph.partition_group_ids(goal_partition_id).intersect(usable).contains(g) implies false by {
                    assert(goal_groups@.to_set().contains(g));
                    let m = choose|m: int| 0 <= m < goal_groups@.len() && goal_groups@[m] == g;
                }
            }
        }
        k = k + 1;
    }
    proof {
        let s = start.unwrap();
        if spec_reachable(*graph, start, goals@, flags) {
            let i = choose|i: int| 0 <= i < goals@.len() && #[trigger] goals@[i] is Some && !graph.partition_group_ids(goals@[i]->0).intersect(
                usable_groups(*graph, s, flags)).is_empty();
            let p = goals@[i]->0;
            assert(goals@[i] == Some(p));
            assert(goal_partitions(goals@).contains(p));
            assert(goal_partitions(goals@).to_set().contains(p));
            assert(goal_ids@.to_set().contains(p));
            let m = choose|m: int| 0 <= m < goal_ids@.len() && goal_ids@[m] == p;
            assert(graph.partition_group_ids(goal_ids@[m]).intersect(usable).is_empty());
        }
    }
    false
}

/// What moving a body along a route calls for next. Finding routes and legs and telling
/// whether a cell can be entered are left to the caller, which answers with
/// `move_route`, `move_leg` and `move_check`.
#[derive(Clone, Copy, PartialEq, Eq, Debug)]
pub enum MoveStep {
    /// The body stands on a goal; the route is dropped.
    Arrived,
    /// The body cannot get there: no goals, no route, no leg, or the way is blocked.
    Failed,
    /// A route through partitions from the body's cell to the goals is needed.
    FindRoute,
    /// The cells of the next leg are needed, towards this partition.
    FindLeg(Option<u32>),
    /// Whether this cell can be entered is needed before the next step.
    CheckCell([i32; 3]),
    /// Step onto this cell.
    Move([i32; 3]),
}

/// The partition index after taking stock at a cell in partition `partition_id`.
pub open spec fn moved_partition_idx(path: Path, partition_id: Option<u32>) -> usize {
    match partition_id {
        Some(id) => match first_index(path.partition_path@, id) {
            Some(i) => i as usize,
            None => path.current_partition_idx,
        },
        None => path.current_partition_idx,
    }
}

/// The partition to head for next, for a route whose partition index is `idx`.
pub open spec fn next_partition(path: Path, idx: usize) -> Option<u32> {
    let i = spec_next_idx(idx as int);
    if i < path.partition_path@.len() {
        Some(path.partition_path@[i])
    } else {
        None
    }
}

/// Moving one cell on along the current leg of `p0` gave `p1`: the cell index went back
/// by one and nothing else changed.
pub open spec fn stepped(p0: Path, p1: Path) -> bool {
    &&& p1.current_block_idx == p0.current_block_idx - 1
    &&& p1.blocks == p0.blocks
    &&& p1.goals == p0.goals
    &&& p1.partition_path == p0.partition_path
    &&& p1.flags == p0.flags
    &&& p1.current_partition_idx == p0.current_partition_idx
}

/// The cell whose passability is checked once the leg is on cell index `idx`.
pub open spec fn cell_to_check(p: Path, idx: int) -> [i32; 3] {
    p.blocks@[spec_next_idx(idx)]
}

/// Takes stock of a body at `pos`, standing in partition `partition_id`, that is to move
/// along `route` (or, without one, to goals that `has_goals` tells exist): a route is
/// asked for when there is none yet; a body on a goal has arrived and drops its route;
/// otherwise the partition index follows the body, and either the next leg is asked for
/// or the body moves one cell on and the cell after it is to be checked.
pub fn move_tick(route: &mut Option<Path>, has_goals: bool, pos: [u32; 3], partition_id: Option<u32>) -> (r: MoveStep)
    requires
        match *old(route) {
            Some(p) => p.current_block_idx <= p.blocks@.len(),
            None => true,
        },
    ensures
        match *old(route) {
            None => *final(route) == None::<Path> && r == (if has_goals { MoveStep::FindRoute } else { MoveStep::Failed }),
            Some(p) => if p.goals@.contains(pos) {
                r == MoveStep::Arrived && *final(route) == None::<Path>
            } else if p.current_block_idx == 0 {
                &&& *final(route) == Some(Path { current_partition_idx: moved_partition_idx(p, partition_id), ..p })
                &&& r == MoveStep::FindLeg(next_partition(p, moved_partition_idx(p, partition_id)))
            } else {
                &&& (*final(route)) matches Some(p1) && stepped(Path { current_partition_idx: moved_partition_idx(p, partition_id), ..p }, p1)
                &&& r == MoveStep::CheckCell(cell_to_check(p, p.current_block_idx - 1))
                &&& p.current_block_idx - 1 < p.blocks@.len()
            },
        },
{
    let taken = route.take();
    match taken {
        None => {
            if has_goals {
                MoveStep::FindRoute
            } else {
                MoveStep::Failed
            }
        },
        Some(mut path) => {
            let progress = path.begin_step(pos, partition_id);
            match progress {
                PathProgress::Arrived => MoveStep::Arrived,
                PathProgress::NeedBlocks => {
                    let next = match path.next_partition_id() {
                        Some(id) => Some(*id),
                        None => None,
                    };
                    *route = Some(path);
                    MoveStep::FindLeg(next)
                },
                PathProgress::Continue => {
                    path.advance_block();
                    let cell = *path.next_block().unwrap();
                    *route = Some(path);
                    MoveStep::CheckCell(cell)
                },
            }
        },
    }
}

/// Takes the route that was asked for with `FindRoute`: without one the body cannot get
/// there; with one, the body takes stock at `pos` in partition `partition_id` as
/// `move_tick` does, which on a fresh route means arriving or asking for the first leg.
pub fn move_route(
    route: &mut Option<Path>,
    found: Option<PartitionPath>,
    flags: NavigationFlags,
    pos: [u32; 3],
    partition_id: Option<u32>,
) -> (r: MoveStep)
    requires
        *old(route) == None::<Path>,
        match found {
            Some(pp) => pp.goals.len() > 0,
            None => true,
        },
    ensures
        match found {
            None => r == MoveStep::Failed && *final(route) == None::<Path>,
            Some(pp) => {
                let p = Path {
                    current_partition_idx: (pp.goals.len() - 1) as usize,
                    goals: pp.goals,
                    partition_path: pp.path,
                    flags,
                    blocks: (*final(route))->0.blocks,
                    current_block_idx: 0,
                };
                if pp.goals@.contains(pos) {
                    r == MoveStep::Arrived && *final(route) == None::<Path>
                } else {
                    &&& (*final(route)) matches Some(p1)
                    &&& p1.blocks@.len() == 0
                    &&& *final(route) == Some(Path { current_partition_idx: moved_partition_idx(p, partition_id), ..p })
                    &&& r == MoveStep::FindLeg(next_partition(p, moved_partition_idx(p, partition_id)))
                }
            },
        },
{
    match found {
        None => MoveStep::Failed,
        Some(pp) => {
            let path = Path::from_partition_path(pp, flags);
            *route = Some(path);
            move_tick(route, true, pos, partition_id)
        },
    }
}

/// Takes the leg that was asked for with `FindLeg`: without one the body cannot get
/// there; with one, the body moves to its second-to-last cell and the cell after it is to
/// be checked.
pub fn move_leg(path: &mut Path, leg: Option<Vec<[i32; 3]>>) -> (r: MoveStep)
    requires
        match leg {
            Some(b) => b.len() >= 2,
            None => true,
        },
    ensures
        match leg {
            None => r == MoveStep::Failed && *final(path) == *old(path),
            Some(b) => {
                &&& final(path).blocks@ == b@
                &&& final(path).current_block_idx == b.len() - 2
                &&& final(path).goals == old(path).goals
                &&& final(path).partition_path == old(path).partition_path
                &&& final(path).flags == old(path).flags
                &&& final(path).current_partition_idx == old(path).current_partition_idx
                &&& r == MoveStep::CheckCell(b@[spec_next_idx(b.len() - 2)])
            },
        },
{
    match leg {
        None => MoveStep::Failed,
        Some(blocks) => {
            path.load_blocks(blocks);
            path.advance_block();
            let cell = *path.next_block().unwrap();
            MoveStep::CheckCell(cell)
        },
    }
}

/// Takes what was found about the cell asked for with `CheckCell`: when none of its flags
/// is one the body moves with, the way is blocked; otherwise the body steps onto the
/// current cell of its leg.
pub fn move_check(path: &Path, cell_flags: NavigationFlags) -> (r: MoveStep)
    requires
        path.current_block_idx < path.blocks@.len(),
    ensures
        r == (if cell_flags.bits & path.flags.bits == 0 {
            MoveStep::Failed
        } else {
            MoveStep::Move(path.blocks@[path.current_block_idx as int])
        }),
{
    if cell_flags.intersects(path.flags) {
        MoveStep::Move(path.blocks[path.current_block_idx])
    } else {
        MoveStep::Failed
    }
}

} // verus!

