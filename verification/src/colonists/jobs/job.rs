use vstd::prelude::*;

use super::{cell, mine_points, only_if, pt, spec_mine_points};
use crate::block::world::block::Block;

verus! {

/// The kinds of job a colonist can take.
#[derive(Clone, Copy, PartialEq, Eq, Debug, Structural)]
pub enum JobType {
    Mine,
    Chop,
    PlaceBlock(Block),
    Build,
    Supply,
}

/// A job and the colonist it is assigned to, held by its entity handle.
#[derive(Clone, Copy)]
pub struct Job {
    pub job_type: JobType,
    pub assignee: Option<u64>,
}

/// Where a job is: the cells it works on, the main one of them, and where its material
/// comes from, if anywhere.
pub struct JobLocation {
    pub targets: Vec<[u32; 3]>,
    pub primary_target: [u32; 3],
    pub source: Option<[u32; 3]>,
}

/// The job a colonist holds, by its entity handle.
#[derive(Clone, Copy)]
pub struct JobAssignment {
    pub job: u64,
}

/// Asks for the job with the given entity handle to be cancelled.
#[derive(Clone, Copy)]
pub struct JobCancelEvent(pub u64);

/// Marks a job that some colonist can reach.
pub struct IsJobAccessible;

/// Marks a job that was cancelled.
pub struct IsJobCancelled;

/// Marks a job that was carried out.
pub struct IsJobCompleted;

/// The cells from which the tree trunk at `(x, y, z)` can be chopped.
pub open spec fn spec_chop_points(x: int, y: int, z: int) -> Seq<[u32; 3]> {
    seq![cell(x + 1, y, z), cell(x, y, z + 1), cell(x + 1, y, z + 1)]
        + only_if(x > 0, seq![cell(x - 1, y, z), cell(x - 1, y, z + 1)]
            + only_if(z > 0, seq![cell(x - 1, y, z - 1), cell(x + 1, y, z - 1), cell(x, y, z - 1)]))
}

/// The cells from which a block or structure at `(x, y, z)` can be placed, built or
/// supplied.
pub open spec fn spec_place_points(x: int, y: int, z: int) -> Seq<[u32; 3]> {
    seq![cell(x + 1, y, z), cell(x + 1, y + 1, z), cell(x, y, z + 1), cell(x, y + 1, z + 1)]
        + only_if(x > 0, seq![cell(x - 1, y, z), cell(x - 1, y + 1, z)] + only_if(y > 0, seq![cell(x - 1, y - 1, z)]))
        + only_if(y > 0, seq![cell(x, y - 1, z)])
        + only_if(z > 0, seq![cell(x, y, z - 1), cell(x, y + 1, z - 1)] + only_if(y > 0, seq![cell(x, y - 1, z - 1)]))
}

pub open spec fn spec_job_access_points(pos: [u32; 3], job: JobType) -> Seq<[u32; 3]> {
    match job {
        JobType::Chop => spec_chop_points(pos[0] as int, pos[1] as int, pos[2] as int),
        JobType::Mine => spec_mine_points(pos[0] as int, pos[1] as int, pos[2] as int),
        _ => spec_place_points(pos[0] as int, pos[1] as int, pos[2] as int),
    }
}

/// The coordinates of `pos` that the access points of `job` step past stay below
/// `u32::MAX`: chopping looks beside a trunk only, the other jobs also above it.
pub open spec fn access_points_fit(pos: [u32; 3], job: JobType) -> bool {
    &&& pos[0] < u32::MAX
    &&& pos[2] < u32::MAX
    &&& (job is Chop || pos[1] < u32::MAX)
}

/// Whether the job works on its targets from outside them, so that no access point may be
/// a target itself.
pub open spec fn works_from_outside(job: JobType) -> bool {
    job is Build || job is PlaceBlock || job is Supply
}

/// The cells of `s` that are not among `targets`, in order.
pub open spec fn outside_targets(s: Seq<[u32; 3]>, targets: Seq<[u32; 3]>) -> Seq<[u32; 3]>
    decreases s.len(),
{
    if s.len() == 0 {
        s
    } else {
        outside_targets(s.drop_last(), targets) + if targets.contains(s.last()) {
            Seq::empty()
        } else {
            seq![s.last()]
        }
    }
}

/// The access points of the first `n` targets, target by target.
pub open spec fn spec_access_points_many(targets: Seq<[u32; 3]>, n: int, job: JobType) -> Seq<[u32; 3]>
    decreases n,
{
    if n <= 0 {
        Seq::empty()
    } else {
        let pts = spec_job_access_points(targets[n - 1], job);
        spec_access_points_many(targets, n - 1, job) + if works_from_outside(job) {
            outside_targets(pts, targets)
        } else {
            pts
        }
    }
}

fn chop_points(x: u32, y: u32, z: u32) -> (r: Vec<[u32; 3]>)
    requires
        x < u32::MAX,
        z < u32::MAX,
    ensures
        r@ == spec_chop_points(x as int, y as int, z as int),
{
    let mut goals = vec![pt(x + 1, y, z), pt(x, y, z + 1), pt(x + 1, y, z + 1)];
    let ghost g0 = goals@;
    if x > 0 {
        goals.push(pt(x - 1, y, z));
        goals.push(pt(x - 1, y, z + 1));
        if z > 0 {
            goals.push(pt(x - 1, y, z - 1));
            goals.push(pt(x + 1, y, z - 1));
            goals.push(pt(x, y, z - 1));
        }
    }
    assert(goals@ =~= g0 + only_if(x > 0, seq![cell(x - 1, y as int, z as int), cell(x - 1, y as int, z + 1)]
        + only_if(z > 0, seq![cell(x - 1, y as int, z - 1), cell(x + 1, y as int, z - 1), cell(x as int, y as int, z - 1)])));
    assert(goals@ =~= spec_chop_points(x as int, y as int, z as int));
    goals
}

fn place_points(x: u32, y: u32, z: u32) -> (r: Vec<[u32; 3]>)
    requires
        x < u32::MAX,
        y < u32::MAX,
        z < u32::MAX,
    ensures
        r@ == spec_place_points(x as int, y as int, z as int),
{
    let mut goals = vec![pt(x + 1, y, z), pt(x + 1, y + 1, z), pt(x, y, z + 1), pt(x, y + 1, z + 1)];
    let ghost g0 = goals@;
    if x > 0 {
        goals.push(pt(x - 1, y, z));
        goals.push(pt(x - 1, y + 1, z));
        if y > 0 {
            goals.push(pt(x - 1, y - 1, z));
        }
    }
    let ghost g1 = goals@;
    assert(g1 =~= g0 + only_if(x > 0, seq![cell(x - 1, y as int, z as int), cell(x - 1, y + 1, z as int)] + only_if(y > 0, seq![cell(x - 1, y - 1, z as int)])));
    if y > 0 {
        goals.push(pt(x, y - 1, z));
    }
    let ghost g2 = goals@;
    assert(g2 =~= g1 + only_if(y > 0, seq![cell(x as int, y - 1, z as int)]));
    if z > 0 {
        goals.push(pt(x, y, z - 1));
        goals.push(pt(x, y + 1, z - 1));
        if y > 0 {
            goals.push(pt(x, y - 1, z - 1));
        }
    }
    assert(goals@ =~= g2 + only_if(z > 0, seq![cell(x as int, y as int, z - 1), cell(x as int, y + 1, z - 1)] + only_if(y > 0, seq![cell(x as int, y - 1, z - 1)])));
    assert(goals@ =~= spec_place_points(x as int, y as int, z as int));
    goals
}

/// The cells a colonist may stand on to work a job at `pos`.
pub fn job_access_points(pos: [u32; 3], job: JobType) -> (r: Vec<[u32; 3]>)
    requires
        access_points_fit(pos, job),
    ensures
        r@ == spec_job_access_points(pos, job),
{
    match job {
        JobType::Chop => chop_points(pos[0], pos[1], pos[2]),
        JobType::Mine => mine_points(pos[0], pos[1], pos[2]),
        _ => place_points(pos[0], pos[1], pos[2]),
    }
}

/// Whether `p` is one of `targets`.
fn is_target(targets: &[[u32; 3]], p: [u32; 3]) -> (r: bool)
    ensures
        r == targets@.contains(p),
{
    let mut i: usize = 0;
    while i < targets.len()
        invariant
            i <= targets@.len(),
            forall|k: int| 0 <= k < i ==> targets@[k] != p,
        decreases targets@.len() - i,
    {
        let t = targets[i];
        if t[0] == p[0] && t[1] == p[1] && t[2] == p[2] {
            assert(t@ =~= p@);
            assert(targets@[i as int] == p);
            return true;
        }
        i = i + 1;
    }
    false
}

/// The access points of all the targets of a job, target by target. Jobs that work a
/// structure from outside leave out the points that are targets themselves.
pub fn job_access_points_many(targets: &[[u32; 3]], job: JobType) -> (r: Vec<[u32; 3]>)
    requires
        forall|i: int| 0 <= i < targets@.len() ==> access_points_fit(#[trigger] targets@[i], job),
    ensures
        r@ == spec_access_points_many(targets@, targets@.len() as int, job),
{
    let filter = match job {
        JobType::Build | JobType::PlaceBlock(_) | JobType::Supply => true,
        _ => false,
    };
    let mut out: Vec<[u32; 3]> = Vec::new();
    let mut i: usize = 0;
    while i < targets.len()
        invariant
            i <= targets@.len(),
            filter == works_from_outside(job),
            out@ == spec_access_points_many(targets@, i as int, job),
            forall|k: int| 0 <= k < targets@.len() ==> access_points_fit(#[trigger] targets@[k], job),
        decreases targets@.len() - i,
    {
        let t = targets[i];
        let pts = job_access_points(t, job);
        let ghost start = out@;
        let mut j: usize = 0;
        while j < pts.len()
            invariant
                j <= pts@.len(),
                filter == works_from_outside(job),
                out@ == start + if filter {
                    outside_targets(pts@.take(j as int), targets@)
                } else {
                    pts@.take(j as int)
                },
            decreases pts@.len() - j,
        {
            let p = pts[j];
            proof {
                assert(pts@.take(j + 1).drop_last() =~= pts@.take(j as int));
                assert(pts@.take(j + 1).last() == p);
            }
            if filter {
                if !is_target(targets, p) {
                    out.push(p);
                }
            } else {
                out.push(p);
            }
            proof {
                if filter {
                    assert(out@ =~= start + outside_targets(pts@.take(j + 1), targets@));
                } else {
                    assert(out@ =~= start + pts@.take(j + 1));
                }
            }
            j = j + 1;
        }
        proof {
            assert(pts@.take(pts@.len() as int) =~= pts@);
        }
        i = i + 1;
    }
    out
}

pub proof fn lemma_outside_targets(s: Seq<[u32; 3]>, targets: Seq<[u32; 3]>)
    ensures
        forall|i: int| 0 <= i < outside_targets(s, targets).len() ==> !targets.contains(#[trigger] outside_targets(s, targets)[i]),
        forall|i: int| 0 <= i < outside_targets(s, targets).len() ==> s.contains(#[trigger] outside_targets(s, targets)[i]),
    decreases s.len(),
{
    if s.len() > 0 {
        lemma_outside_targets(s.drop_last(), targets);
        let o = outside_targets(s, targets);
        let prev = outside_targets(s.drop_last(), targets);
        assert forall|i: int| 0 <= i < o.len() implies s.contains(#[trigger] o[i]) by {
            if i < prev.len() {
                assert(o[i] == prev[i]);
                let k = choose|k: int| 0 <= k < s.drop_last().len() && s.drop_last()[k] == prev[i];
                assert(s[k] == o[i]);
            } else {
                assert(o[i] == s.last());
                assert(s[s.len() - 1] == o[i]);
            }
        }
    }
}

/// For a job worked from outside its targets (building, placing, supplying), no access
/// point is itself one of the targets.
pub proof fn lemma_many_avoids_targets(targets: Seq<[u32; 3]>, n: int, job: JobType)
    requires
        works_from_outside(job),
    ensures
        forall|i: int|
            0 <= i < spec_access_points_many(targets, n, job).len() ==> !targets.contains(
                #[trigger] spec_access_points_many(targets, n, job)[i],
            ),
    decreases n,
{
    if n > 0 {
        lemma_many_avoids_targets(targets, n - 1, job);
        let pts = spec_job_access_points(targets[n - 1], job);
        lemma_outside_targets(pts, targets);
        let prev = spec_access_points_many(targets, n - 1, job);
        let all = spec_access_points_many(targets, n, job);
        assert forall|i: int| 0 <= i < all.len() implies !targets.contains(#[trigger] all[i]) by {
            if i < prev.len() {
                assert(all[i] == prev[i]);
            } else {
                assert(all[i] == outside_targets(pts, targets)[i - prev.len()]);
            }
        }
    }
}

/// Whether `p` is a cell from which a colonist can place, build or supply at `(x, y, z)`:
/// a horizontal face neighbor on the -x or -z side at most one level off, one on the +x or
/// +z side level with it or one above, or the cell right below.
pub open spec fn place_cell(x: int, y: int, z: int, p: [u32; 3]) -> bool {
    let dx = p[0] - x;
    let dy = p[1] - y;
    let dz = p[2] - z;
    ||| (dx == 1 && dz == 0 && 0 <= dy <= 1)
    ||| (dx == 0 && dz == 1 && 0 <= dy <= 1)
    ||| (dx == -1 && dz == 0 && -1 <= dy <= 1)
    ||| (dx == 0 && dz == -1 && -1 <= dy <= 1)
    ||| (dx == 0 && dz == 0 && dy == -1)
}

/// For a job worked from beside its target (placing, building, supplying), a cell is an
/// access point exactly when it is one of the cells `place_cell` describes. In particular
/// each of the four level face neighbors of the target that exists is an access point.
pub proof fn lemma_place_points_exact(pos: [u32; 3], job: JobType, p: [u32; 3])
    requires
        works_from_outside(job),
        access_points_fit(pos, job),
    ensures
        spec_job_access_points(pos, job).contains(p) <==> place_cell(pos[0] as int, pos[1] as int, pos[2] as int, p),
{
    let x = pos[0] as int;
    let y = pos[1] as int;
    let z = pos[2] as int;
    let s = spec_job_access_points(pos, job);
    broadcast use vstd::seq_lib::group_seq_properties, vstd::array::group_array_axioms;
    assert(s == spec_place_points(x, y, z));
    let dx = p[0] - x;
    let dy = p[1] - y;
    let dz = p[2] - z;
    if place_cell(x, y, z, p) {
        if dx == 1 {
            if dy == 0 { assert(p =~= cell(x + 1, y, z)); } else { assert(p =~= cell(x + 1, y + 1, z)); }
        } else if dz == 1 {
            if dy == 0 { assert(p =~= cell(x, y, z + 1)); } else { assert(p =~= cell(x, y + 1, z + 1)); }
        } else if dx == -1 {
            if dy == 0 { assert(p =~= cell(x - 1, y, z)); } else if dy == 1 { assert(p =~= cell(x - 1, y + 1, z)); } else { assert(p =~= cell(x - 1, y - 1, z)); }
        } else if dz == -1 {
            if dy == 0 { assert(p =~= cell(x, y, z - 1)); } else if dy == 1 { assert(p =~= cell(x, y + 1, z - 1)); } else { assert(p =~= cell(x, y - 1, z - 1)); }
        } else {
            assert(p =~= cell(x, y - 1, z));
        }
    }
}

/// Whether `p` is a cell from which the trunk at `(x, y, z)` can be chopped: one of the
/// eight cells around it on its level, those on the -z side only where `x > 0`.
pub open spec fn chop_cell(x: int, y: int, z: int, p: [u32; 3]) -> bool {
    let dx = p[0] - x;
    let dy = p[1] - y;
    let dz = p[2] - z;
    &&& dy == 0
    &&& -1 <= dx <= 1
    &&& -1 <= dz <= 1
    &&& !(dx == 0 && dz == 0)
    &&& (dz == -1 ==> x > 0)
}

/// Chopping is worked from the cells `chop_cell` describes, and from no other.
pub proof fn lemma_chop_points_exact(pos: [u32; 3], p: [u32; 3])
    requires
        access_points_fit(pos, JobType::Chop),
    ensures
        spec_job_access_points(pos, JobType::Chop).contains(p) <==> chop_cell(pos[0] as int, pos[1] as int, pos[2] as int, p),
{
    let x = pos[0] as int;
    let y = pos[1] as int;
    let z = pos[2] as int;
    broadcast use vstd::seq_lib::group_seq_properties, vstd::array::group_array_axioms;
    assert(spec_job_access_points(pos, JobType::Chop) == spec_chop_points(x, y, z));
    if chop_cell(x, y, z, p) {
        assert(p =~= cell(p[0] as int, y, p[2] as int));
    }
}

/// Whether `p` is a cell from which the block at `(x, y, z)` can be mined: a diagonal
/// neighbor on its level, an x-side neighbor at most one level off, or a z-side neighbor
/// from two below to one above.
pub open spec fn mine_cell(x: int, y: int, z: int, p: [u32; 3]) -> bool {
    let dx = p[0] - x;
    let dy = p[1] - y;
    let dz = p[2] - z;
    ||| (dy == 0 && (dx == 1 || dx == -1) && (dz == 1 || dz == -1))
    ||| ((dx == 1 || dx == -1) && dz == 0 && -1 <= dy <= 1)
    ||| (dx == 0 && (dz == 1 || dz == -1) && -2 <= dy <= 1)
}

/// Mining is worked from the cells `mine_cell` describes, and from no other.
pub proof fn lemma_mine_points_exact(pos: [u32; 3], p: [u32; 3])
    requires
        access_points_fit(pos, JobType::Mine),
    ensures
        spec_job_access_points(pos, JobType::Mine).contains(p) <==> mine_cell(pos[0] as int, pos[1] as int, pos[2] as int, p),
{
    let x = pos[0] as int;
    let y = pos[1] as int;
    let z = pos[2] as int;
    broadcast use vstd::seq_lib::group_seq_properties, vstd::array::group_array_axioms;
    assert(spec_job_access_points(pos, JobType::Mine) == spec_mine_points(x, y, z));
    if mine_cell(x, y, z, p) {
        assert(p =~= cell(p[0] as int, p[1] as int, p[2] as int));
    }
}

} // verus!
