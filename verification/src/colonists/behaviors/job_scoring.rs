use vstd::prelude::*;

use crate::colonists::inventory::{test_item_tags, ItemTag};

verus! {

/// What a scorer knows of one open job: whether it can be taken (nobody holds it and it
/// has what it needs), whether the colonist can reach it, and where it is.
#[derive(Clone, Copy)]
pub struct JobCandidate {
    pub available: bool,
    pub reachable: bool,
    pub target: [u32; 3],
}

/// The distance beyond which a job is never picked.
pub const FAR_AWAY: u64 = 100000;

/// The Manhattan distance between two cells.
pub open spec fn spec_manhattan(a: [u32; 3], b: [u32; 3]) -> int {
    let dx = a[0] - b[0];
    let dy = a[1] - b[1];
    let dz = a[2] - b[2];
    (if dx < 0 { -dx } else { dx }) + (if dy < 0 { -dy } else { dy }) + (if dz < 0 { -dz } else { dz })
}

fn abs_diff(a: u32, b: u32) -> (r: u64)
    ensures
        r == (if a >= b { a - b } else { b - a }),
{
    if a >= b {
        (a - b) as u64
    } else {
        (b - a) as u64
    }
}

/// The Manhattan distance between two cells.
pub fn manhattan_distance(a: [u32; 3], b: [u32; 3]) -> (r: u64)
    ensures
        r == spec_manhattan(a, b),
{
    abs_diff(a[0], b[0]) + abs_diff(a[1], b[1]) + abs_diff(a[2], b[2])
}

/// Whether job `j` can be taken and reached.
pub open spec fn eligible(j: JobCandidate) -> bool {
    j.available && j.reachable
}

/// Whether job `i` is one that the scan stops at: the first job that can be taken and
/// reached and lies right next to `pos` (closer than 2).
pub open spec fn is_first_adjacent(jobs: Seq<JobCandidate>, pos: [u32; 3], i: int) -> bool {
    &&& 0 <= i < jobs.len()
    &&& eligible(jobs[i])
    &&& spec_manhattan(jobs[i].target, pos) < 2
    &&& forall|k: int| 0 <= k < i && eligible(#[trigger] jobs[k]) ==> spec_manhattan(jobs[k].target, pos) >= 2
}

/// Whether job `i` is the first of the nearest jobs that can be taken and reached, nearer
/// than `FAR_AWAY`.
pub open spec fn is_first_nearest(jobs: Seq<JobCandidate>, pos: [u32; 3], i: int) -> bool {
    &&& 0 <= i < jobs.len()
    &&& eligible(jobs[i])
    &&& spec_manhattan(jobs[i].target, pos) < FAR_AWAY
    &&& forall|k: int| 0 <= k < jobs.len() && eligible(#[trigger] jobs[k]) ==> spec_manhattan(jobs[i].target, pos) <= spec_manhattan(jobs[k].target, pos)
    &&& forall|k: int| 0 <= k < i && eligible(#[trigger] jobs[k]) ==> spec_manhattan(jobs[i].target, pos) < spec_manhattan(jobs[k].target, pos)
}

/// The job a colonist at `pos` goes for: the first one next to it that it can take and
/// reach, or else the first of the nearest such jobs, if that is nearer than `FAR_AWAY`.
pub fn pick_nearest_job(jobs: &Vec<JobCandidate>, pos: [u32; 3]) -> (r: Option<usize>)
    ensures
        match r {
            Some(i) => {
                ||| is_first_adjacent(jobs@, pos, i as int)
                ||| (is_first_nearest(jobs@, pos, i as int) && forall|k: int| !is_first_adjacent(jobs@, pos, k))
            },
            None => forall|k: int| 0 <= k < jobs.len() && eligible(#[trigger] jobs@[k]) ==> spec_manhattan(jobs@[k].target, pos) >= FAR_AWAY,
        },
{
    let mut best: Option<usize> = None;
    let mut best_dist: u64 = FAR_AWAY;
    let mut i: usize = 0;
    while i < jobs.len()
        invariant
            0 <= i <= jobs.len(),
            best_dist <= FAR_AWAY,
            forall|k: int| 0 <= k < i && eligible(#[trigger] jobs@[k]) ==> spec_manhattan(jobs@[k].target, pos) >= 2,
            forall|k: int| 0 <= k < i && eligible(#[trigger] jobs@[k]) ==> spec_manhattan(jobs@[k].target, pos) >= best_dist,
            match best {
                Some(b) => {
                    &&& b < i
                    &&& eligible(jobs@[b as int])
                    &&& spec_manhattan(jobs@[b as int].target, pos) == best_dist
                    &&& best_dist < FAR_AWAY
                    &&& forall|k: int| 0 <= k < b && eligible(#[trigger] jobs@[k]) ==> spec_manhattan(jobs@[k].target, pos) > best_dist
                },
                None => best_dist == FAR_AWAY,
            },
        decreases jobs.len() - i,
    {
        let job = jobs[i];
        if job.available && job.reachable {
            let job_distance = manhattan_distance(job.target, pos);
            if job_distance < best_dist {
                best = Some(i);
                best_dist = job_distance;
                if job_distance < 2 {
                    proof {
                        assert(is_first_adjacent(jobs@, pos, i as int));
                    }
                    return best;
                }
            }
        }
        i = i + 1;
    }
    proof {
        assert forall|k: int| !is_first_adjacent(jobs@, pos, k) by {}
        match best {
            Some(b) => {
                assert(is_first_nearest(jobs@, pos, b as int));
            },
            None => {},
        }
    }
    best
}

/// Whether an item with the tags `item` has every tag of `tags`.
pub open spec fn has_tags(item: Seq<ItemTag>, tags: Seq<ItemTag>) -> bool {
    forall|t: int| 0 <= t < tags.len() ==> item.contains(#[trigger] tags[t])
}

/// Whether one of the items, given by their tags, has every tag of `tags`.
pub fn any_item_has_tags(items: &Vec<Vec<ItemTag>>, tags: &Vec<ItemTag>) -> (r: bool)
    ensures
        r == exists|i: int| 0 <= i < items.len() && #[trigger] has_tags(items@[i]@, tags@),
{
    let mut i: usize = 0;
    while i < items.len()
        invariant
            0 <= i <= items.len(),
            forall|k: int| 0 <= k < i ==> !#[trigger] has_tags(items@[k]@, tags@),
        decreases items.len() - i,
    {
        if test_item_tags(items[i].as_slice(), tags.as_slice()) {
            proof {
                assert(has_tags(items@[i as int]@, tags@));
            }
            return true;
        }
        i = i + 1;
    }
    false
}

/// How keen a colonist is on a job it can take.
#[derive(Clone, Copy, PartialEq, Eq, Debug, Structural)]
pub enum ScoreLevel {
    /// Not at all: it has no tool and none is to be had.
    Zero,
    /// Somewhat: a tool lies unclaimed within reach.
    Low,
    /// Much: it carries the tool.
    High,
}

/// How keen a colonist with a job in sight is on it: most when it carries what the job
/// needs, less when such an item lies unclaimed within reach, not at all otherwise.
pub fn item_score(has_item: bool, free_item_reachable: bool) -> (r: ScoreLevel)
    ensures
        r == (if has_item {
            ScoreLevel::High
        } else if free_item_reachable {
            ScoreLevel::Low
        } else {
            ScoreLevel::Zero
        }),
{
    if has_item {
        ScoreLevel::High
    } else if free_item_reachable {
        ScoreLevel::Low
    } else {
        ScoreLevel::Zero
    }
}

/// An item lying about, as a scorer sees it: its tags, whether someone has claimed it,
/// and whether the colonist can reach it.
pub struct FreeItem {
    pub tags: Vec<ItemTag>,
    pub reserved: bool,
    pub reachable: bool,
}

/// Whether item `it` has the tags `tags`, is unclaimed and within reach.
pub open spec fn usable_free_item(it: FreeItem, tags: Seq<ItemTag>) -> bool {
    has_tags(it.tags@, tags) && !it.reserved && it.reachable
}

/// Whether one of the free items is usable for the tags `tags`.
fn any_usable_free_item(free: &Vec<FreeItem>, tags: &Vec<ItemTag>) -> (r: bool)
    ensures
        r == exists|i: int| 0 <= i < free.len() && #[trigger] usable_free_item(free@[i], tags@),
{
    let mut i: usize = 0;
    while i < free.len()
        invariant
            0 <= i <= free.len(),
            forall|k: int| 0 <= k < i ==> !#[trigger] usable_free_item(free@[k], tags@),
        decreases free.len() - i,
    {
        let it = &free[i];
        if !it.reserved && it.reachable && test_item_tags(it.tags.as_slice(), tags.as_slice()) {
            proof {
                assert(usable_free_item(free@[i as int], tags@));
            }
            return true;
        }
        i = i + 1;
    }
    false
}

/// A job scorer's decision for a colonist at `pos` that carries items with the tags in
/// `carried`, for a job that needs an item with the tags `tags`: no job when none is in
/// reach nearer than `FAR_AWAY`; otherwise the job `pick_nearest_job` picks, with the
/// keenness `item_score` gives for carrying such an item or having a usable one in reach.
pub fn score_job(
    jobs: &Vec<JobCandidate>,
    pos: [u32; 3],
    carried: &Vec<Vec<ItemTag>>,
    free: &Vec<FreeItem>,
    tags: &Vec<ItemTag>,
) -> (r: Option<(usize, ScoreLevel)>)
    ensures
        match r {
            Some((i, level)) => {
                &&& (is_first_adjacent(jobs@, pos, i as int) || (is_first_nearest(jobs@, pos, i as int) && forall|k: int|
                    !is_first_adjacent(jobs@, pos, k)))
                &&& level == (if exists|c: int| 0 <= c < carried.len() && #[trigger] has_tags(carried@[c]@, tags@) {
                    ScoreLevel::High
                } else if exists|f: int| 0 <= f < free.len() && #[trigger] usable_free_item(free@[f], tags@) {
                    ScoreLevel::Low
                } else {
                    ScoreLevel::Zero
                })
            },
            None => forall|k: int| 0 <= k < jobs.len() && eligible(#[trigger] jobs@[k]) ==> spec_manhattan(jobs@[k].target, pos) >= FAR_AWAY,
        },
        r is Some && (r->0).1 == ScoreLevel::Low ==> exists|f: int|
            0 <= f < free.len() && free@[f].reachable && !free@[f].reserved && #[trigger] has_tags(free@[f].tags@, tags@),
        r is Some && (forall|c: int| 0 <= c < carried.len() ==> !#[trigger] has_tags(carried@[c]@, tags@))
            && (forall|f: int| 0 <= f < free.len() && free@[f].reachable && !free@[f].reserved ==> !#[trigger] has_tags(free@[f].tags@, tags@))
            ==> (r->0).1 == ScoreLevel::Zero,
{
    match pick_nearest_job(jobs, pos) {
        None => None,
        Some(i) => {
            let has_item = any_item_has_tags(carried, tags);
            let level = item_score(has_item, !has_item && any_usable_free_item(free, tags));
            Some((i, level))
        },
    }
}

/// A free item counts as a tool to be had exactly when nobody has claimed it, the
/// colonist can reach it, and it carries every tag asked for.
pub proof fn lemma_usable_free_item_iff(it: FreeItem, tags: Seq<ItemTag>)
    ensures
        usable_free_item(it, tags) <==> (it.reachable && !it.reserved && forall|t: int|
            0 <= t < tags.len() ==> it.tags@.contains(#[trigger] tags[t])),
{
}

} // verus!
