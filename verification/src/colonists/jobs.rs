pub mod job;
pub mod job_chop;
pub mod job_mine;
pub mod job_place_block;

use vstd::prelude::*;

verus! {

/// The kinds of job of the first job system: mining a block and building a wall.
#[derive(Clone, Copy, PartialEq, Eq, Debug, Structural)]
pub enum JobType {
    Mine,
    BuildWall,
}

/// Marks a mining job.
pub struct JobMine;

/// Marks a job that some colonist can reach.
pub struct IsJobAccessible;

/// The cell `(a, b, c)` as a position.
pub open spec fn cell(a: int, b: int, c: int) -> [u32; 3] {
    [a as u32, b as u32, c as u32]
}

pub open spec fn only_if(b: bool, s: Seq<[u32; 3]>) -> Seq<[u32; 3]> {
    if b {
        s
    } else {
        Seq::empty()
    }
}

/// The cells from which a colonist can mine the block at `(x, y, z)`, in the order the
/// job lists them: the neighbors on the +x and +z sides, level and one up, first; then
/// the cells on the -x side, the cells one and two below, and the cells on the -z side,
/// each only where the coordinates stay non-negative.
pub open spec fn spec_mine_points(x: int, y: int, z: int) -> Seq<[u32; 3]> {
    seq![cell(x + 1, y, z), cell(x, y, z + 1), cell(x + 1, y + 1, z), cell(x, y + 1, z + 1), cell(x + 1, y, z + 1)]
        + only_if(x > 0, seq![cell(x - 1, y, z), cell(x - 1, y + 1, z), cell(x - 1, y, z + 1)]
            + only_if(y > 0, seq![cell(x - 1, y - 1, z)]) + only_if(z > 0, seq![cell(x - 1, y, z - 1)]))
        + only_if(y > 0, seq![cell(x + 1, y - 1, z), cell(x, y - 1, z + 1)]
            + only_if(z > 0, seq![cell(x, y - 1, z - 1)] + only_if(y > 1, seq![cell(x, y - 2, z - 1)]))
            + only_if(y > 1, seq![cell(x, y - 2, z + 1)]))
        + only_if(z > 0, seq![cell(x, y, z - 1), cell(x, y + 1, z - 1), cell(x + 1, y, z - 1)])
}

/// The cells from which a colonist can build a wall at `(x, y, z)`.
pub open spec fn spec_wall_points(x: int, y: int, z: int) -> Seq<[u32; 3]> {
    seq![cell(x + 1, y, z), cell(x + 1, y + 1, z), cell(x, y, z + 1), cell(x, y + 1, z + 1)]
        + only_if(x > 0, seq![cell(x - 1, y, z), cell(x - 1, y + 1, z)] + only_if(y > 0, seq![cell(x - 1, y - 1, z)]))
        + only_if(z > 0, seq![cell(x, y, z - 1), cell(x, y + 1, z - 1)] + only_if(y > 0, seq![cell(x, y - 1, z - 1)]))
}

pub open spec fn spec_job_access_points(pos: [u32; 3], job: JobType) -> Seq<[u32; 3]> {
    match job {
        JobType::Mine => spec_mine_points(pos[0] as int, pos[1] as int, pos[2] as int),
        JobType::BuildWall => spec_wall_points(pos[0] as int, pos[1] as int, pos[2] as int),
    }
}

/// The position `[a, b, c]`.
pub fn pt(a: u32, b: u32, c: u32) -> (r: [u32; 3])
    ensures
        r == cell(a as int, b as int, c as int),
{
    let r = [a, b, c];
    assert(r@ =~= cell(a as int, b as int, c as int)@);
    r
}

/// The cells from which the block at `(x, y, z)` can be mined.
pub fn mine_points(x: u32, y: u32, z: u32) -> (r: Vec<[u32; 3]>)
    requires
        x < u32::MAX,
        y < u32::MAX,
        z < u32::MAX,
    ensures
        r@ == spec_mine_points(x as int, y as int, z as int),
{
    let mut goals = vec![pt(x + 1, y, z), pt(x, y, z + 1), pt(x + 1, y + 1, z), pt(x, y + 1, z + 1), pt(x + 1, y, z + 1)];
    let ghost g0 = goals@;
    if x > 0 {
        goals.push(pt(x - 1, y, z));
        goals.push(pt(x - 1, y + 1, z));
        goals.push(pt(x - 1, y, z + 1));
        if y > 0 {
            goals.push(pt(x - 1, y - 1, z));
        }
        if z > 0 {
            goals.push(pt(x - 1, y, z - 1));
        }
    }
    let ghost g1 = goals@;
    assert(g1 =~= g0 + only_if(x > 0, seq![cell(x - 1, y as int, z as int), cell(x - 1, y + 1, z as int), cell(x - 1, y as int, z + 1)]
        + only_if(y > 0, seq![cell(x - 1, y - 1, z as int)]) + only_if(z > 0, seq![cell(x - 1, y as int, z - 1)])));
    if y > 0 {
        goals.push(pt(x + 1, y - 1, z));
        goals.push(pt(x, y - 1, z + 1));
        if z > 0 {
            goals.push(pt(x, y - 1, z - 1));
            if y > 1 {
                goals.push(pt(x, y - 2, z - 1));
            }
        }
        if y > 1 {
            goals.push(pt(x, y - 2, z + 1));
        }
    }
    let ghost g2 = goals@;
    assert(g2 =~= g1 + only_if(y > 0, seq![cell(x + 1, y - 1, z as int), cell(x as int, y - 1, z + 1)]
        + only_if(z > 0, seq![cell(x as int, y - 1, z - 1)] + only_if(y > 1, seq![cell(x as int, y - 2, z - 1)]))
        + only_if(y > 1, seq![cell(x as int, y - 2, z + 1)])));
    if z > 0 {
        goals.push(pt(x, y, z - 1));
        goals.push(pt(x, y + 1, z - 1));
        goals.push(pt(x + 1, y, z - 1));
    }
    assert(goals@ =~= g2 + only_if(z > 0, seq![cell(x as int, y as int, z - 1), cell(x as int, y + 1, z - 1), cell(x + 1, y as int, z - 1)]));
    assert(goals@ =~= spec_mine_points(x as int, y as int, z as int));
    goals
}

/// The cells from which a wall at `(x, y, z)` can be built.
pub fn wall_points(x: u32, y: u32, z: u32) -> (r: Vec<[u32; 3]>)
    requires
        x < u32::MAX,
        y < u32::MAX,
        z < u32::MAX,
    ensures
        r@ == spec_wall_points(x as int, y as int, z as int),
{
    let mut goals = vec![pt(x + 1, y, z), pt(x + 1, y + 1, z), pt(x, y, z + 1), pt(x, y + 1, z + 1)];
    let ghost g0 = goals@;
    if x > 0 {
        goals.push(pt(x - 1, y, z));
        goals.push(pt(x - 1, y + 1, z));
        if y > 0 {
            goals.push(pt(x - 1, y - 1, z));
        }
    }
    let ghost g1 = goals@;
    assert(g1 =~= g0 + only_if(x > 0, seq![cell(x - 1, y as int, z as int), cell(x - 1, y + 1, z as int)] + only_if(y > 0, seq![cell(x - 1, y - 1, z as int)])));
    if z > 0 {
        goals.push(pt(x, y, z - 1));
        goals.push(pt(x, y + 1, z - 1));
        if y > 0 {
            goals.push(pt(x, y - 1, z - 1));
        }
    }
    assert(goals@ =~= g1 + only_if(z > 0, seq![cell(x as int, y as int, z - 1), cell(x as int, y + 1, z - 1)] + only_if(y > 0, seq![cell(x as int, y - 1, z - 1)])));
    assert(goals@ =~= spec_wall_points(x as int, y as int, z as int));
    goals
}

/// The cells a colonist may stand on to work a job at `pos`.
pub fn job_access_points(pos: [u32; 3], job: JobType) -> (r: Vec<[u32; 3]>)
    requires
        pos[0] < u32::MAX,
        pos[1] < u32::MAX,
        pos[2] < u32::MAX,
    ensures
        r@ == spec_job_access_points(pos, job),
{
    match job {
        JobType::Mine => mine_points(pos[0], pos[1], pos[2]),
        JobType::BuildWall => wall_points(pos[0], pos[1], pos[2]),
    }
}

} // verus!
