use vstd::prelude::*;

use super::navigation_flags::NavigationFlags;

verus! {

/// What the flood that builds a partition does with a cell it reaches.
#[derive(Clone, Copy, PartialEq, Eq, Debug)]
pub enum FloodCell {
    /// Outside the world, already in the partition, or not walkable: stop here.
    Stop,
    /// The cell the flood started from: go on from it.
    Seed,
    /// A cell of another partition that differs in flags or chunk: make the two
    /// partitions neighbors and stop.
    Link(u32),
    /// A cell of another partition with the same flags in the same chunk: merge that
    /// partition into this one and go on.
    Merge(u32),
    /// A cell of no partition with other flags: give it a partition in a new region that
    /// neighbors this one, and stop.
    NewRegion,
    /// A cell of no partition with the same flags in another chunk: give it a partition
    /// of this region, and stop.
    NewPartition,
    /// A cell of no partition with the same flags in the same chunk: add it to this
    /// partition and go on.
    Claim,
}

/// Whether the flood goes on past a cell it handles so.
pub open spec fn spec_flood_continues(c: FloodCell) -> bool {
    c is Seed || c is Merge || c is Claim
}

/// How the flood from the seed cell of partition `partition_id`, whose cells have flags
/// `flags`, handles a cell it reaches: whether the cell lies outside the world, is the
/// seed, the partition it already lies in, its own flags, and whether it lies in the seed's
/// chunk.
pub open spec fn spec_flood_cell(
    out_of_world: bool,
    is_seed: bool,
    cell_partition: Option<u32>,
    partition_id: u32,
    cell_flags: NavigationFlags,
    flags: NavigationFlags,
    same_chunk: bool,
) -> FloodCell {
    if out_of_world {
        FloodCell::Stop
    } else if is_seed {
        FloodCell::Seed
    } else {
        match cell_partition {
            Some(np) => if np == partition_id || cell_flags.bits == 0 {
                FloodCell::Stop
            } else if cell_flags != flags || !same_chunk {
                FloodCell::Link(np)
            } else {
                FloodCell::Merge(np)
            },
            None => if cell_flags.bits == 0 {
                FloodCell::Stop
            } else if cell_flags != flags {
                FloodCell::NewRegion
            } else if !same_chunk {
                FloodCell::NewPartition
            } else {
                FloodCell::Claim
            },
        }
    }
}

/// Decides how the flood from the seed of partition `partition_id` handles a cell it
/// reaches, as `spec_flood_cell` describes.
pub fn flood_cell(
    out_of_world: bool,
    is_seed: bool,
    cell_partition: Option<u32>,
    partition_id: u32,
    cell_flags: NavigationFlags,
    flags: NavigationFlags,
    same_chunk: bool,
) -> (r: FloodCell)
    ensures
        r == spec_flood_cell(out_of_world, is_seed, cell_partition, partition_id, cell_flags, flags, same_chunk),
{
    if out_of_world {
        return FloodCell::Stop;
    }
    if is_seed {
        return FloodCell::Seed;
    }
    let flag_diff = cell_flags.bits != flags.bits;
    match cell_partition {
        Some(np) => {
            if np == partition_id || cell_flags.is_empty() {
                FloodCell::Stop
            } else if flag_diff || !same_chunk {
                FloodCell::Link(np)
            } else {
                FloodCell::Merge(np)
            }
        },
        None => {
            if cell_flags.is_empty() {
                FloodCell::Stop
            } else if flag_diff {
                FloodCell::NewRegion
            } else if !same_chunk {
                FloodCell::NewPartition
            } else {
                FloodCell::Claim
            }
        },
    }
}

/// Whether the flood goes on past a cell it handles as `c`.
pub fn flood_continues(c: FloodCell) -> (r: bool)
    ensures
        r == spec_flood_continues(c),
{
    match c {
        FloodCell::Seed | FloodCell::Merge(_) | FloodCell::Claim => true,
        _ => false,
    }
}

/// The flood goes on past a cell exactly when the cell becomes part of the partition being
/// built: the seed itself, or a walkable cell of the seed's chunk with the seed's flags
/// that is not yet in this partition (claimed, or merged in with its partition). A cell
/// outside the world, of other flags, or in another chunk stops it.
pub proof fn lemma_flood_goes_on_only_within(
    out_of_world: bool,
    is_seed: bool,
    cell_partition: Option<u32>,
    partition_id: u32,
    cell_flags: NavigationFlags,
    flags: NavigationFlags,
    same_chunk: bool,
)
    ensures
        spec_flood_continues(
            spec_flood_cell(out_of_world, is_seed, cell_partition, partition_id, cell_flags, flags, same_chunk),
        ) <==> !out_of_world && (is_seed || (same_chunk && cell_flags == flags && cell_flags.bits != 0
            && cell_partition != Some(partition_id))),
{
}

} // verus!
