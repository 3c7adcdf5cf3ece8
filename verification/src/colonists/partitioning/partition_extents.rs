use vstd::prelude::*;

verus! {

/// The bounding box of the cells of a partition.
pub struct PartitionExtents {
    pub is_init: bool,
    pub min_x: u32,
    pub min_y: u32,
    pub min_z: u32,
    pub max_x: u32,
    pub max_y: u32,
    pub max_z: u32,
}

/// The lowest of `a` and `b`.
pub open spec fn spec_min(a: u32, b: u32) -> u32 {
    if a <= b { a } else { b }
}

/// The highest of `a` and `b`.
pub open spec fn spec_max(a: u32, b: u32) -> u32 {
    if a >= b { a } else { b }
}

/// The box `e` grown to take in `pos`: just that cell when `e` has taken in none yet.
pub open spec fn spec_extended(e: PartitionExtents, pos: [u32; 3]) -> PartitionExtents {
    if !e.is_init {
        PartitionExtents {
            is_init: true,
            min_x: pos[0],
            min_y: pos[1],
            min_z: pos[2],
            max_x: pos[0],
            max_y: pos[1],
            max_z: pos[2],
        }
    } else {
        PartitionExtents {
            is_init: true,
            min_x: spec_min(pos[0], e.min_x),
            min_y: spec_min(pos[1], e.min_y),
            min_z: spec_min(pos[2], e.min_z),
            max_x: spec_max(pos[0], e.max_x),
            max_y: spec_max(pos[1], e.max_y),
            max_z: spec_max(pos[2], e.max_z),
        }
    }
}

impl PartitionExtents {
    /// Whether a cell has been taken in yet.
    pub open spec fn spec_is_init(&self) -> bool {
        self.is_init
    }

    /// Whether each lower bound lies at or below its upper bound.
    pub open spec fn ordered(&self) -> bool {
        &&& self.min_x <= self.max_x
        &&& self.min_y <= self.max_y
        &&& self.min_z <= self.max_z
    }

    /// The cell halfway between the corners, rounded down.
    pub fn center(&self) -> (r: [u32; 3])
        requires
            self.ordered(),
        ensures
            r[0] == self.min_x + (self.max_x - self.min_x) / 2,
            r[1] == self.min_y + (self.max_y - self.min_y) / 2,
            r[2] == self.min_z + (self.max_z - self.min_z) / 2,
    {
        [
            self.min_x + (self.max_x - self.min_x) / 2,
            self.min_y + (self.max_y - self.min_y) / 2,
            self.min_z + (self.max_z - self.min_z) / 2,
        ]
    }

    /// Grows the box to take in `pos`; the first cell taken in sets both corners.
    pub fn extend(&mut self, pos: [u32; 3])
        ensures
            *final(self) == spec_extended(*old(self), pos),
            final(self).spec_is_init(),
            !old(self).spec_is_init() ==> {
                &&& final(self).min_x == pos[0] && final(self).max_x == pos[0]
                &&& final(self).min_y == pos[1] && final(self).max_y == pos[1]
                &&& final(self).min_z == pos[2] && final(self).max_z == pos[2]
            },
            old(self).spec_is_init() ==> {
                &&& final(self).min_x == spec_min(pos[0], old(self).min_x)
                &&& final(self).min_y == spec_min(pos[1], old(self).min_y)
                &&& final(self).min_z == spec_min(pos[2], old(self).min_z)
                &&& final(self).max_x == spec_max(pos[0], old(self).max_x)
                &&& final(self).max_y == spec_max(pos[1], old(self).max_y)
                &&& final(self).max_z == spec_max(pos[2], old(self).max_z)
            },
            final(self).ordered(),
    {
        if !self.is_init {
            self.min_x = pos[0];
            self.min_y = pos[1];
            self.min_z = pos[2];
            self.max_x = pos[0];
            self.max_y = pos[1];
            self.max_z = pos[2];
            self.is_init = true;
            return;
        }
        self.min_x = if pos[0] <= self.min_x { pos[0] } else { self.min_x };
        self.min_y = if pos[1] <= self.min_y { pos[1] } else { self.min_y };
        self.min_z = if pos[2] <= self.min_z { pos[2] } else { self.min_z };
        self.max_x = if pos[0] >= self.max_x { pos[0] } else { self.max_x };
        self.max_y = if pos[1] >= self.max_y { pos[1] } else { self.max_y };
        self.max_z = if pos[2] >= self.max_z { pos[2] } else { self.max_z };
    }
}

impl Default for PartitionExtents {
    fn default() -> (r: Self)
        ensures
            !r.spec_is_init(),
            r.min_x == 0 && r.min_y == 0 && r.min_z == 0,
            r.max_x == 0 && r.max_y == 0 && r.max_z == 0,
    {
        PartitionExtents { is_init: false, min_x: 0, min_y: 0, min_z: 0, max_x: 0, max_y: 0, max_z: 0 }
    }
}

/// Whether box `e` holds the cell `p`.
pub open spec fn holds_cell(e: PartitionExtents, p: [u32; 3]) -> bool {
    &&& e.min_x <= p[0] <= e.max_x
    &&& e.min_y <= p[1] <= e.max_y
    &&& e.min_z <= p[2] <= e.max_z
}

/// Whether box `outer` holds all of box `inner`.
pub open spec fn holds_box(outer: PartitionExtents, inner: PartitionExtents) -> bool {
    &&& outer.min_x <= inner.min_x && inner.max_x <= outer.max_x
    &&& outer.min_y <= inner.min_y && inner.max_y <= outer.max_y
    &&& outer.min_z <= inner.min_z && inner.max_z <= outer.max_z
}

/// Growing a box to take in a cell gives the smallest box that holds the cell and, once
/// a cell has been taken in, the old box: it holds both, and every box that holds both
/// holds it.
pub proof fn lemma_extended_is_smallest(e: PartitionExtents, pos: [u32; 3], b: PartitionExtents)
    ensures
        holds_cell(spec_extended(e, pos), pos),
        e.is_init ==> holds_box(spec_extended(e, pos), e),
        holds_cell(b, pos) && (e.is_init ==> holds_box(b, e)) ==> holds_box(b, spec_extended(e, pos)),
{
}

/// The center of an ordered box lies in the box.
pub proof fn lemma_center_in_box(e: PartitionExtents)
    requires
        e.ordered(),
    ensures
        holds_cell(
            e,
            [
                (e.min_x + (e.max_x - e.min_x) / 2) as u32,
                (e.min_y + (e.max_y - e.min_y) / 2) as u32,
                (e.min_z + (e.max_z - e.min_z) / 2) as u32,
            ],
        ),
{
}

} // verus!
