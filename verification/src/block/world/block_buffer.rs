use vstd::prelude::*;

use super::block::{spec_is_filled, Block};
use super::shape::{spec_grid_size, spec_shape_fits, GridShape};

verus! {

/// The blocks and torch light of one cubic chunk.
#[derive(Clone)]
pub struct BlockBuffer {
    pub shape: GridShape,
    pub blocks: Vec<Block>,
    pub light: Vec<u8>,
    pub block_count: u32,
    pub chunk_idx: u32,
    pub chunk_size: u32,
    pub world_x: u32,
    pub world_y: u32,
    pub world_z: u32,
    pub is_dirty: bool,
}

/// Every cell of a grid has a linear index below the grid's size.
pub proof fn lemma_index_in_bounds(s: GridShape, x: int, y: int, z: int)
    requires
        s.contains(x, y, z),
    ensures
        0 <= s.spec_index(x, y, z) < s.spec_size(),
{
    let d0 = s.dims[0] as int;
    let d1 = s.dims[1] as int;
    let d2 = s.dims[2] as int;
    assert(0 <= x + d0 * y + d0 * d1 * z <= (d0 - 1) + d0 * (d1 - 1) + d0 * d1 * (d2 - 1))
        by (nonlinear_arith)
        requires
            0 <= x < d0,
            0 <= y < d1,
            0 <= z < d2,
    ;
    assert((d0 - 1) + d0 * (d1 - 1) + d0 * d1 * (d2 - 1) == d0 * d1 * d2 - 1) by (nonlinear_arith);
}

/// The (dx, dy, dz) offset of each of the 26 neighbors, in the order the buffer reports
/// them: the layer above, the middle layer without the center, then the layer below; in
/// each layer the forward row (z - 1), the middle row, then the row behind (z + 1), and
/// in each row left (x - 1), middle, right (x + 1).
pub open spec fn neighbor_offset(k: int) -> (int, int, int) {
    if k < 9 {
        ((k % 3) - 1, 1, (k / 3) - 1)
    } else if k < 17 {
        let m = if k < 13 { k - 9 } else { k - 8 };
        ((m % 3) - 1, 0, (m / 3) - 1)
    } else {
        (((k - 17) % 3) - 1, -1, ((k - 17) / 3) - 1)
    }
}

/// Neighbor slots in the array that `get_neighbors` returns.
pub struct Neighbor(pub u8);

impl Neighbor {
    pub const ABOVE_FORWARD_LEFT: u8 = 0;
    pub const ABOVE_FORWARD: u8 = 1;
    pub const ABOVE_FORWARD_RIGHT: u8 = 2;
    pub const ABOVE_LEFT: u8 = 3;
    pub const ABOVE: u8 = 4;
    pub const ABOVE_RIGHT: u8 = 5;
    pub const ABOVE_BEHIND_LEFT: u8 = 6;
    pub const ABOVE_BEHIND: u8 = 7;
    pub const ABOVE_BEHIND_RIGHT: u8 = 8;
    pub const FORWARD_LEFT: u8 = 9;
    pub const FORWARD: u8 = 10;
    pub const FORWARD_RIGHT: u8 = 11;
    pub const LEFT: u8 = 12;
    pub const RIGHT: u8 = 13;
    pub const BEHIND_LEFT: u8 = 14;
    pub const BEHIND: u8 = 15;
    pub const BEHIND_RIGHT: u8 = 16;
    pub const BELOW_FORWARD_LEFT: u8 = 17;
    pub const BELOW_FORWARD: u8 = 18;
    pub const BELOW_FORWARD_RIGHT: u8 = 19;
    pub const BELOW_LEFT: u8 = 20;
    pub const BELOW: u8 = 21;
    pub const BELOW_RIGHT: u8 = 22;
    pub const BELOW_BEHIND_LEFT: u8 = 23;
    pub const BELOW_BEHIND: u8 = 24;
    pub const BELOW_BEHIND_RIGHT: u8 = 25;

    pub fn idx(&self) -> (r: usize)
        ensures
            r == self.0,
    {
        self.0 as usize
    }
}

impl BlockBuffer {
    /// The buffer's invariant: a shape ndshape can handle, no more blocks counted than the
    /// shape holds, and a chunk size within every dimension of the shape.
    pub open spec fn wf(&self) -> bool {
        &&& self.shape.wf()
        &&& self.block_count <= self.shape.spec_size()
        &&& self.chunk_size <= self.shape.dims[0]
        &&& self.chunk_size <= self.shape.dims[1]
        &&& self.chunk_size <= self.shape.dims[2]
    }

    /// Whether the buffer meets its invariant `wf`, tested on its fields.
    pub fn is_wf(&self) -> (r: bool)
        ensures
            r == self.wf(),
    {
        let d = self.shape.dims;
        assert(d[0] as u64 * d[1] as u64 <= u32::MAX as u64 * u32::MAX as u64) by (nonlinear_arith)
            requires
                d[0] <= u32::MAX,
                d[1] <= u32::MAX,
        ;
        let d01: u64 = d[0] as u64 * d[1] as u64;
        if d01 > u32::MAX as u64 {
            return false;
        }
        assert(d01 * d[2] as u64 <= u32::MAX as u64 * u32::MAX as u64) by (nonlinear_arith)
            requires
                d01 <= u32::MAX,
                d[2] <= u32::MAX,
        ;
        let size: u64 = d01 * d[2] as u64;
        if size > u32::MAX as u64 {
            return false;
        }
        proof {
            assert(d01 == d[0] * d[1]);
            assert(size == d[0] * d[1] * d[2]);
        }
        d[0] < i32::MAX as u32 && d[1] < i32::MAX as u32 && d[2] < i32::MAX as u32 && self.block_count as u64 <= size
            && self.chunk_size <= d[0] && self.chunk_size <= d[1] && self.chunk_size <= d[2]
    }

    /// The block stored at a linear index, out of bounds past the end of the buffer.
    pub open spec fn spec_block(&self, i: int) -> Block {
        if 0 <= i < self.blocks.len() {
            self.blocks@[i]
        } else {
            Block(0)
        }
    }

    /// The light stored at a linear index, 0 past the end of the buffer.
    pub open spec fn spec_light(&self, i: int) -> u8 {
        if 0 <= i < self.light.len() {
            self.light@[i]
        } else {
            0
        }
    }

    /// Whether a coordinate lies outside the cube of side `chunk_size`.
    pub open spec fn spec_is_oob(&self, x: int, y: int, z: int) -> bool {
        let c = (self.chunk_size as i32) as int;
        x < 0 || y < 0 || z < 0 || x >= c || y >= c || z >= c
    }

    /// The block at a coordinate of the chunk, out of bounds outside it.
    pub open spec fn spec_block_at(&self, x: int, y: int, z: int) -> Block {
        if self.spec_is_oob(x, y, z) {
            Block(0)
        } else {
            self.spec_block(self.shape.spec_index(x, y, z))
        }
    }

    /// A fresh buffer of empty blocks and no light, one per cell of `shape`, marked dirty.
    pub fn new(shape: GridShape) -> (r: Self)
        requires
            spec_shape_fits(shape.dims),
        ensures
            r.shape == shape,
            r.block_count == shape.spec_size(),
            r.blocks@.len() == shape.spec_size(),
            r.light@.len() == shape.spec_size(),
            forall|i: int| 0 <= i < r.blocks@.len() ==> r.blocks@[i] == Block(1),
            forall|i: int| 0 <= i < r.light@.len() ==> r.light@[i] == 0,
            r.chunk_idx == 0,
            r.chunk_size == 0,
            r.world_x == 0,
            r.world_y == 0,
            r.world_z == 0,
            r.is_dirty,
            shape.wf() ==> r.wf(),
    {
        let size = shape.size();
        let mut blocks: Vec<Block> = Vec::new();
        let mut light: Vec<u8> = Vec::new();
        let mut i: u32 = 0;
        while i < size
            invariant
                i <= size,
                blocks@.len() == i,
                light@.len() == i,
                forall|j: int| 0 <= j < blocks@.len() ==> blocks@[j] == Block(1),
                forall|j: int| 0 <= j < light@.len() ==> light@[j] == 0,
            decreases size - i,
        {
            blocks.push(Block(1));
            light.push(0);
            i = i + 1;
        }
        BlockBuffer {
            blocks,
            light,
            block_count: size,
            shape,
            chunk_idx: 0,
            chunk_size: 0,
            world_x: 0,
            world_y: 0,
            world_z: 0,
            is_dirty: true,
        }
    }

    /// Stores a block and marks the buffer dirty. The index must be inside the buffer.
    pub fn set(&mut self, block_idx: u32, value: Block)
        requires
            block_idx < old(self).blocks@.len(),
        ensures
            final(self).blocks@ == old(self).blocks@.update(block_idx as int, value),
            final(self).is_dirty,
            final(self).light@ == old(self).light@,
            final(self).shape == old(self).shape,
            final(self).block_count == old(self).block_count,
            final(self).chunk_idx == old(self).chunk_idx,
            final(self).chunk_size == old(self).chunk_size,
            final(self).world_x == old(self).world_x,
            final(self).world_y == old(self).world_y,
            final(self).world_z == old(self).world_z,
    {
        self.blocks.set(block_idx as usize, value);
        self.is_dirty = true;
    }

    /// The linear index of a coordinate of the chunk.
    pub fn get_block_idx(&self, x: u32, y: u32, z: u32) -> (r: u32)
        requires
            self.shape.wf(),
            self.shape.spec_index(x as int, y as int, z as int) <= u32::MAX,
        ensures
            r == self.shape.spec_index(x as int, y as int, z as int),
    {
        self.shape.linearize([x, y, z])
    }

    /// The coordinate of a linear index of the chunk.
    pub fn get_block_xyz(&self, block_idx: u32) -> (r: [u32; 3])
        requires
            self.shape.wf(),
            self.shape.dims[0] * self.shape.dims[1] > 0,
        ensures
            r[2] == block_idx as int / (self.shape.dims[0] * self.shape.dims[1]),
            r[1] == (block_idx as int % (self.shape.dims[0] * self.shape.dims[1]))
                / self.shape.dims[0] as int,
            r[0] == (block_idx as int % (self.shape.dims[0] * self.shape.dims[1]))
                % self.shape.dims[0] as int,
    {
        self.shape.delinearize(block_idx)
    }

    pub fn get_block(&self, block_idx: u32) -> (r: Block)
        ensures
            r == self.spec_block(block_idx as int),
    {
        if (block_idx as usize) < self.blocks.len() {
            return self.blocks[block_idx as usize];
        }
        Block(0)
    }

    pub fn get_torchlight(&self, block_idx: u32) -> (r: u8)
        ensures
            r == self.spec_light(block_idx as int),
    {
        if (block_idx as usize) < self.light.len() {
            return self.light[block_idx as usize];
        }
        0
    }

    /// Stores a torch light value and marks the buffer dirty. The index must be inside the
    /// buffer.
    pub fn set_torchlight(&mut self, block_idx: u32, value: u8)
        requires
            block_idx < old(self).light@.len(),
        ensures
            final(self).light@ == old(self).light@.update(block_idx as int, value),
            final(self).is_dirty,
            final(self).blocks@ == old(self).blocks@,
            final(self).shape == old(self).shape,
            final(self).block_count == old(self).block_count,
            final(self).chunk_idx == old(self).chunk_idx,
            final(self).chunk_size == old(self).chunk_size,
            final(self).world_x == old(self).world_x,
            final(self).world_y == old(self).world_y,
            final(self).world_z == old(self).world_z,
    {
        self.light.set(block_idx as usize, value);
        self.is_dirty = true;
    }

    pub fn is_oob(&self, x: i32, y: i32, z: i32) -> (r: bool)
        ensures
            r == self.spec_is_oob(x as int, y as int, z as int),
    {
        let chunk_size_i32 = self.chunk_size as i32;
        x < 0 || y < 0 || z < 0 || x >= chunk_size_i32 || y >= chunk_size_i32 || z
            >= chunk_size_i32
    }

    pub fn get_block_by_xyz(&self, x: i32, y: i32, z: i32) -> (r: Block)
        requires
            self.wf(),
        ensures
            r == self.spec_block_at(x as int, y as int, z as int),
    {
        if self.is_oob(x, y, z) {
            return Block(0);
        }
        proof {
            lemma_index_in_bounds(self.shape, x as int, y as int, z as int);
        }
        let block_idx = self.get_block_idx(x as u32, y as u32, z as u32);
        self.get_block(block_idx)
    }
    /// The six face neighbors of a coordinate: above, forward (z - 1), right (x + 1),
    /// behind (z + 1), left (x - 1) and below.
    pub fn get_immediate_neighbors(&self, x: u32, y: u32, z: u32) -> (r: [Block; 6])
        requires
            self.wf(),
            i32::MIN < (x as i32) < i32::MAX,
            i32::MIN < (y as i32) < i32::MAX,
            i32::MIN < (z as i32) < i32::MAX,
        ensures
            ({
                let (xi, yi, zi) = (x as i32 as int, y as i32 as int, z as i32 as int);
                &&& r[0] == self.spec_block_at(xi, yi + 1, zi)
                &&& r[1] == self.spec_block_at(xi, yi, zi - 1)
                &&& r[2] == self.spec_block_at(xi + 1, yi, zi)
                &&& r[3] == self.spec_block_at(xi, yi, zi + 1)
                &&& r[4] == self.spec_block_at(xi - 1, yi, zi)
                &&& r[5] == self.spec_block_at(xi, yi - 1, zi)
            }),
    {
        let x_i32 = x as i32;
        let y_i32 = y as i32;
        let z_i32 = z as i32;

        [
            self.get_block_by_xyz(x_i32, y_i32 + 1, z_i32),
            self.get_block_by_xyz(x_i32, y_i32, z_i32 - 1),
            self.get_block_by_xyz(x_i32 + 1, y_i32, z_i32),
            self.get_block_by_xyz(x_i32, y_i32, z_i32 + 1),
            self.get_block_by_xyz(x_i32 - 1, y_i32, z_i32),
            self.get_block_by_xyz(x_i32, y_i32 - 1, z_i32),
        ]
    }

    /// All 26 neighbors of a coordinate, in the order `neighbor_offset` gives.
    pub fn get_neighbors(&self, x: u32, y: u32, z: u32) -> (r: [Block; 26])
        requires
            self.wf(),
            i32::MIN < (x as i32) < i32::MAX,
            i32::MIN < (y as i32) < i32::MAX,
            i32::MIN < (z as i32) < i32::MAX,
        ensures
            forall|k: int|
                #![trigger r[k]]
                0 <= k < 26 ==> r[k] == self.spec_block_at(
                    x as i32 as int + neighbor_offset(k).0,
                    y as i32 as int + neighbor_offset(k).1,
                    z as i32 as int + neighbor_offset(k).2,
                ),
    {
        let x_i32 = x as i32;
        let y_i32 = y as i32;
        let z_i32 = z as i32;

        let above = y_i32 + 1;
        let below = y_i32 - 1;
        let left = x_i32 - 1;
        let right = x_i32 + 1;
        let forward = z_i32 - 1;
        let behind = z_i32 + 1;

        let r = [
            self.get_block_by_xyz(left, above, forward),
            self.get_block_by_xyz(x_i32, above, forward),
            self.get_block_by_xyz(right, above, forward),
            self.get_block_by_xyz(left, above, z_i32),
            self.get_block_by_xyz(x_i32, above, z_i32),
            self.get_block_by_xyz(right, above, z_i32),
            self.get_block_by_xyz(left, above, behind),
            self.get_block_by_xyz(x_i32, above, behind),
            self.get_block_by_xyz(right, above, behind),
            self.get_block_by_xyz(left, y_i32, forward),
            self.get_block_by_xyz(x_i32, y_i32, forward),
            self.get_block_by_xyz(right, y_i32, forward),
            self.get_block_by_xyz(left, y_i32, z_i32),
            self.get_block_by_xyz(right, y_i32, z_i32),
            self.get_block_by_xyz(left, y_i32, behind),
            self.get_block_by_xyz(x_i32, y_i32, behind),
            self.get_block_by_xyz(right, y_i32, behind),
            self.get_block_by_xyz(left, below, forward),
            self.get_block_by_xyz(x_i32, below, forward),
            self.get_block_by_xyz(right, below, forward),
            self.get_block_by_xyz(left, below, z_i32),
            self.get_block_by_xyz(x_i32, below, z_i32),
            self.get_block_by_xyz(right, below, z_i32),
            self.get_block_by_xyz(left, below, behind),
            self.get_block_by_xyz(x_i32, below, behind),
            self.get_block_by_xyz(right, below, behind),
        ];
        assert forall|k: int| 0 <= k < 26 implies #[trigger] r[k] == self.spec_block_at(
            x as i32 as int + neighbor_offset(k).0,
            y as i32 as int + neighbor_offset(k).1,
            z as i32 as int + neighbor_offset(k).2,
        ) by {
            assert(0 <= k < 26);
        }
        r
    }
}

/// Whether `o` steps to one of the 26 cells around a cell: each component is -1, 0 or 1,
/// and not all are 0.
pub open spec fn is_neighbor_step(o: (int, int, int)) -> bool {
    &&& -1 <= o.0 <= 1
    &&& -1 <= o.1 <= 1
    &&& -1 <= o.2 <= 1
    &&& !(o.0 == 0 && o.1 == 0 && o.2 == 0)
}

/// The slot of the neighbor at offset `o`, counted layer by layer from above, row by row
/// from the front, left to right, the center of the middle layer skipped.
pub open spec fn neighbor_slot(o: (int, int, int)) -> int {
    let m = (o.2 + 1) * 3 + (o.0 + 1);
    if o.1 == 1 {
        m
    } else if o.1 == 0 {
        if m < 4 { 9 + m } else { 8 + m }
    } else {
        17 + m
    }
}

/// The 26 neighbor slots name the 26 cells around a cell, each exactly once: every slot
/// steps to a neighboring cell, different slots to different cells, and every
/// neighboring cell has a slot.
pub proof fn lemma_neighbor_slots_are_the_26_neighbors(k: int, o: (int, int, int))
    ensures
        0 <= k < 26 ==> is_neighbor_step(neighbor_offset(k)) && neighbor_slot(neighbor_offset(k)) == k,
        is_neighbor_step(o) ==> 0 <= neighbor_slot(o) < 26 && neighbor_offset(neighbor_slot(o)) == o,
{
    if 0 <= k < 26 {
        if k < 9 {
            assert(0 <= k % 3 < 3 && 0 <= k / 3 < 3 && k == (k / 3) * 3 + k % 3);
        } else if k < 17 {
            let m = if k < 13 { k - 9 } else { k - 8 };
            assert(0 <= m % 3 < 3 && 0 <= m / 3 < 3 && m == (m / 3) * 3 + m % 3);
        } else {
            let m = k - 17;
            assert(0 <= m % 3 < 3 && 0 <= m / 3 < 3 && m == (m / 3) * 3 + m % 3);
        }
    }
    if is_neighbor_step(o) {
        let m = (o.2 + 1) * 3 + (o.0 + 1);
        assert(m % 3 == o.0 + 1 && m / 3 == o.2 + 1);
    }
}

} // verus!
