use vstd::prelude::*;

use super::block_buffer::BlockBuffer;
use super::shape::{spec_grid_size, spec_shape_fits, GridShape};

verus! {

/// The world: a grid of cubic chunks.
pub struct Terrain {
    pub chunk_count_x: u32,
    pub chunk_count_y: u32,
    pub chunk_count_z: u32,
    pub chunk_size: u32,
    pub chunk_count: u32,
    pub shape: GridShape,
    pub chunks: Vec<BlockBuffer>,
}

/// A chunk as `BlockBuffer::new` makes it for a cube of side `chunk_size`: all empty,
/// all dark, dirty.
pub open spec fn fresh_chunk(c: BlockBuffer, chunk_size: u32) -> bool {
    &&& c.wf()
    &&& c.shape.dims == [chunk_size, chunk_size, chunk_size]
    &&& c.block_count == spec_grid_size(c.shape.dims)
    &&& c.blocks@.len() == c.block_count
    &&& c.light@.len() == c.block_count
    &&& (forall|j: int| 0 <= j < c.blocks@.len() ==> c.blocks@[j].0 == 1)
    &&& (forall|j: int| 0 <= j < c.light@.len() ==> c.light@[j] == 0)
    &&& c.chunk_idx == 0 && c.chunk_size == 0
    &&& c.world_x == 0 && c.world_y == 0 && c.world_z == 0
    &&& c.is_dirty
}

impl Terrain {
    /// A world of `chunk_count_x * chunk_count_y * chunk_count_z` fresh chunks of side
    /// `chunk_size`, laid out x first, then y, then z.
    pub fn new(chunk_count_x: u32, chunk_count_y: u32, chunk_count_z: u32, chunk_size: u32) -> (r: Self)
        requires
            spec_shape_fits([chunk_count_x, chunk_count_y, chunk_count_z]),
            spec_shape_fits([chunk_size, chunk_size, chunk_size]),
        ensures
            r.chunk_count_x == chunk_count_x,
            r.chunk_count_y == chunk_count_y,
            r.chunk_count_z == chunk_count_z,
            r.chunk_size == chunk_size,
            r.shape.dims == [chunk_count_x, chunk_count_y, chunk_count_z],
            r.chunk_count == spec_grid_size(r.shape.dims),
            r.chunks@.len() == r.chunk_count,
            forall|i: int|
                #![trigger r.chunks@[i]]
                0 <= i < r.chunks@.len() ==> fresh_chunk(r.chunks@[i], chunk_size),
    {
        proof {
            if chunk_size >= 0x10000 {
                assert(chunk_size * chunk_size >= 0x10000 * 0x10000) by (nonlinear_arith)
                    requires
                        chunk_size >= 0x10000,
                ;
            }
        }
        let shape = GridShape::new([chunk_count_x, chunk_count_y, chunk_count_z]);
        let chunk_shape = GridShape::new([chunk_size, chunk_size, chunk_size]);
        let count = shape.size();
        let mut chunks: Vec<BlockBuffer> = Vec::new();
        let mut i: u32 = 0;
        while i < count
            invariant
                i <= count,
                chunk_shape.wf(),
                chunk_shape.dims == [chunk_size, chunk_size, chunk_size],
                chunks@.len() == i,
                forall|k: int|
                    #![trigger chunks@[k]]
                    0 <= k < chunks@.len() ==> fresh_chunk(chunks@[k], chunk_size),
            decreases count - i,
        {
            let c = BlockBuffer::new(chunk_shape);
            chunks.push(c);
            i = i + 1;
        }
        Terrain {
            chunk_count_x,
            chunk_count_y,
            chunk_count_z,
            chunk_size,
            chunk_count: count,
            chunks,
            shape,
        }
    }

    pub fn get_chunk(&self, chunk_idx: u32) -> (r: Option<&BlockBuffer>)
        ensures
            r == (if chunk_idx < self.chunks@.len() {
                Some(&self.chunks@[chunk_idx as int])
            } else {
                None
            }),
    {
        if (chunk_idx as usize) < self.chunks.len() {
            Some(&self.chunks[chunk_idx as usize])
        } else {
            None
        }
    }

    /// A mutable borrow of a chunk, when the index is inside the world. Writes through it
    /// land in that chunk and nowhere else.
    pub fn get_chunk_mut(&mut self, chunk_idx: u32) -> (r: Option<&mut BlockBuffer>)
        ensures
            (chunk_idx < old(self).chunks@.len()) == r.is_some(),
            match r {
                Some(c) => {
                    &&& *c == old(self).chunks@[chunk_idx as int]
                    &&& final(self).chunks@ == old(self).chunks@.update(chunk_idx as int, *final(c))
                    &&& final(self).shape == old(self).shape
                    &&& final(self).chunk_count == old(self).chunk_count
                    &&& final(self).chunk_size == old(self).chunk_size
                    &&& final(self).chunk_count_x == old(self).chunk_count_x
                    &&& final(self).chunk_count_y == old(self).chunk_count_y
                    &&& final(self).chunk_count_z == old(self).chunk_count_z
                },
                None => *final(self) == *old(self),
            },
    {
        if (chunk_idx as usize) < self.chunks.len() {
            Some(&mut self.chunks[chunk_idx as usize])
        } else {
            None
        }
    }

    /// The indices of the chunks of one horizontal layer: the layer holding world height
    /// `world_y`, listed x first then z (entry `x * chunk_count_z + z` is the chunk at
    /// `(x, world_y / chunk_size, z)`).
    pub fn get_chunks_in_y(&self, world_y: u32) -> (r: Vec<u32>)
        requires
            self.chunk_size > 0,
            spec_grid_size(self.shape.dims) <= u32::MAX,
            self.shape.dims[0] * self.shape.dims[1] <= u32::MAX,
            self.chunk_count_x == 0 || self.chunk_count_z == 0 || self.shape.spec_index(
                self.chunk_count_x - 1,
                (world_y / self.chunk_size) as int,
                self.chunk_count_z - 1,
            ) <= u32::MAX,
        ensures
            r@.len() == self.chunk_count_x * self.chunk_count_z,
            forall|x: int, z: int|
                0 <= x < self.chunk_count_x && 0 <= z < self.chunk_count_z ==> r@[x
                    * self.chunk_count_z + z] == #[trigger] self.shape.spec_index(x, (world_y / self.chunk_size) as int, z),
    {
        let chunk_y = world_y / self.chunk_size;
        let mut chunk_idxes: Vec<u32> = Vec::new();
        let cx = self.chunk_count_x;
        let cz = self.chunk_count_z;
        let mut chunk_x: u32 = 0;
        while chunk_x < cx
            invariant
                chunk_x <= cx,
                cx == self.chunk_count_x,
                cz == self.chunk_count_z,
                chunk_y == (world_y / self.chunk_size) as int,
                spec_grid_size(self.shape.dims) <= u32::MAX,
                self.shape.dims[0] * self.shape.dims[1] <= u32::MAX,
                cx == 0 || cz == 0 || self.shape.spec_index(cx - 1, chunk_y as int, cz - 1) <= u32::MAX,
                chunk_idxes@.len() == chunk_x * cz,
                forall|x: int, z: int|
                    0 <= x < chunk_x && 0 <= z < cz ==> chunk_idxes@[x * cz + z]
                        == #[trigger] self.shape.spec_index(x, chunk_y as int, z),
            decreases cx - chunk_x,
        {
            let mut chunk_z: u32 = 0;
            while chunk_z < cz
                invariant
                    chunk_x < cx,
                    chunk_z <= cz,
                    cx == self.chunk_count_x,
                    cz == self.chunk_count_z,
                    spec_grid_size(self.shape.dims) <= u32::MAX,
                    self.shape.dims[0] * self.shape.dims[1] <= u32::MAX,
                    cx == 0 || cz == 0 || self.shape.spec_index(cx - 1, chunk_y as int, cz - 1) <= u32::MAX,
                    chunk_idxes@.len() == chunk_x * cz + chunk_z,
                    forall|x: int, z: int|
                        0 <= x < chunk_x && 0 <= z < cz ==> chunk_idxes@[x * cz + z]
                            == #[trigger] self.shape.spec_index(x, chunk_y as int, z),
                    forall|z: int|
                        0 <= z < chunk_z ==> chunk_idxes@[chunk_x * cz + z] == self.shape.spec_index(
                            chunk_x as int,
                            chunk_y as int,
                            z,
                        ),
                decreases cz - chunk_z,
            {
                proof {
                    let d0 = self.shape.dims[0] as int;
                    let d1 = self.shape.dims[1] as int;
                    let y = chunk_y as int;
                    assert(chunk_x + d0 * y + d0 * d1 * chunk_z <= (cx - 1) + d0 * y + d0 * d1 * (cz - 1))
                        by (nonlinear_arith)
                        requires
                            chunk_x <= cx - 1,
                            chunk_z <= cz - 1,
                            d0 >= 0,
                            d1 >= 0,
                    ;
                }
                let chunk_idx = self.shape.linearize([chunk_x, chunk_y, chunk_z]);
                proof {
                    assert((chunk_x * cz + chunk_z) as int == chunk_x * cz + chunk_z);
                }
                chunk_idxes.push(chunk_idx);
                proof {
                    assert forall|x: int, z: int|
                        0 <= x < chunk_x && 0 <= z < cz implies chunk_idxes@[x * cz + z]
                            == #[trigger] self.shape.spec_index(x, chunk_y as int, z) by {
                        assert(x * cz + z < chunk_x * cz) by (nonlinear_arith)
                            requires
                                0 <= x < chunk_x,
                                0 <= z < cz,
                        ;
                    }
                }
                chunk_z = chunk_z + 1;
            }
            proof {
                assert(chunk_idxes@.len() == (chunk_x + 1) * cz) by (nonlinear_arith)
                    requires
                        chunk_idxes@.len() == chunk_x * cz + cz,
                ;
                assert forall|x: int, z: int|
                    0 <= x < chunk_x + 1 && 0 <= z < cz implies chunk_idxes@[x * cz + z]
                        == #[trigger] self.shape.spec_index(x, chunk_y as int, z) by {
                    if x < chunk_x {
                    } else {
                        assert(x == chunk_x);
                    }
                }
            }
            chunk_x = chunk_x + 1;
        }
        chunk_idxes
    }
}

} // verus!
