use vstd::prelude::*;

use super::chunk_material::{pack_block, spec_pack, VertexAo};
use crate::block::block_face::BlockFace;
use crate::block::world::block::{spec_is_filled, spec_texture_idx, Block};
use crate::block::world::block_buffer::{neighbor_offset, BlockBuffer};

verus! {

/// The vertex data of a chunk mesh. Positions are the integer corners of the block
/// grid and normals are unit axis vectors; the renderer turns both into floats.
pub struct ChunkMeshData {
    pub positions: Vec<(u32, u32, u32)>,
    pub normals: Vec<(i32, i32, i32)>,
    pub indicies: Vec<u32>,
    pub packed: Vec<u32>,
}

/// The mathematical content of a chunk mesh.
pub struct MeshSpec {
    pub positions: Seq<(u32, u32, u32)>,
    pub normals: Seq<(i32, i32, i32)>,
    pub indices: Seq<u32>,
    pub packed: Seq<u32>,
}

impl View for ChunkMeshData {
    type V = MeshSpec;

    open spec fn view(&self) -> MeshSpec {
        MeshSpec {
            positions: self.positions@,
            normals: self.normals@,
            indices: self.indicies@,
            packed: self.packed@,
        }
    }
}

pub open spec fn empty_mesh() -> MeshSpec {
    MeshSpec {
        positions: Seq::empty(),
        normals: Seq::empty(),
        indices: Seq::empty(),
        packed: Seq::empty(),
    }
}

pub open spec fn append_mesh(m: MeshSpec, n: MeshSpec) -> MeshSpec {
    MeshSpec {
        positions: m.positions + n.positions,
        normals: m.normals + n.normals,
        indices: m.indices + n.indices,
        packed: m.packed + n.packed,
    }
}

// Faces are visited in the order above, forward (z - 1), right (x + 1), behind (z + 1),
// left (x - 1), below.

/// The neighbor slot whose block hides face `f` when it is filled.
pub open spec fn face_trigger(f: int) -> int {
    if f == 0 {
        4
    } else if f == 1 {
        10
    } else if f == 2 {
        13
    } else if f == 3 {
        15
    } else if f == 4 {
        12
    } else {
        21
    }
}

/// The direction of face `f`.
pub open spec fn face_dir(f: int) -> BlockFace {
    if f == 0 {
        BlockFace::PosY
    } else if f == 1 {
        BlockFace::NegZ
    } else if f == 2 {
        BlockFace::PosX
    } else if f == 3 {
        BlockFace::PosZ
    } else if f == 4 {
        BlockFace::NegX
    } else {
        BlockFace::NegY
    }
}

/// The normal of face `f`.
pub open spec fn face_normal(f: int) -> (i32, i32, i32) {
    if f == 0 {
        (0, 1, 0)
    } else if f == 1 {
        (0, 0, -1i32)
    } else if f == 2 {
        (1, 0, 0)
    } else if f == 3 {
        (0, 0, 1)
    } else if f == 4 {
        (-1i32, 0, 0)
    } else {
        (0, -1i32, 0)
    }
}

/// The offset from the block's corner of vertex `v` of face `f`.
pub open spec fn face_corner(f: int, v: int) -> (u32, u32, u32) {
    if f == 0 {
        if v == 0 { (0, 1, 1) } else if v == 1 { (0, 1, 0) } else if v == 2 { (1, 1, 0) } else { (1, 1, 1) }
    } else if f == 1 {
        if v == 0 { (1, 0, 0) } else if v == 1 { (1, 1, 0) } else if v == 2 { (0, 1, 0) } else { (0, 0, 0) }
    } else if f == 2 {
        if v == 0 { (1, 0, 1) } else if v == 1 { (1, 1, 1) } else if v == 2 { (1, 1, 0) } else { (1, 0, 0) }
    } else if f == 3 {
        if v == 0 { (0, 0, 1) } else if v == 1 { (0, 1, 1) } else if v == 2 { (1, 1, 1) } else { (1, 0, 1) }
    } else if f == 4 {
        if v == 0 { (0, 0, 0) } else if v == 1 { (0, 1, 0) } else if v == 2 { (0, 1, 1) } else { (0, 0, 1) }
    } else {
        if v == 0 { (1, 0, 1) } else if v == 1 { (1, 0, 0) } else if v == 2 { (0, 0, 0) } else { (0, 0, 1) }
    }
}

/// The neighbor slots (first side, second side, corner) that shade vertex `v` of face `f`.
pub open spec fn face_ao_slots(f: int, v: int) -> (int, int, int) {
    if f == 0 {
        if v == 0 { (3, 7, 6) } else if v == 1 { (1, 3, 0) } else if v == 2 { (1, 5, 2) } else { (5, 7, 8) }
    } else if f == 1 {
        if v == 0 { (11, 18, 19) } else if v == 1 { (11, 1, 2) } else if v == 2 { (9, 1, 0) } else { (9, 18, 17) }
    } else if f == 2 {
        if v == 0 { (22, 16, 25) } else if v == 1 { (5, 16, 8) } else if v == 2 { (5, 11, 2) } else { (22, 11, 19) }
    } else if f == 3 {
        if v == 0 { (14, 24, 23) } else if v == 1 { (14, 7, 6) } else if v == 2 { (16, 7, 8) } else { (16, 24, 25) }
    } else if f == 4 {
        if v == 0 { (20, 9, 17) } else if v == 1 { (3, 9, 0) } else if v == 2 { (3, 14, 6) } else { (20, 14, 23) }
    } else {
        if v == 0 { (22, 24, 25) } else if v == 1 { (18, 22, 19) } else if v == 2 { (18, 20, 17) } else { (20, 24, 23) }
    }
}

/// Ambient occlusion of a vertex: 3 when both sides are filled, otherwise the number of
/// filled blocks among the two sides and the corner.
pub open spec fn spec_vert_ao(s1: bool, s2: bool, c: bool) -> u32 {
    if s1 && s2 {
        3
    } else {
        ((if s1 { 1int } else { 0 }) + (if s2 { 1int } else { 0 }) + (if c { 1int } else { 0 })) as u32
    }
}

/// The occlusion of vertex `v` of face `f`, given the 26 neighbors of the block.
pub open spec fn face_ao(nb: Seq<Block>, f: int, v: int) -> u32 {
    let (a, b, c) = face_ao_slots(f, v);
    spec_vert_ao(spec_is_filled(nb[a].0), spec_is_filled(nb[b].0), spec_is_filled(nb[c].0))
}

/// The two triangles of a face whose first vertex has index `base`. The quad is split
/// along the diagonal that joins the two less occluded corners.
pub open spec fn face_indices(nb: Seq<Block>, f: int, base: int) -> Seq<u32> {
    if face_ao(nb, f, 0) + face_ao(nb, f, 2) > face_ao(nb, f, 1) + face_ao(nb, f, 3) {
        seq![base as u32, (base + 3) as u32, (base + 1) as u32, (base + 1) as u32, (base + 3) as u32, (base + 2) as u32]
    } else {
        seq![base as u32, (base + 2) as u32, (base + 1) as u32, base as u32, (base + 3) as u32, (base + 2) as u32]
    }
}

pub open spec fn corner_pos(x: int, y: int, z: int, f: int, v: int) -> (u32, u32, u32) {
    let (dx, dy, dz) = face_corner(f, v);
    ((x + dx) as u32, (y + dy) as u32, (z + dz) as u32)
}

/// The mesh of face `f` of a block at `(x, y, z)`, its first vertex numbered `base`.
pub open spec fn face_mesh(block: Block, x: int, y: int, z: int, nb: Seq<Block>, f: int, base: int) -> MeshSpec {
    let t = spec_texture_idx(block.0);
    let d = face_dir(f).spec_bit();
    MeshSpec {
        positions: seq![corner_pos(x, y, z, f, 0), corner_pos(x, y, z, f, 1), corner_pos(x, y, z, f, 2), corner_pos(x, y, z, f, 3)],
        normals: seq![face_normal(f), face_normal(f), face_normal(f), face_normal(f)],
        indices: face_indices(nb, f, base),
        packed: seq![spec_pack(t, d, face_ao(nb, f, 0)), spec_pack(t, d, face_ao(nb, f, 1)), spec_pack(t, d, face_ao(nb, f, 2)), spec_pack(t, d, face_ao(nb, f, 3))],
    }
}

/// `m` followed by the visible faces among the first `k` faces of a block: a face is
/// visible when its neighbor slot holds a block that is not filled.
pub open spec fn block_faces(block: Block, x: int, y: int, z: int, nb: Seq<Block>, k: nat, m: MeshSpec) -> MeshSpec
    decreases k,
{
    if k == 0 {
        m
    } else {
        let prev = block_faces(block, x, y, z, nb, (k - 1) as nat, m);
        if !spec_is_filled(nb[face_trigger(k - 1)].0) {
            append_mesh(prev, face_mesh(block, x, y, z, nb, k - 1, prev.positions.len() as int))
        } else {
            prev
        }
    }
}

/// The coordinate of the block at linear index `i` of a buffer.
pub open spec fn spec_cell(buf: BlockBuffer, i: int) -> (int, int, int) {
    let a = buf.shape.dims[0] * buf.shape.dims[1];
    let d0 = buf.shape.dims[0] as int;
    ((i % a) % d0, (i % a) / d0, i / a)
}

/// The 26 neighbors of a coordinate of a buffer.
pub open spec fn spec_neighbors(buf: BlockBuffer, x: int, y: int, z: int) -> Seq<Block> {
    Seq::new(
        26,
        |k: int|
            buf.spec_block_at(x + neighbor_offset(k).0, y + neighbor_offset(k).1, z + neighbor_offset(k).2),
    )
}

/// The mesh of the first `n` blocks of a buffer: each filled block adds its visible faces.
pub open spec fn mesh_upto(buf: BlockBuffer, n: nat) -> MeshSpec
    decreases n,
{
    if n == 0 {
        empty_mesh()
    } else {
        let m = mesh_upto(buf, (n - 1) as nat);
        let i = n - 1;
        let b = buf.spec_block(i);
        if !spec_is_filled(b.0) {
            m
        } else {
            let (x, y, z) = spec_cell(buf, i);
            block_faces(b, x, y, z, spec_neighbors(buf, x, y, z), 6, m)
        }
    }
}

pub proof fn lemma_block_faces_grow(block: Block, x: int, y: int, z: int, nb: Seq<Block>, j: nat, k: nat, m: MeshSpec)
    requires
        j <= k,
    ensures
        m.positions.len() <= block_faces(block, x, y, z, nb, j, m).positions.len()
            <= block_faces(block, x, y, z, nb, k, m).positions.len(),
    decreases k,
{
    if k > j {
        lemma_block_faces_grow(block, x, y, z, nb, j, (k - 1) as nat, m);
    } else if k > 0 {
        lemma_block_faces_grow(block, x, y, z, nb, 0, (k - 1) as nat, m);
    }
}

pub proof fn lemma_mesh_grows(buf: BlockBuffer, n: nat, k: nat)
    requires
        n <= k,
    ensures
        mesh_upto(buf, n).positions.len() <= mesh_upto(buf, k).positions.len(),
    decreases k,
{
    if k > n {
        lemma_mesh_grows(buf, n, (k - 1) as nat);
        let i = k - 1;
        let b = buf.spec_block(i);
        if spec_is_filled(b.0) {
            let (x, y, z) = spec_cell(buf, i);
            lemma_block_faces_grow(b, x, y, z, spec_neighbors(buf, x, y, z), 0, 6, mesh_upto(buf, (k - 1) as nat));
        }
    }
}

/// A well-formed mesh: whole quads, one normal and one packed attribute per vertex, two
/// triangles per quad, and every index naming an existing vertex.
pub open spec fn mesh_wf(m: MeshSpec) -> bool {
    &&& m.positions.len() % 4 == 0
    &&& m.normals.len() == m.positions.len()
    &&& m.packed.len() == m.positions.len()
    &&& m.indices.len() * 2 == m.positions.len() * 3
    &&& forall|i: int| 0 <= i < m.indices.len() ==> m.indices[i] < m.positions.len()
}

pub proof fn lemma_block_faces_wf(block: Block, x: int, y: int, z: int, nb: Seq<Block>, k: nat, m: MeshSpec)
    requires
        mesh_wf(m),
        block_faces(block, x, y, z, nb, k, m).positions.len() <= u32::MAX,
    ensures
        mesh_wf(block_faces(block, x, y, z, nb, k, m)),
        block_faces(block, x, y, z, nb, k, m).positions.len() <= m.positions.len() + 4 * k,
    decreases k,
{
    if k > 0 {
        let prev = block_faces(block, x, y, z, nb, (k - 1) as nat, m);
        lemma_block_faces_grow(block, x, y, z, nb, (k - 1) as nat, k, m);
        lemma_block_faces_wf(block, x, y, z, nb, (k - 1) as nat, m);
        if !spec_is_filled(nb[face_trigger(k - 1)].0) {
            let base = prev.positions.len() as int;
            let fm = face_mesh(block, x, y, z, nb, k - 1, base);
            let next = append_mesh(prev, fm);
            assert(next.positions.len() == base + 4);
            assert forall|i: int| 0 <= i < next.indices.len() implies next.indices[i] < next.positions.len() by {
                if i >= prev.indices.len() {
                    assert(next.indices[i] == fm.indices[i - prev.indices.len()]);
                } else {
                    assert(next.indices[i] == prev.indices[i]);
                }
            }
        }
    }
}

/// The mesh of the first `n` blocks is well formed, with at most 24 vertices per block,
/// whenever its vertices can be numbered by u32.
pub proof fn lemma_mesh_wf(buf: BlockBuffer, n: nat)
    requires
        mesh_upto(buf, n).positions.len() <= u32::MAX,
    ensures
        mesh_wf(mesh_upto(buf, n)),
        mesh_upto(buf, n).positions.len() <= 24 * n,
    decreases n,
{
    if n > 0 {
        lemma_mesh_grows(buf, (n - 1) as nat, n);
        lemma_mesh_wf(buf, (n - 1) as nat);
        let i = n - 1;
        let b = buf.spec_block(i);
        if spec_is_filled(b.0) {
            let (x, y, z) = spec_cell(buf, i);
            lemma_block_faces_wf(b, x, y, z, spec_neighbors(buf, x, y, z), 6, mesh_upto(buf, (n - 1) as nat));
        }
    } else {
        assert(mesh_upto(buf, 0).indices.len() == 0);
    }
}

/// Whole-buffer bound: a buffer of `n` blocks yields at most `24 * n` vertices, so
/// `24 * block_count <= u32::MAX` is enough for `build_chunk_mesh`.
pub proof fn lemma_mesh_size_bound(buf: BlockBuffer, n: nat)
    ensures
        mesh_upto(buf, n).positions.len() <= 24 * n,
    decreases n,
{
    if n > 0 {
        lemma_mesh_size_bound(buf, (n - 1) as nat);
        let i = n - 1;
        let b = buf.spec_block(i);
        if spec_is_filled(b.0) {
            let (x, y, z) = spec_cell(buf, i);
            lemma_block_faces_size(b, x, y, z, spec_neighbors(buf, x, y, z), 6, mesh_upto(buf, (n - 1) as nat));
        }
    }
}

pub proof fn lemma_block_faces_size(block: Block, x: int, y: int, z: int, nb: Seq<Block>, k: nat, m: MeshSpec)
    ensures
        block_faces(block, x, y, z, nb, k, m).positions.len() <= m.positions.len() + 4 * k,
    decreases k,
{
    if k > 0 {
        lemma_block_faces_size(block, x, y, z, nb, (k - 1) as nat, m);
    }
}

fn face_trigger_slot(f: usize) -> (r: usize)
    requires
        f < 6,
    ensures
        r == face_trigger(f as int),
        r < 26,
{
    match f {
        0 => 4,
        1 => 10,
        2 => 13,
        3 => 15,
        4 => 12,
        _ => 21,
    }
}

fn face_direction(f: usize) -> (r: BlockFace)
    requires
        f < 6,
    ensures
        r == face_dir(f as int),
{
    match f {
        0 => BlockFace::PosY,
        1 => BlockFace::NegZ,
        2 => BlockFace::PosX,
        3 => BlockFace::PosZ,
        4 => BlockFace::NegX,
        _ => BlockFace::NegY,
    }
}

fn face_normal_of(f: usize) -> (r: (i32, i32, i32))
    requires
        f < 6,
    ensures
        r == face_normal(f as int),
{
    match f {
        0 => (0, 1, 0),
        1 => (0, 0, -1),
        2 => (1, 0, 0),
        3 => (0, 0, 1),
        4 => (-1, 0, 0),
        _ => (0, -1, 0),
    }
}

fn face_corner_of(f: usize, v: usize) -> (r: (u32, u32, u32))
    requires
        f < 6,
        v < 4,
    ensures
        r == face_corner(f as int, v as int),
        r.0 <= 1,
        r.1 <= 1,
        r.2 <= 1,
{
    match (f, v) {
        (0, 0) => (0, 1, 1),
        (0, 1) => (0, 1, 0),
        (0, 2) => (1, 1, 0),
        (0, _) => (1, 1, 1),
        (1, 0) => (1, 0, 0),
        (1, 1) => (1, 1, 0),
        (1, 2) => (0, 1, 0),
        (1, _) => (0, 0, 0),
        (2, 0) => (1, 0, 1),
        (2, 1) => (1, 1, 1),
        (2, 2) => (1, 1, 0),
        (2, _) => (1, 0, 0),
        (3, 0) => (0, 0, 1),
        (3, 1) => (0, 1, 1),
        (3, 2) => (1, 1, 1),
        (3, _) => (1, 0, 1),
        (4, 0) => (0, 0, 0),
        (4, 1) => (0, 1, 0),
        (4, 2) => (0, 1, 1),
        (4, _) => (0, 0, 1),
        (_, 0) => (1, 0, 1),
        (_, 1) => (1, 0, 0),
        (_, 2) => (0, 0, 0),
        (_, _) => (0, 0, 1),
    }
}

fn face_ao_slots_of(f: usize, v: usize) -> (r: (usize, usize, usize))
    requires
        f < 6,
        v < 4,
    ensures
        r.0 == face_ao_slots(f as int, v as int).0,
        r.1 == face_ao_slots(f as int, v as int).1,
        r.2 == face_ao_slots(f as int, v as int).2,
        r.0 < 26,
        r.1 < 26,
        r.2 < 26,
{
    match (f, v) {
        (0, 0) => (3, 7, 6),
        (0, 1) => (1, 3, 0),
        (0, 2) => (1, 5, 2),
        (0, _) => (5, 7, 8),
        (1, 0) => (11, 18, 19),
        (1, 1) => (11, 1, 2),
        (1, 2) => (9, 1, 0),
        (1, _) => (9, 18, 17),
        (2, 0) => (22, 16, 25),
        (2, 1) => (5, 16, 8),
        (2, 2) => (5, 11, 2),
        (2, _) => (22, 11, 19),
        (3, 0) => (14, 24, 23),
        (3, 1) => (14, 7, 6),
        (3, 2) => (16, 7, 8),
        (3, _) => (16, 24, 25),
        (4, 0) => (20, 9, 17),
        (4, 1) => (3, 9, 0),
        (4, 2) => (3, 14, 6),
        (4, _) => (20, 14, 23),
        (_, 0) => (22, 24, 25),
        (_, 1) => (18, 22, 19),
        (_, 2) => (18, 20, 17),
        (_, _) => (20, 24, 23),
    }
}

/// The occlusion of a vertex from the fill of its two side blocks and its corner block.
pub fn vert_ao(side1: Block, side2: Block, corner: Block) -> (r: VertexAo)
    ensures
        r.spec_bit() == spec_vert_ao(spec_is_filled(side1.0), spec_is_filled(side2.0), spec_is_filled(corner.0)),
{
    let s1f = side1.is_filled();
    let s2f = side2.is_filled();
    let cf = corner.is_filled();

    if s1f && s2f {
        return VertexAo::TouchThree;
    }
    let mut vao: u32 = 0;
    if s1f {
        vao = vao + 1;
    }
    if s2f {
        vao = vao + 1;
    }
    if cf {
        vao = vao + 1;
    }
    VertexAo::from_bit(vao)
}

fn face_vertex_ao(neighbors: &[Block; 26], f: usize, v: usize) -> (r: VertexAo)
    requires
        f < 6,
        v < 4,
    ensures
        r.spec_bit() == face_ao(neighbors@, f as int, v as int),
        r.spec_bit() <= 3,
{
    let (a, b, c) = face_ao_slots_of(f, v);
    vert_ao(neighbors[a], neighbors[b], neighbors[c])
}

/// Appends face `f` of `block`, whose corner is at `(x, y, z)`, to the mesh.
fn add_face(data: &mut ChunkMeshData, block: Block, f: usize, x: u32, y: u32, z: u32, neighbors: &[Block; 26], idx: u32)
    requires
        f < 6,
        idx == old(data).positions@.len(),
        idx + 4 <= u32::MAX,
        x < u32::MAX,
        y < u32::MAX,
        z < u32::MAX,
    ensures
        final(data)@ == append_mesh(old(data)@, face_mesh(block, x as int, y as int, z as int, neighbors@, f as int, idx as int)),
{
    let ghost old_data = data@;
    let mut v: usize = 0;
    while v < 4
        invariant
            v <= 4,
            f < 6,
            x < u32::MAX,
            y < u32::MAX,
            z < u32::MAX,
            data.positions@.len() == old_data.positions.len() + v,
            forall|j: int| 0 <= j < old_data.positions.len() ==> data.positions@[j] == old_data.positions[j],
            forall|j: int| 0 <= j < v ==> data.positions@[old_data.positions.len() + j] == corner_pos(x as int, y as int, z as int, f as int, j),
            data.normals@ == old_data.normals,
            data.indicies@ == old_data.indices,
            data.packed@ == old_data.packed,
        decreases 4 - v,
    {
        let (dx, dy, dz) = face_corner_of(f, v);
        data.positions.push((x + dx, y + dy, z + dz));
        v = v + 1;
    }
    let ghost fm = face_mesh(block, x as int, y as int, z as int, neighbors@, f as int, idx as int);
    assert(data.positions@ =~= old_data.positions + fm.positions);

    let f1_ao = face_vertex_ao(neighbors, f, 0);
    let f2_ao = face_vertex_ao(neighbors, f, 1);
    let f3_ao = face_vertex_ao(neighbors, f, 2);
    let f4_ao = face_vertex_ao(neighbors, f, 3);

    if f1_ao.bit() + f3_ao.bit() > f2_ao.bit() + f4_ao.bit() {
        data.indicies.push(idx + 0);
        data.indicies.push(idx + 3);
        data.indicies.push(idx + 1);
        data.indicies.push(idx + 1);
        data.indicies.push(idx + 3);
        data.indicies.push(idx + 2);
    } else {
        data.indicies.push(idx + 0);
        data.indicies.push(idx + 2);
        data.indicies.push(idx + 1);
        data.indicies.push(idx + 0);
        data.indicies.push(idx + 3);
        data.indicies.push(idx + 2);
    }
    assert(data.indicies@ =~= old_data.indices + fm.indices);

    let dir = face_direction(f);
    data.packed.push(pack_block(block, dir, f1_ao));
    data.packed.push(pack_block(block, dir, f2_ao));
    data.packed.push(pack_block(block, dir, f3_ao));
    data.packed.push(pack_block(block, dir, f4_ao));
    assert(data.packed@ =~= old_data.packed + fm.packed);

    let normal = face_normal_of(f);
    data.normals.push(normal);
    data.normals.push(normal);
    data.normals.push(normal);
    data.normals.push(normal);
    assert(data.normals@ =~= old_data.normals + fm.normals);
}

/// Builds the mesh of a chunk: for every filled block, each of its six faces whose
/// neighbor is not filled becomes a quad of four vertices and two triangles, shaded by
/// ambient occlusion.
pub fn build_chunk_mesh(block_buffer: &BlockBuffer) -> (data: ChunkMeshData)
    requires
        block_buffer.wf(),
        mesh_upto(*block_buffer, block_buffer.block_count as nat).positions.len() <= u32::MAX,
    ensures
        data@ == mesh_upto(*block_buffer, block_buffer.block_count as nat),
{
    let ghost buf = *block_buffer;
    let ghost total = block_buffer.block_count as nat;
    let mut data = ChunkMeshData {
        positions: Vec::new(),
        normals: Vec::new(),
        indicies: Vec::new(),
        packed: Vec::new(),
    };
    let mut idx: u32 = 0;
    let mut block_idx: u32 = 0;
    assert(data@ =~= mesh_upto(buf, 0));
    while block_idx < block_buffer.block_count
        invariant
            buf == *block_buffer,
            total == block_buffer.block_count,
            block_buffer.wf(),
            block_idx <= block_buffer.block_count,
            data@ == mesh_upto(buf, block_idx as nat),
            idx == data.positions@.len(),
            mesh_upto(buf, total).positions.len() <= u32::MAX,
        decreases block_buffer.block_count - block_idx,
    {
        proof {
            lemma_mesh_grows(buf, (block_idx + 1) as nat, total);
        }
        let block = block_buffer.get_block(block_idx);
        if block.is_filled() {
            let ghost d0 = block_buffer.shape.dims[0] as int;
            let ghost d1 = block_buffer.shape.dims[1] as int;
            let ghost d2 = block_buffer.shape.dims[2] as int;
            proof {
                assert(block_idx < d0 * d1 * d2);
                assert(d0 * d1 > 0) by (nonlinear_arith)
                    requires
                        block_idx < d0 * d1 * d2,
                        d0 >= 0,
                        d1 >= 0,
                        d2 >= 0,
                ;
            }
            let xyz = block_buffer.get_block_xyz(block_idx);
            let x = xyz[0];
            let y = xyz[1];
            let z = xyz[2];
            proof {
                let a = d0 * d1;
                let i = block_idx as int;
                assert(x < d0 && y < d1) by (nonlinear_arith)
                    requires
                        a == d0 * d1,
                        a > 0,
                        d0 > 0,
                        x == (i % a) % d0,
                        y == (i % a) / d0,
                        0 <= i % a < a,
                ;
                assert(z < d2) by (nonlinear_arith)
                    requires
                        a > 0,
                        z == i / a,
                        0 <= i < a * d2,
                ;
            }
            let neighbors = block_buffer.get_neighbors(x, y, z);
            let ghost nb = spec_neighbors(buf, x as int, y as int, z as int);
            assert(neighbors@ =~= nb);
            let ghost start = mesh_upto(buf, block_idx as nat);
            proof {
                lemma_block_faces_grow(block, x as int, y as int, z as int, nb, 0, 6, start);
            }
            let mut f: usize = 0;
            while f < 6
                invariant
                    f <= 6,
                    neighbors@ == nb,
                    x < i32::MAX,
                    y < i32::MAX,
                    z < i32::MAX,
                    data@ == block_faces(block, x as int, y as int, z as int, nb, f as nat, start),
                    idx == data.positions@.len(),
                    block_faces(block, x as int, y as int, z as int, nb, 6, start).positions.len() <= u32::MAX,
                decreases 6 - f,
            {
                proof {
                    lemma_block_faces_grow(block, x as int, y as int, z as int, nb, (f + 1) as nat, 6, start);
                }
                let slot = face_trigger_slot(f);
                if !neighbors[slot].is_filled() {
                    add_face(&mut data, block, f, x, y, z, &neighbors, idx);
                    idx = idx + 4;
                }
                f = f + 1;
            }
        }
        block_idx = block_idx + 1;
    }
    data
}

/// The direction of a face, as a unit vector.
pub open spec fn face_axis(f: int) -> (int, int, int) {
    face_dir(f).spec_normal()
}

/// Each face's normal is the unit vector of its direction, and the six faces point in
/// six different directions.
pub proof fn lemma_face_normal_is_direction(f: int, g: int)
    requires
        0 <= f < 6,
        0 <= g < 6,
    ensures
        (face_normal(f).0 as int, face_normal(f).1 as int, face_normal(f).2 as int) == face_axis(f),
        f != g ==> face_axis(f) != face_axis(g),
{
}

/// The neighbor that decides whether face `f` of a block is drawn is the block one step
/// along the face's normal: slot `face_trigger(f)` of the 26 neighbors holds the block at
/// `(x, y, z) + normal`.
pub proof fn lemma_face_neighbor_is_along_normal(buf: BlockBuffer, x: int, y: int, z: int, f: int)
    requires
        0 <= f < 6,
    ensures
        0 <= face_trigger(f) < 26,
        neighbor_offset(face_trigger(f)) == face_axis(f),
        spec_neighbors(buf, x, y, z)[face_trigger(f)] == buf.spec_block_at(
            x + face_axis(f).0,
            y + face_axis(f).1,
            z + face_axis(f).2,
        ),
{
    assert(neighbor_offset(face_trigger(f)) == face_axis(f));
}

/// Hidden-face culling: face `k` of a filled block at `(x, y, z)` is added to the mesh
/// exactly when the block one step along that face's normal is not filled.
pub proof fn lemma_face_drawn_iff_open(buf: BlockBuffer, block: Block, x: int, y: int, z: int, k: nat, m: MeshSpec)
    requires
        k < 6,
    ensures
        ({
            let nb = spec_neighbors(buf, x, y, z);
            let prev = block_faces(block, x, y, z, nb, k, m);
            let a = face_axis(k as int);
            block_faces(block, x, y, z, nb, k + 1, m) == if !spec_is_filled(
                buf.spec_block_at(x + a.0, y + a.1, z + a.2).0,
            ) {
                append_mesh(prev, face_mesh(block, x, y, z, nb, k as int, prev.positions.len() as int))
            } else {
                prev
            }
        }),
{
    lemma_face_neighbor_is_along_normal(buf, x, y, z, k as int);
}

/// The four corners of face `f` lie on the side of the unit cube that the face's normal
/// points to, and they are four different corners.
pub proof fn lemma_face_corners_on_its_side(f: int, v: int, w: int)
    requires
        0 <= f < 6,
        0 <= v < 4,
        0 <= w < 4,
    ensures
        face_axis(f).0 == 1 ==> face_corner(f, v).0 == 1,
        face_axis(f).0 == -1 ==> face_corner(f, v).0 == 0,
        face_axis(f).1 == 1 ==> face_corner(f, v).1 == 1,
        face_axis(f).1 == -1 ==> face_corner(f, v).1 == 0,
        face_axis(f).2 == 1 ==> face_corner(f, v).2 == 1,
        face_axis(f).2 == -1 ==> face_corner(f, v).2 == 0,
        v != w ==> face_corner(f, v) != face_corner(f, w),
{
}

/// Corner `v` of face `f`, as a vector from the block's corner.
pub open spec fn corner_vec(f: int, v: int) -> (int, int, int) {
    (face_corner(f, v).0 as int, face_corner(f, v).1 as int, face_corner(f, v).2 as int)
}

/// The cross product `(b - a) x (c - a)`.
pub open spec fn triangle_normal(a: (int, int, int), b: (int, int, int), c: (int, int, int)) -> (int, int, int) {
    let u = (b.0 - a.0, b.1 - a.1, b.2 - a.2);
    let w = (c.0 - a.0, c.1 - a.1, c.2 - a.2);
    (u.1 * w.2 - u.2 * w.1, u.2 * w.0 - u.0 * w.2, u.0 * w.1 - u.1 * w.0)
}

/// Whether the triangle of corners `a`, `b`, `c` of face `f` is a half of the face wound
/// counterclockwise when seen from outside the block: its normal is the face's normal.
pub open spec fn faces_outward(f: int, a: int, b: int, c: int) -> bool {
    &&& 0 <= a < 4
    &&& 0 <= b < 4
    &&& 0 <= c < 4
    &&& triangle_normal(corner_vec(f, a), corner_vec(f, b), corner_vec(f, c)) == face_axis(f)
}

/// Both triangles that a face adds, whichever diagonal splits it, are wound so that they
/// face out of the block.
pub proof fn lemma_face_triangles_face_outward(nb: Seq<Block>, f: int, base: int)
    requires
        0 <= f < 6,
        0 <= base,
        base + 3 <= u32::MAX,
    ensures
        ({
            let t = face_indices(nb, f, base);
            &&& t.len() == 6
            &&& faces_outward(f, t[0] - base, t[1] - base, t[2] - base)
            &&& faces_outward(f, t[3] - base, t[4] - base, t[5] - base)
        }),
{
    assert(faces_outward(0, 0, 3, 1) && faces_outward(0, 1, 3, 2) && faces_outward(0, 0, 2, 1) && faces_outward(0, 0, 3, 2)) by (nonlinear_arith);
    assert(faces_outward(1, 0, 3, 1) && faces_outward(1, 1, 3, 2) && faces_outward(1, 0, 2, 1) && faces_outward(1, 0, 3, 2)) by (nonlinear_arith);
    assert(faces_outward(2, 0, 3, 1) && faces_outward(2, 1, 3, 2) && faces_outward(2, 0, 2, 1) && faces_outward(2, 0, 3, 2)) by (nonlinear_arith);
    assert(faces_outward(3, 0, 3, 1) && faces_outward(3, 1, 3, 2) && faces_outward(3, 0, 2, 1) && faces_outward(3, 0, 3, 2)) by (nonlinear_arith);
    assert(faces_outward(4, 0, 3, 1) && faces_outward(4, 1, 3, 2) && faces_outward(4, 0, 2, 1) && faces_outward(4, 0, 3, 2)) by (nonlinear_arith);
    assert(faces_outward(5, 0, 3, 1) && faces_outward(5, 1, 3, 2) && faces_outward(5, 0, 2, 1) && faces_outward(5, 0, 3, 2)) by (nonlinear_arith);
    let t = face_indices(nb, f, base);
    assert(t[0] - base == 0);
}

/// The number of axes along which an offset is not zero.
pub open spec fn moved_axes(o: (int, int, int)) -> int {
    (if o.0 != 0 { 1int } else { 0 }) + (if o.1 != 0 { 1int } else { 0 }) + (if o.2 != 0 { 1int } else { 0 })
}

/// Whether the neighbor at offset `o` lies in the layer in front of face `f` and leans,
/// along the face, only toward corner `v`: along the normal it steps out of the face, and
/// along each other axis it stays or steps to the side where the corner is.
pub open spec fn shades_corner(f: int, v: int, o: (int, int, int)) -> bool {
    let n = face_axis(f);
    let c = corner_vec(f, v);
    &&& (n.0 != 0 ==> o.0 == n.0) && (n.0 == 0 ==> (o.0 == 0 || o.0 == 2 * c.0 - 1))
    &&& (n.1 != 0 ==> o.1 == n.1) && (n.1 == 0 ==> (o.1 == 0 || o.1 == 2 * c.1 - 1))
    &&& (n.2 != 0 ==> o.2 == n.2) && (n.2 == 0 ==> (o.2 == 0 || o.2 == 2 * c.2 - 1))
}

/// The three neighbors that shade vertex `v` of face `f` are the two blocks beside the
/// vertex and the one diagonal to it, all in the layer the face looks into: each side
/// steps along one axis of the face, the two sides along different axes, and the corner
/// along both.
pub proof fn lemma_ao_neighbors_touch_vertex(f: int, v: int)
    requires
        0 <= f < 6,
        0 <= v < 4,
    ensures
        ({
            let (a, b, c) = face_ao_slots(f, v);
            &&& 0 <= a < 26 && 0 <= b < 26 && 0 <= c < 26
            &&& shades_corner(f, v, neighbor_offset(a))
            &&& shades_corner(f, v, neighbor_offset(b))
            &&& shades_corner(f, v, neighbor_offset(c))
            &&& moved_axes(neighbor_offset(a)) == 2
            &&& moved_axes(neighbor_offset(b)) == 2
            &&& moved_axes(neighbor_offset(c)) == 3
            &&& neighbor_offset(a) != neighbor_offset(b)
        }),
{
}

} // verus!
