use colony::block::block_face::BlockFace;
use colony::block::light::Lights;
use colony::block::meshing::chunk_material::{pack_block, VertexAo};
use colony::block::meshing::chunk_meshing::{build_chunk_mesh, vert_ao};
use colony::block::slice::{setup_terrain_slice, TerrainSlice};
use colony::block::world::block::Block;
use colony::block::world::block_buffer::{BlockBuffer, Neighbor};
use colony::block::world::shape::GridShape;
use colony::block::world::terrain::Terrain;

#[test]
fn block_properties() {
    assert!(!Block::oob().is_filled());
    assert!(!Block::empty().is_filled());
    assert!(Block::dirt().is_filled());
    assert!(Block::stone().is_filled());
    assert!(Block::grass().is_filled());
    assert!(!Block(9).is_filled());
    assert_eq!(Block::dirt().texture_idx(), 1);
    assert_eq!(Block::grass().texture_idx(), 2);
    assert_eq!(Block::stone().texture_idx(), 3);
    assert_eq!(Block::empty().texture_idx(), 0);
    assert_eq!(Block::oob().name(), "out of bounds");
    assert_eq!(Block::empty().name(), "empty");
    assert_eq!(Block::dirt().name(), "dirt");
    assert_eq!(Block::grass().name(), "grass");
    assert_eq!(Block::stone().name(), "stone");
    assert_eq!(Block(77).name(), "unknown");
    assert_eq!(Block::default(), Block::empty());
}

#[test]
fn shape_linearize_round_trip() {
    let shape = GridShape::new([5, 6, 7]);
    assert_eq!(shape.size(), 210);
    assert_eq!(shape.linearize([1, 2, 3]), 101);
    assert_eq!(shape.delinearize(101), [1, 2, 3]);
    for i in 0..210 {
        let p = shape.delinearize(i);
        assert_eq!(shape.linearize(p), i);
    }
}

#[test]
fn block_buffer_new_is_empty_and_dirty() {
    let buf = BlockBuffer::new(GridShape::new([4, 4, 4]));
    assert_eq!(buf.block_count, 64);
    assert_eq!(buf.blocks.len(), 64);
    assert_eq!(buf.light.len(), 64);
    assert!(buf.blocks.iter().all(|b| *b == Block::empty()));
    assert!(buf.is_dirty);
    assert_eq!(buf.chunk_size, 0);
    assert_eq!(buf.get_block(64), Block::oob());
    assert_eq!(buf.get_torchlight(64), 0);
}

#[test]
fn block_buffer_set_and_lookup() {
    let mut buf = BlockBuffer::new(GridShape::new([4, 4, 4]));
    buf.chunk_size = 4;
    buf.is_dirty = false;
    let idx = buf.get_block_idx(1, 2, 3);
    assert_eq!(idx, 1 + 4 * 2 + 16 * 3);
    assert_eq!(buf.get_block_xyz(idx), [1, 2, 3]);
    buf.set(idx, Block::stone());
    assert!(buf.is_dirty);
    assert_eq!(buf.get_block(idx), Block::stone());
    assert_eq!(buf.get_block_by_xyz(1, 2, 3), Block::stone());
    assert_eq!(buf.get_block_by_xyz(-1, 2, 3), Block::oob());
    assert_eq!(buf.get_block_by_xyz(1, 4, 3), Block::oob());
    buf.set_torchlight(idx, 12);
    assert_eq!(buf.get_torchlight(idx), 12);
    assert!(buf.is_oob(4, 0, 0));
    assert!(!buf.is_oob(3, 3, 3));
}

#[test]
fn chunk_size_zero_makes_everything_out_of_bounds() {
    let mut buf = BlockBuffer::new(GridShape::new([3, 3, 3]));
    buf.set(0, Block::dirt());
    assert_eq!(buf.get_block_by_xyz(0, 0, 0), Block::oob());
}

#[test]
fn neighbors_follow_the_documented_order() {
    let mut buf = BlockBuffer::new(GridShape::new([3, 3, 3]));
    buf.chunk_size = 3;
    // fill the block above, the one behind and the one below-left of the center
    buf.set(buf.get_block_idx(1, 2, 1), Block::dirt());
    buf.set(buf.get_block_idx(1, 1, 2), Block::stone());
    buf.set(buf.get_block_idx(0, 0, 1), Block::grass());
    let n = buf.get_neighbors(1, 1, 1);
    assert_eq!(n[Neighbor(Neighbor::ABOVE).idx()], Block::dirt());
    assert_eq!(n[Neighbor(Neighbor::BEHIND).idx()], Block::stone());
    assert_eq!(n[Neighbor(Neighbor::BELOW_LEFT).idx()], Block::grass());
    assert_eq!(n[Neighbor(Neighbor::FORWARD).idx()], Block::empty());
    let imm = buf.get_immediate_neighbors(1, 1, 1);
    assert_eq!(imm, [Block::dirt(), Block::empty(), Block::empty(), Block::stone(), Block::empty(), Block::empty()]);
    // at a corner every neighbor on the outside is out of bounds
    let c = buf.get_neighbors(0, 0, 0);
    assert_eq!(c[Neighbor(Neighbor::BELOW).idx()], Block::oob());
    assert_eq!(c[Neighbor(Neighbor::LEFT).idx()], Block::oob());
    assert_eq!(c[Neighbor(Neighbor::RIGHT).idx()], Block::empty());
}

#[test]
fn vertex_ao_levels() {
    assert_eq!(vert_ao(Block::dirt(), Block::dirt(), Block::empty()), VertexAo::TouchThree);
    assert_eq!(vert_ao(Block::dirt(), Block::empty(), Block::dirt()), VertexAo::TouchTwo);
    assert_eq!(vert_ao(Block::empty(), Block::empty(), Block::stone()), VertexAo::TouchOne);
    assert_eq!(vert_ao(Block::empty(), Block::oob(), Block::empty()), VertexAo::TouchNone);
    assert_eq!(VertexAo::from_bit(2), VertexAo::TouchTwo);
    assert_eq!(VertexAo::from_bit(7), VertexAo::TouchNone);
    assert_eq!(VertexAo::TouchThree.bit(), 3);
}

#[test]
fn pack_block_bit_layout() {
    // texture 3 (stone), face NegZ (5), occlusion 2
    let v = pack_block(Block::stone(), BlockFace::NegZ, VertexAo::TouchTwo);
    assert_eq!(v, 3 | (5 << 4) | (2 << 7));
    assert_eq!(v, 3 + 16 * 5 + 128 * 2);
    assert_eq!(pack_block(Block::empty(), BlockFace::PosX, VertexAo::TouchNone), 0);
}

#[test]
fn single_block_mesh_has_six_faces() {
    let mut buf = BlockBuffer::new(GridShape::new([3, 3, 3]));
    buf.chunk_size = 3;
    let idx = buf.get_block_idx(1, 1, 1);
    buf.set(idx, Block::dirt());
    let mesh = build_chunk_mesh(&buf);
    assert_eq!(mesh.positions.len(), 24);
    assert_eq!(mesh.normals.len(), 24);
    assert_eq!(mesh.packed.len(), 24);
    assert_eq!(mesh.indicies.len(), 36);
    // the top face comes first: behind left, forward left, forward right, behind right
    assert_eq!(&mesh.positions[0..4], &[(1, 2, 2), (1, 2, 1), (2, 2, 1), (2, 2, 2)]);
    assert_eq!(mesh.normals[0], (0, 1, 0));
    // no occlusion anywhere: first split
    assert_eq!(&mesh.indicies[0..6], &[0, 2, 1, 0, 3, 2]);
    // dirt texture 1, face PosY (2), no occlusion
    assert_eq!(mesh.packed[0], 1 + 16 * 2);
    // the bottom face comes last
    assert_eq!(mesh.normals[20], (0, -1, 0));
    assert_eq!(&mesh.indicies[30..36], &[20, 22, 21, 20, 23, 22]);
    assert!(mesh.indicies.iter().all(|i| (*i as usize) < mesh.positions.len()));
}

#[test]
fn hidden_faces_are_skipped_and_occlusion_counted() {
    let mut buf = BlockBuffer::new(GridShape::new([3, 3, 3]));
    buf.chunk_size = 3;
    buf.set(buf.get_block_idx(1, 1, 1), Block::stone());
    buf.set(buf.get_block_idx(1, 2, 1), Block::stone());
    let mesh = build_chunk_mesh(&buf);
    // two cubes sharing a face: 10 visible faces
    assert_eq!(mesh.positions.len(), 40);
    assert_eq!(mesh.indicies.len(), 60);
    // the lower block's first face is its forward face (its top is hidden); its upper
    // vertices touch the block above only through the corner-side slot ABOVE_FORWARD,
    // which is empty, so the forward face is unshaded
    assert_eq!(mesh.normals[0], (0, 0, -1));
}

#[test]
fn out_of_bounds_neighbors_do_not_hide_faces() {
    let mut buf = BlockBuffer::new(GridShape::new([2, 2, 2]));
    // chunk_size stays 0: every neighbor reads as out of bounds, which is not filled
    for i in 0..8 {
        buf.set(i, Block::grass());
    }
    let mesh = build_chunk_mesh(&buf);
    assert_eq!(mesh.positions.len(), 8 * 24);
}

#[test]
fn terrain_new_and_layers() {
    let terrain = Terrain::new(2, 3, 4, 8);
    assert_eq!(terrain.chunk_count, 24);
    assert_eq!(terrain.chunks.len(), 24);
    assert_eq!(terrain.chunks[5].block_count, 512);
    assert!(terrain.get_chunk(23).is_some());
    assert!(terrain.get_chunk(24).is_none());
    // world height 17 is in chunk layer 2
    let layer = terrain.get_chunks_in_y(17);
    assert_eq!(layer.len(), 8);
    assert_eq!(layer[0], 2 * 2);
    // entry x * 4 + z is the chunk at (x, 2, z)
    assert_eq!(layer[1 * 4 + 3], 1 + 2 * 2 + 6 * 3);
}

#[test]
fn terrain_chunk_mut_writes_through() {
    let mut terrain = Terrain::new(1, 1, 2, 2);
    if let Some(c) = terrain.get_chunk_mut(1) {
        c.set(0, Block::stone());
    }
    assert_eq!(terrain.chunks[1].blocks[0], Block::stone());
    assert_eq!(terrain.chunks[0].blocks[0], Block::empty());
    assert!(terrain.get_chunk_mut(2).is_none());
}

#[test]
fn slice_clamps_and_reports() {
    let terrain = Terrain::new(2, 2, 2, 16);
    let mut slice = setup_terrain_slice(&terrain);
    assert_eq!(slice.get_value(), 16);
    assert_eq!(slice.set_value(40), 32);
    assert_eq!(slice.set_value(-5), 0);
    let ev = slice.scroll(3);
    assert_eq!(ev.prev, 0);
    assert_eq!(ev.value, 3);
    let mut disabled = TerrainSlice::new(4, 0, 20, false);
    assert_eq!(disabled.get_value(), 20);
    assert_eq!(disabled.set_value(7), 20);
}

#[test]
fn lights_queue() {
    let mut lights = Lights::new();
    lights.add_light(1, 2, 3, 15);
    lights.add_light(4, 5, 6, 7);
}

#[test]
fn slice_scroll_guard() {
    let s = TerrainSlice::new(16, 0, 32, true);
    assert!(s.can_scroll(3));
    assert!(!s.can_scroll(i32::MAX));
    let odd = TerrainSlice::new(0, 10, 5, true);
    assert!(!odd.can_scroll(1));
}

#[test]
fn buffer_well_formedness_is_checked() {
    let mut buf = BlockBuffer::new(GridShape::new([4, 4, 4]));
    assert!(buf.is_wf());
    buf.chunk_size = 5;
    assert!(!buf.is_wf());
    buf.chunk_size = 4;
    buf.block_count = 65;
    assert!(!buf.is_wf());
    let big = BlockBuffer { shape: GridShape::new([70000, 70000, 1]), ..BlockBuffer::new(GridShape::new([1, 1, 1])) };
    assert!(!big.is_wf());
}
