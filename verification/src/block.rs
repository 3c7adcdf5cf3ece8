pub mod block_face;
pub mod light;
pub mod meshing;
pub mod slice;
pub mod world;
