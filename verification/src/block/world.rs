pub mod block;
pub mod block_buffer;

pub mod shape;
pub mod terrain;
