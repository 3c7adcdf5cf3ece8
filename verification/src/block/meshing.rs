pub mod chunk_material;
pub mod chunk_meshing;
