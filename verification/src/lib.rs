pub mod block;
pub mod colonists;
