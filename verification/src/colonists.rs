pub mod actions;
pub mod animations;
pub mod behavior;
pub mod behaviors;
pub mod brain;
pub mod colonist;
pub mod falling;
pub mod inventory;
pub mod jobs;
pub mod partition_flags;
pub mod partitioning;
pub mod pathfinding;
pub mod scorer;
pub mod tasks;
