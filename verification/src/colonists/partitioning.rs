pub mod hash_collections;
pub mod navigation_flags;
pub mod navigation_group;
pub mod partition;
pub mod partition_debug;
pub mod partition_extents;
pub mod partitioner;
pub mod region;
pub mod navigation_graph;
