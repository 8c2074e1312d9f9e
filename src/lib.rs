//! An addressable pairing heap, the shortest-path and spanning-tree engine built on it,
//! and the small graph containers that feed such algorithms.
pub mod pairing_heap;
pub mod engine;
pub mod edge_list;
pub mod matrix;
pub mod indexed;
pub mod list;
pub mod kruskal;
