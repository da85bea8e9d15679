//! Path ORAM: an oblivious array of fixed-size blocks kept in a binary tree of
//! buckets, over a storage, a position map and an eviction strategy that the
//! user supplies.
pub mod branch;
pub mod circuit;
pub mod contents;
pub mod details;
pub mod evictor;
pub mod laws;
pub mod model;
pub mod oblivious;
pub mod outcomes;
pub mod packing;
pub mod path_oram;
pub mod position_map;
pub mod rng;
pub mod storage;
pub mod tree;
