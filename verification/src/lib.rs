//! Sparse voxel octree construction: packed nodes, spatial keys, sparse
//! voxel stores, per-chunk tree building and the top-level merge, each
//! stated over a mathematical model and proved against it.

pub mod bits;
pub mod chunk;
pub mod clusters;
pub mod config;
pub mod key;
pub mod scene;
pub mod store;
pub mod svo;
pub mod tlas;
pub mod tree;
pub mod voxel_map;
