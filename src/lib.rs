//! Sparse voxel storage, chunk update sequencing and face culling for a
//! chunked voxel world.
pub mod morton;
pub mod lod_tree;
pub mod updates;
pub mod world;
pub mod mesh;
pub mod terrain;
pub mod volumetric_tree;
pub mod rle_tree;
pub mod lighting;
pub mod shading;
