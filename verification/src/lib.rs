//! Streaming voxel world: chunk generation, face culling and mesh assembly.
//!
//! World positions are 64-bit integers, chunk-grid coordinates 32-bit ones, so
//! that the world position of every voxel of every chunk can be formed without
//! overflow. Vertex positions are kept in half-voxel units, which makes the
//! corners of a unit face integral.

pub mod block;
pub mod chunk;
pub mod chunk_manager;
pub mod coord_map;
pub mod grid;
pub mod mesh;
pub mod meshing;
