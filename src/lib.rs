//! Chunk streaming and meshing for an unbounded voxel world.
//!
//! The library holds the verified core: chunk coordinates and the world to
//! chunk mapping, block storage with dirty tracking, surface extraction
//! against six neighbours, terrain filling from a height map, frustum culling
//! over fixed-point planes, and the per-tick bookkeeping of the chunk store.

pub mod coord;
pub mod block;
pub mod grid;
pub mod chunk;
pub mod texture;
pub mod mesh;
pub mod terrain;
pub mod frustum;
pub mod loader;
pub mod inventory;
pub mod storage;
