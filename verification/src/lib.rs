//! Simulation core of a voxel world: dense three-dimensional arrays, chunk
//! and block coordinates, a borrow-tracking chunk cache, a toroidal stage of
//! resident chunks and a face-culling mesher.

use vstd::prelude::*;

pub mod array3d;
pub mod block;
pub mod chunk;
pub mod chunk_cache;
pub mod chunk_maker;
pub mod chunk_source;
pub mod chunk_store;
pub mod game;
pub mod math;
pub mod mesher;
pub mod stage;


verus! {

} // verus!
