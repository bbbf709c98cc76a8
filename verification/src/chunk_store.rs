//! Stores of chunks that outlast the cache.

use vstd::prelude::*;
use crate::chunk::{Chunk, Coords};
use crate::chunk_source::ChunkStore;

verus! {

/// The store that keeps nothing: it has no chunk to load, and drops what it
/// is given to store.
pub struct Null {}

impl Null {
    pub fn new() -> Null {
        Null {  }
    }
}

impl ChunkStore for Null {
    fn load(&mut self, coords: Coords) -> (r: Option<Chunk>)
        ensures
            r is None,
    {
        None
    }

    fn store(&mut self, coords: Coords, chunk: &Chunk) {
    }
}

} // verus!
