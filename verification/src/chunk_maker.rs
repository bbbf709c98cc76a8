//! The terrain of a column of chunks, from the height of the ground and of
//! the trees over each place of the column.

use vstd::prelude::*;
use crate::block::Block;
use crate::chunk::{Chunk, Coords};
use crate::chunk_source::includes;
use crate::math::{V2i32, V3, V3usize};

verus! {

/// The lowest layer of chunks that holds terrain.
pub const FLOOR: i32 = -4;

/// The layer of chunks just above the highest that holds terrain.
pub const CEILING: i32 = 4;

/// The least height of a tree.
pub const TREE_MIN: i32 = 4;

/// The greatest height of a tree.
pub const TREE_MAX: i32 = 10;

/// A height for each place of a column of chunks, by y and then by x.
pub type Heights = [[i32; 16]; 16];

/// The block at `altitude` above the ground, where a tree of `tree_height`
/// stands, or none if that is zero: stone deep down, four blocks of soil,
/// grass on top; above that the trunk of the tree as high as it reaches.
pub open spec fn spec_block_at(altitude: int, tree_height: int) -> Block {
    if altitude < -4 {
        Block::Stone
    } else if altitude < 0 {
        Block::Soil
    } else if altitude < 1 {
        Block::Grass
    } else if altitude > TREE_MAX {
        Block::Empty
    } else if altitude > tree_height {
        Block::Empty
    } else {
        Block::TreeTrunk
    }
}

/// The block at `altitude` above the ground, where a tree of `tree_height`
/// stands.
pub fn block_at(altitude: i64, tree_height: i32) -> (r: Block)
    ensures
        r == spec_block_at(altitude as int, tree_height as int),
{
    if altitude < -4 {
        Block::Stone
    } else if altitude < 0 {
        Block::Soil
    } else if altitude < 1 {
        Block::Grass
    } else if altitude > TREE_MAX as i64 {
        Block::Empty
    } else if altitude > tree_height as i64 {
        Block::Empty
    } else {
        Block::TreeTrunk
    }
}

/// `raw`, or the nearer of `min` and `max` where `raw` lies outside them.
pub fn clamp(raw: i32, min: i32, max: i32) -> (r: i32)
    ensures
        r == if raw > max && max >= min {
            max
        } else if raw < min || max < min {
            min
        } else {
            raw
        },
{
    let low = if raw < max {
        raw
    } else {
        max
    };
    if low > min {
        low
    } else {
        min
    }
}

/// Whether chunks of the layer `chunk_z` hold terrain. The chunks of other
/// layers are empty.
pub fn in_terrain(chunk_z: i32) -> (r: bool)
    ensures
        r == (FLOOR <= chunk_z < CEILING),
{
    FLOOR <= chunk_z && chunk_z < CEILING
}

/// Whether the chunk holds the terrain of the layer `chunk_z` over ground of
/// the heights `ground` with trees of the heights `trees`.
pub open spec fn is_terrain(chunk: Chunk, chunk_z: int, ground: Heights, trees: Heights) -> bool {
    forall|ijk: V3<usize>|
        Chunk::has(ijk) ==> #[trigger] chunk.at(ijk) == spec_block_at(
            chunk_z * 16 + ijk.z - ground[ijk.y as int][ijk.x as int],
            trees[ijk.y as int][ijk.x as int] as int,
        )
}

/// The chunk of the layer `chunk_z` over ground of the heights `ground` with
/// trees of the heights `trees`.
pub fn make_chunk(chunk_z: i32, ground: &Heights, trees: &Heights) -> (r: Chunk)
    ensures
        is_terrain(r, chunk_z as int, *ground, *trees),
{
    let block = |rel: V3usize| -> (b: Block)
        requires
            rel.x < 16 && rel.y < 16 && rel.z < 16,
        ensures
            b == spec_block_at(
                chunk_z * 16 + rel.z - ground[rel.y as int][rel.x as int],
                trees[rel.y as int][rel.x as int] as int,
            ),
        {
            let ground_height = ground[rel.y][rel.x];
            let block_height = chunk_z as i64 * 16 + rel.z as i64;
            let altitude = block_height - ground_height as i64;
            block_at(altitude, trees[rel.y][rel.x])
        };
    Chunk::generate(block)
}

/// The chunks of all layers of terrain in the column at `chunk_xy`, from the
/// lowest up, each with its coordinates.
pub fn make_column(chunk_xy: V2i32, ground: &Heights, trees: &Heights) -> (r: Vec<(Coords, Chunk)>)
    ensures
        r@.len() == CEILING - FLOOR,
        forall|i: int|
            0 <= i < r@.len() ==> (#[trigger] r@[i]).0 == Coords(
                V3 { x: chunk_xy.x, y: chunk_xy.y, z: (FLOOR + i) as i32 },
            ) && is_terrain(r@[i].1, FLOOR + i, *ground, *trees),
{
    let mut out: Vec<(Coords, Chunk)> = Vec::new();
    let mut chunk_z: i32 = FLOOR;
    while chunk_z < CEILING
        invariant
            FLOOR <= chunk_z <= CEILING,
            out@.len() == chunk_z - FLOOR,
            forall|i: int|
                0 <= i < out@.len() ==> (#[trigger] out@[i]).0 == Coords(
                    V3 { x: chunk_xy.x, y: chunk_xy.y, z: (FLOOR + i) as i32 },
                ) && is_terrain(out@[i].1, FLOOR + i, *ground, *trees),
        decreases CEILING - chunk_z,
    {
        let chunk = make_chunk(chunk_z, ground, trees);
        let coords = Coords::new(chunk_xy.push(chunk_z));
        out.push((coords, chunk));
        chunk_z += 1;
    }
    out
}

/// What is made when the chunk at `coords` is asked for, over ground of the
/// heights `ground` with trees of the heights `trees`: the whole column of
/// terrain that the chunk stands in, or the chunk alone, empty, where it
/// lies outside the layers of terrain. Either way the chunk asked for is
/// among what is made.
pub fn make_terrain(coords: Coords, ground: &Heights, trees: &Heights) -> (r: Vec<(Coords, Chunk)>)
    ensures
        includes(r@, coords),
        FLOOR <= coords.0.z < CEILING ==> {
            &&& r@.len() == CEILING - FLOOR
            &&& forall|i: int|
                0 <= i < r@.len() ==> (#[trigger] r@[i]).0 == Coords(
                    V3 { x: coords.0.x, y: coords.0.y, z: (FLOOR + i) as i32 },
                ) && is_terrain(r@[i].1, FLOOR + i, *ground, *trees)
        },
        !(FLOOR <= coords.0.z < CEILING) ==> {
            &&& r@.len() == 1
            &&& r@[0].0 == coords
            &&& forall|ijk: V3<usize>| Chunk::has(ijk) ==> #[trigger] r@[0].1.at(ijk) == Block::Empty
        },
{
    if in_terrain(coords.0.z) {
        let r = make_column(coords.0.xy(), ground, trees);
        proof {
            assert(r@[coords.0.z - FLOOR].0 == coords);
        }
        r
    } else {
        let r = make_empty(coords);
        proof {
            assert(r@[0].0 == coords);
        }
        r
    }
}

/// The empty chunk at `coords`, alone: what there is to make outside the
/// layers of terrain.
pub fn make_empty(coords: Coords) -> (r: Vec<(Coords, Chunk)>)
    ensures
        r@.len() == 1,
        r@[0].0 == coords,
        forall|ijk: V3<usize>| Chunk::has(ijk) ==> #[trigger] r@[0].1.at(ijk) == Block::Empty,
{
    let chunk = Chunk::new_filled(Block::Empty);
    let mut out: Vec<(Coords, Chunk)> = Vec::new();
    out.push((coords, chunk));
    out
}

} // verus!
