//! Chunk and block coordinates, and the chunk: a cube of blocks.

use vstd::prelude::*;
use vstd::std_specs::ops::{AddSpecImpl, SubSpecImpl};
use crate::array3d;
use crate::array3d::StaticDims;
use crate::block::Block;
use crate::math::{diff3, fits_i32, sum3, V3, V3i32, V3u8, V3usize};

verus! {

/// The binary logarithm of a chunk's side.
pub const DIM_LOG2: i32 = 4;

/// The number of blocks along each side of a chunk.
pub const DIM: i32 = 16;

/// Masks the offset of a block inside its chunk out of a block coordinate.
pub const DIM_MASK: i32 = 15;

/// The number of blocks in a chunk.
pub const VOLUME: i32 = 4096;

/// A point of the integer grid.
pub type P3i32 = V3<i32>;

/// The place of a chunk in the grid of chunks.
#[derive(Clone, Copy, PartialEq, Eq, Structural, Hash, Debug)]
pub struct Coords(pub V3i32);

/// The place of a block in the grid of blocks.
#[derive(Clone, Copy, PartialEq, Eq, Structural, Hash, Debug)]
pub struct BlockCoords(pub V3i32);

/// The floor of `x / 16`, by an arithmetic shift.
fn shift_down(x: i32) -> (r: i32)
    ensures
        r == x as int / 16,
{
    let r = x >> 4;
    assert(x >> 4 == x as int / 16) by (bit_vector);
    r
}

/// `x` modulo 16, by a mask.
fn low_bits(x: i32) -> (r: u8)
    ensures
        r == x as int % 16,
{
    let r = (x & 15) as u8;
    assert(0 <= x & 15 < 16 && x & 15 == x as int % 16) by (bit_vector);
    r
}

/// `x` shifted up by four bits. Where `16 * x` fits in an `i32`, that is the
/// result; the bits shifted out at the top are lost.
fn shift_up(x: i32) -> (r: i32)
    ensures
        r == x << 4,
        i32::MIN <= 16 * x <= i32::MAX ==> r == 16 * x,
{
    let r = x << 4;
    assert(-0x800_0000 <= x < 0x800_0000 ==> x << 4 == 16 * x) by (bit_vector);
    r
}

impl Coords {
    /// The chunk at the origin of the grid of chunks.
    pub fn origin() -> (r: Coords)
        ensures
            r.0 == (V3 { x: 0i32, y: 0i32, z: 0i32 }),
    {
        Coords(V3::<i32>::zeros())
    }

    /// The chunk at `point` of the grid of chunks.
    pub fn new(point: P3i32) -> (r: Coords)
        ensures
            r.0 == point,
    {
        Coords(point)
    }

    /// The place as a plain vector.
    pub fn unwrap(self) -> (r: V3i32)
        ensures
            r == self.0,
    {
        self.0
    }

    /// The block of the chunk with the least coordinates: each coordinate of
    /// the chunk shifted up by `DIM_LOG2` bits, which is `DIM` times the
    /// coordinate where that fits.
    pub fn block_mins(&self) -> (r: BlockCoords)
        ensures
            r.0.x == self.0.x << 4 && r.0.y == self.0.y << 4 && r.0.z == self.0.z << 4,
            fits_i32(V3 { x: 16 * self.0.x, y: 16 * self.0.y, z: 16 * self.0.z })
                ==> r.0.ints() == (V3 { x: 16 * self.0.x, y: 16 * self.0.y, z: 16 * self.0.z }),
    {
        BlockCoords(
            V3 { x: shift_up(self.0.x), y: shift_up(self.0.y), z: shift_up(self.0.z) },
        )
    }

    /// The block of the chunk that lies `offset` from its least block.
    pub fn block_at_offset(&self, offset: V3u8) -> (r: BlockCoords)
        requires
            fits_i32(V3 { x: 16 * self.0.x, y: 16 * self.0.y, z: 16 * self.0.z }),
            fits_i32(
                V3 {
                    x: 16 * self.0.x + offset.x,
                    y: 16 * self.0.y + offset.y,
                    z: 16 * self.0.z + offset.z,
                },
            ),
        ensures
            r.0.ints() == (V3 {
                x: 16 * self.0.x + offset.x,
                y: 16 * self.0.y + offset.y,
                z: 16 * self.0.z + offset.z,
            }),
    {
        let mins = self.block_mins();
        let step = V3 { x: offset.x as i32, y: offset.y as i32, z: offset.z as i32 };
        mins + step
    }
}

impl core::ops::Add<V3i32> for Coords {
    type Output = Coords;

    fn add(self, rhs: V3i32) -> (r: Coords) {
        Coords(V3 { x: self.0.x + rhs.x, y: self.0.y + rhs.y, z: self.0.z + rhs.z })
    }
}

impl AddSpecImpl<V3i32> for Coords {
    open spec fn obeys_add_spec() -> bool {
        true
    }

    open spec fn add_req(self, rhs: V3i32) -> bool {
        fits_i32(sum3(self.0.ints(), rhs.ints()))
    }

    open spec fn add_spec(self, rhs: V3i32) -> Coords {
        Coords(self.0.plus(rhs))
    }
}

impl core::ops::Sub<V3i32> for Coords {
    type Output = Coords;

    fn sub(self, rhs: V3i32) -> (r: Coords) {
        Coords(V3 { x: self.0.x - rhs.x, y: self.0.y - rhs.y, z: self.0.z - rhs.z })
    }
}

impl SubSpecImpl<V3i32> for Coords {
    open spec fn obeys_sub_spec() -> bool {
        true
    }

    open spec fn sub_req(self, rhs: V3i32) -> bool {
        fits_i32(diff3(self.0.ints(), rhs.ints()))
    }

    open spec fn sub_spec(self, rhs: V3i32) -> Coords {
        Coords(self.0.minus(rhs))
    }
}

impl core::ops::Sub<Coords> for Coords {
    type Output = V3i32;

    fn sub(self, rhs: Coords) -> (r: V3i32) {
        V3 { x: self.0.x - rhs.0.x, y: self.0.y - rhs.0.y, z: self.0.z - rhs.0.z }
    }
}

impl SubSpecImpl<Coords> for Coords {
    open spec fn obeys_sub_spec() -> bool {
        true
    }

    open spec fn sub_req(self, rhs: Coords) -> bool {
        fits_i32(diff3(self.0.ints(), rhs.0.ints()))
    }

    open spec fn sub_spec(self, rhs: Coords) -> V3i32 {
        self.0.minus(rhs.0)
    }
}

impl BlockCoords {
    /// The block at `point` of the grid of blocks.
    pub fn new(point: P3i32) -> (r: BlockCoords)
        ensures
            r.0 == point,
    {
        BlockCoords(point)
    }

    /// The place as a plain vector.
    pub fn unwrap(self) -> (r: V3i32)
        ensures
            r == self.0,
    {
        self.0
    }

    /// The block at the origin of the grid of blocks.
    pub fn origin() -> (r: BlockCoords)
        ensures
            r.0 == (V3 { x: 0i32, y: 0i32, z: 0i32 }),
    {
        BlockCoords(V3::<i32>::zeros())
    }

    /// The chunk that holds the block: each coordinate divided by `DIM`,
    /// rounded down.
    pub fn chunk(&self) -> (r: Coords)
        ensures
            r.0.ints() == (V3 {
                x: self.0.x as int / 16,
                y: self.0.y as int / 16,
                z: self.0.z as int / 16,
            }),
    {
        Coords::new(
            V3 { x: shift_down(self.0.x), y: shift_down(self.0.y), z: shift_down(self.0.z) },
        )
    }

    /// Where in its chunk the block lies: each coordinate modulo `DIM`.
    pub fn offset(&self) -> (r: V3u8)
        ensures
            r.ints() == (V3 {
                x: self.0.x as int % 16,
                y: self.0.y as int % 16,
                z: self.0.z as int % 16,
            }),
            r.x < 16 && r.y < 16 && r.z < 16,
    {
        V3 { x: low_bits(self.0.x), y: low_bits(self.0.y), z: low_bits(self.0.z) }
    }

    /// The chunk that holds the block, and where in that chunk it lies. The
    /// two give the block back: `DIM` times the chunk plus the offset.
    pub fn chunk_and_offset(&self) -> (r: (Coords, V3u8))
        ensures
            r.0.0.ints() == (V3 {
                x: self.0.x as int / 16,
                y: self.0.y as int / 16,
                z: self.0.z as int / 16,
            }),
            r.1.ints() == (V3 {
                x: self.0.x as int % 16,
                y: self.0.y as int % 16,
                z: self.0.z as int % 16,
            }),
            r.1.x < 16 && r.1.y < 16 && r.1.z < 16,
            16 * r.0.0.x + r.1.x == self.0.x,
            16 * r.0.0.y + r.1.y == self.0.y,
            16 * r.0.0.z + r.1.z == self.0.z,
    {
        (self.chunk(), self.offset())
    }
}

/// A block is found again from its chunk and its offset in that chunk, and
/// a chunk's block at an offset below `DIM` lies in that chunk at that
/// offset.
pub proof fn lemma_chunk_offset(chunk: V3<int>, offset: V3<int>)
    requires
        0 <= offset.x < 16,
        0 <= offset.y < 16,
        0 <= offset.z < 16,
    ensures
        (16 * chunk.x + offset.x) / 16 == chunk.x && (16 * chunk.x + offset.x) % 16 == offset.x,
        (16 * chunk.y + offset.y) / 16 == chunk.y && (16 * chunk.y + offset.y) % 16 == offset.y,
        (16 * chunk.z + offset.z) / 16 == chunk.z && (16 * chunk.z + offset.z) % 16 == offset.z,
{
}

impl core::ops::Add<V3i32> for BlockCoords {
    type Output = BlockCoords;

    fn add(self, rhs: V3i32) -> (r: BlockCoords) {
        BlockCoords(V3 { x: self.0.x + rhs.x, y: self.0.y + rhs.y, z: self.0.z + rhs.z })
    }
}

impl AddSpecImpl<V3i32> for BlockCoords {
    open spec fn obeys_add_spec() -> bool {
        true
    }

    open spec fn add_req(self, rhs: V3i32) -> bool {
        fits_i32(sum3(self.0.ints(), rhs.ints()))
    }

    open spec fn add_spec(self, rhs: V3i32) -> BlockCoords {
        BlockCoords(self.0.plus(rhs))
    }
}

impl core::ops::Sub<BlockCoords> for BlockCoords {
    type Output = V3i32;

    fn sub(self, rhs: BlockCoords) -> (r: V3i32) {
        V3 { x: self.0.x - rhs.0.x, y: self.0.y - rhs.0.y, z: self.0.z - rhs.0.z }
    }
}

impl SubSpecImpl<BlockCoords> for BlockCoords {
    open spec fn obeys_sub_spec() -> bool {
        true
    }

    open spec fn sub_req(self, rhs: BlockCoords) -> bool {
        fits_i32(diff3(self.0.ints(), rhs.0.ints()))
    }

    open spec fn sub_spec(self, rhs: BlockCoords) -> V3i32 {
        self.0.minus(rhs.0)
    }
}

/// The extent of a chunk: `DIM` blocks along each axis.
#[derive(Default, Clone, Copy, Debug)]
pub struct Dims;

impl StaticDims for Dims {
    const X: usize = 16;
    const Y: usize = 16;
    const Z: usize = 16;
}

/// The blocks of a chunk.
pub type Array = array3d::ArrayOwned<Block, Dims>;

/// A view of a region of blocks.
pub type Slice<'a> = array3d::ArraySlice<'a, Block>;

/// A cube of `DIM` blocks along each axis.
#[derive(Debug)]
pub struct Chunk {
    blocks: Array,
}

impl Clone for Chunk {
    fn clone(&self) -> (r: Chunk)
        ensures
            r@ == self@,
    {
        proof {
            use_type_invariant(self);
            self.blocks.lemma_plain();
        }
        let cells = &self.blocks.hold;
        let mut hold: Vec<Block> = Vec::new();
        let mut n: usize = 0;
        while n < cells.len()
            invariant
                n <= cells@.len(),
                hold@ == cells@.take(n as int),
            decreases cells@.len() - n,
        {
            hold.push(cells[n]);
            n += 1;
        }
        let blocks = array3d::Array { hold, dims: Dims };
        proof {
            blocks.lemma_plain();
        }
        Chunk { blocks }
    }
}

impl View for Chunk {
    type V = Seq<Block>;

    /// The blocks of the chunk in row-major order.
    closed spec fn view(&self) -> Seq<Block> {
        self.blocks@
    }
}

impl Chunk {
    #[verifier::type_invariant]
    spec fn well_formed(self) -> bool {
        self.blocks.wf()
    }

    /// The block at `ijk`.
    pub closed spec fn at(&self, ijk: V3<usize>) -> Block {
        self.blocks.at(ijk)
    }

    /// Whether `ijk` is an index of a chunk.
    pub open spec fn has(ijk: V3<usize>) -> bool {
        ijk.x < 16 && ijk.y < 16 && ijk.z < 16
    }

    /// The view of a chunk lists its `VOLUME` blocks by the row-major rank of
    /// their indices.
    pub proof fn lemma_view(&self)
        requires
            self.blocks().wf(),
        ensures
            self@.len() == 4096,
            forall|ijk: V3<usize>|
                Self::has(ijk) ==> self@[#[trigger] crate::math::iter::rank(
                    (V3 { x: 16usize, y: 16usize, z: 16usize }).ints(),
                    ijk.ints(),
                )] == self.at(ijk),
    {
        self.blocks.lemma_view();
    }

    /// The array of the chunk's blocks.
    pub closed spec fn blocks(&self) -> Array {
        self.blocks
    }

    /// A chunk that holds `blocks`.
    pub fn new(blocks: Array) -> (r: Chunk)
        requires
            blocks.wf(),
        ensures
            r.blocks() == blocks,
            r@ == blocks@,
            forall|ijk: V3<usize>| #[trigger] r.at(ijk) == blocks.at(ijk),
    {
        Chunk { blocks }
    }

    /// A chunk whose blocks are all `block`.
    pub fn new_filled(block: Block) -> (r: Chunk)
        ensures
            forall|ijk: V3<usize>| Self::has(ijk) ==> #[trigger] r.at(ijk) == block,
    {
        let blocks: Array = array3d::Array::new_filled(block);
        Chunk { blocks }
    }

    /// A chunk whose block at each index is what `func` gives for that
    /// index.
    pub fn generate(func: impl FnMut(V3usize) -> Block) -> (r: Chunk)
        requires
            forall|ijk: V3<usize>| Self::has(ijk) ==> #[trigger] call_requires(func, (ijk,)),
        ensures
            forall|ijk: V3<usize>|
                Self::has(ijk) ==> call_ensures(func, (ijk,), #[trigger] r.at(ijk)),
    {
        let blocks: Array = array3d::Array::generate(func);
        Chunk { blocks }
    }

    /// The array of the chunk's blocks.
    pub fn array(&self) -> (r: &Array)
        ensures
            *r == self.blocks(),
            r.wf(),
            r@ == self@,
            r.layout() == array3d::Layout::plain(V3 { x: 16usize, y: 16usize, z: 16usize }),
            forall|ijk: V3<usize>| #[trigger] r.at(ijk) == self.at(ijk),
    {
        proof {
            use_type_invariant(self);
        }
        &self.blocks
    }

    /// Whether every block of the chunk is empty.
    pub fn is_empty(&self) -> (r: bool)
        ensures
            r == (forall|n: int| 0 <= n < self@.len() ==> self@[n] == Block::Empty),
    {
        proof {
            use_type_invariant(self);
            self.blocks.lemma_plain();
        }
        let cells = &self.blocks.hold;
        let mut n: usize = 0;
        while n < cells.len()
            invariant
                n <= cells@.len(),
                cells@ == self@,
                forall|m: int| 0 <= m < n ==> self@[m] == Block::Empty,
            decreases cells@.len() - n,
        {
            if !cells[n].is_empty() {
                return false;
            }
            n += 1;
        }
        true
    }

    /// The block at `ijk`.
    pub fn get(&self, ijk: V3u8) -> (r: &Block)
        requires
            ijk.x < 16 && ijk.y < 16 && ijk.z < 16,
        ensures
            *r == self.at(V3 { x: ijk.x as usize, y: ijk.y as usize, z: ijk.z as usize }),
    {
        proof {
            use_type_invariant(self);
        }
        self.blocks.get(V3 { x: ijk.x as usize, y: ijk.y as usize, z: ijk.z as usize })
    }

    /// Puts `block` at `ijk`; the other blocks stay.
    pub fn set(&mut self, ijk: V3u8, block: Block)
        requires
            ijk.x < 16 && ijk.y < 16 && ijk.z < 16,
        ensures
            forall|other: V3<usize>|
                Self::has(other) ==> #[trigger] final(self).at(other) == if other == (V3 {
                    x: ijk.x as usize,
                    y: ijk.y as usize,
                    z: ijk.z as usize,
                }) {
                    block
                } else {
                    old(self).at(other)
                },
    {
        proof {
            use_type_invariant(&*self);
        }
        let at = V3 { x: ijk.x as usize, y: ijk.y as usize, z: ijk.z as usize };
        let index = array3d::Dims::flat_index(&self.blocks.dims, at);
        let ghost before = self.blocks;
        self.blocks.hold[index] = block;
        proof {
            assert forall|other: V3<usize>| Self::has(other) implies #[trigger] self.blocks.at(other)
                == if other == at {
                block
            } else {
                before.at(other)
            } by {
                crate::array3d::lemma_flat_index(before.layout(), at);
                crate::array3d::lemma_flat_index(before.layout(), other);
            }
        }
    }
}

} // verus!
