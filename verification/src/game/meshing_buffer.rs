//! The buffer that a chunk is meshed from: the chunk and, beyond it, one
//! layer of each neighbour on its positive sides.

use vstd::prelude::*;
use crate::array3d;
use crate::array3d::StaticDims;
use crate::block::Block;
use crate::math::V3;

verus! {

/// The extent of the buffer: one more than a chunk's along each axis.
#[derive(Default, Clone, Copy, Debug)]
pub struct Dims;

impl StaticDims for Dims {
    const X: usize = 17;
    const Y: usize = 17;
    const Z: usize = 17;
}

pub type Buffer = array3d::ArrayOwned<Block, Dims>;

/// The layout of a meshing buffer: a grid of 17 cells along each axis,
/// covered whole.
pub proof fn lemma_layout(buffer: Buffer)
    ensures
        buffer.layout() == array3d::Layout::plain(V3 { x: 17usize, y: 17usize, z: 17usize }),
{
}

} // verus!
