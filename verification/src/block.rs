//! Voxel cell values.

use vstd::prelude::*;
use crate::array3d;

verus! {

/// A read-only view of a region of blocks.
pub type Slice<'a> = array3d::ArraySlice<'a, Block>;

/// A view of a region of blocks through which they can be changed.
pub type SliceMut<'a> = array3d::ArraySliceMut<'a, Block>;

/// What occupies one cell of the block grid.
#[derive(Clone, Copy, PartialEq, Eq, Structural, Debug)]
pub enum Block {
    Empty,
    Stone,
    Soil,
    Grass,
    TreeTrunk,
}

impl Block {
    /// Whether the cell holds nothing.
    pub fn is_empty(&self) -> (r: bool)
        ensures
            r == (*self == Block::Empty),
    {
        *self == Block::Empty
    }

    /// Whether the cell holds a solid block of any kind.
    pub fn is_nonempty(&self) -> (r: bool)
        ensures
            r == (*self != Block::Empty),
    {
        !self.is_empty()
    }
}

} // verus!
