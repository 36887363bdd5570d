//! The six axis-aligned faces of a block.

use vstd::prelude::*;

verus! {

/// One of the six faces of a block, named by the world axis it points along.
#[derive(Copy, Clone, PartialEq, Eq, Structural, Debug)]
pub enum BlockFace {
    /// -Y
    Bottom,
    /// +Y
    Top,
    /// -Z
    North,
    /// +Z
    South,
    /// -X
    West,
    /// +X
    East,
}

} // verus!
