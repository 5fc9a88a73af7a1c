use vstd::prelude::*;

verus! {

/// The tile lets the focus move to the layer below or above.
pub const ALLOWS_Z_MOVE: u32 = 1;

/// The tile cannot be walked onto.
pub const BLOCKS_MOVE: u32 = 2;

} // verus!
