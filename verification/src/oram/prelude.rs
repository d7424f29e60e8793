//! Types and constants shared by the ORAMs.
use vstd::prelude::*;

verus! {

/// Type used for positions in the position map.
pub type PositionType = usize;

/// The position of an empty block.
pub const DUMMY_POS: usize = usize::MAX;

/// Type used for ORAM keys.
pub type K = usize;

/// Const version of `std::cmp::max`.
pub fn max(a: usize, b: usize) -> (r: usize)
    ensures
        r == (if a > b { a } else { b }),
{
    if a > b {
        a
    } else {
        b
    }
}

} // verus!
