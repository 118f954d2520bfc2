//! A single unpacked value at the bottom of a tree.

use vstd::prelude::*;

verus! {

/// Leaf node holding one owned value.
///
/// Leaves appear at depth 0 of trees whose values are not packed.
#[derive(Debug, Clone, Copy, PartialEq, Eq, Structural)]
pub struct Leaf {
    pub value: u64,
}

impl Leaf {
    pub fn new(value: u64) -> (r: Self)
        ensures
            r.value == value,
    {
        Leaf { value }
    }
}

} // verus!
