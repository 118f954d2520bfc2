//! Tagged errors returned by every fallible operation.

use vstd::prelude::*;

verus! {

/// Error type shared by all operations of the crate.
///
/// Bounds and length errors report a caller mistake; the builder, update and
/// rebase variants report a broken structural invariant; the SSZ variants
/// report invalid external input.
#[derive(Debug, Clone, Copy, PartialEq, Eq, Structural)]
pub enum Error {
    OutOfBoundsUpdate { index: usize, len: usize },
    OutOfBoundsIterFrom { index: usize, len: usize },
    ListFull { len: usize },
    PackedLeafFull { len: usize },
    LeafUpdateMissing { index: usize },
    PackedLeafOutOfBounds { sub_index: usize, len: usize },
    NodeUpdatesMissing { prefix: usize },
    WrongVectorLength { len: usize, expected: usize },
    PushNotSupported,
    LevelIterPendingUpdates,
    UpdateLeafError,
    UpdateLeavesError,
    BuilderExpectedLeaf,
    BuilderInvalidDepth { depth: usize },
    BuilderFull,
    InvalidRebaseNode,
    InvalidRebaseLeaf,
    IntraRebaseZeroDepth,
    InvalidSszBytesLen { len: usize, expected_multiple: usize },
    SszListTooLong { num_items: usize, max_len: usize },
}

} // verus!
