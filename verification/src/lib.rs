//! Persistent binary Merkle tree structures for Ethereum consensus objects.
//!
//! The crate provides copy-on-write lists and vectors backed by an immutable
//! tree of shared nodes.  Mutations are buffered in a sparse update map and
//! flushed into the backing tree in a single batched rewrite, and structural
//! sharing between versions of a list is recovered by rebasing.

use vstd::prelude::*;

pub mod builder;
pub mod diff;
pub mod error;
pub mod hashing;
pub mod interface;
pub mod iter;
pub mod leaf;
pub mod level_iter;
pub mod list;
pub mod packed_leaf;
pub mod repeat;
pub mod ssz;
pub mod tree;
pub mod update_map;
pub mod utils;
pub mod vector;

verus! {

/// Maximum depth for a tree.
///
/// Trees are limited to 2^63 elements so that capacities can be computed
/// without overflowing a 64-bit machine word.
pub const MAX_TREE_DEPTH: usize = 63;

/// Number of u64 values packed into one 32-byte hashing chunk.
pub const PACKING_FACTOR: usize = 4;

/// Base-2 logarithm of [`PACKING_FACTOR`]: the tree depth absorbed by packed leaves.
pub const PACKING_DEPTH: usize = 2;

} // verus!
