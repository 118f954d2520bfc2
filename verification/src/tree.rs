//! The persistent Merkle tree node type.
//!
//! A tree is an immutable recursive sum type; every child pointer is a shared
//! `Arc` handle, and every mutation returns a new root that shares untouched
//! subtrees with the original by pointer.

use vstd::prelude::*;

use crate::error::Error;
use crate::hashing::{chunk_of, hash_concat, hash_concat_of, zero_hash, zero_hash_spec, Hash256};
use crate::leaf::Leaf;
use crate::packed_leaf::{packed_update_fill, packed_update_ok, packed_update_result, PackedLeaf};
use crate::update_map::MaxMap;
use crate::{PACKING_DEPTH, PACKING_FACTOR};
use std::sync::Arc;
use vstd::arithmetic::power2::pow2;

verus! {

/// Merkle tree node: an internal node with two shared children, a leaf of one
/// unpacked value, a leaf of up to four packed values, or a canonical
/// all-zero subtree of a known depth.
#[derive(Debug)]
pub enum Tree {
    Leaf(Leaf),
    PackedLeaf(PackedLeaf),
    Node { left: Arc<Tree>, right: Arc<Tree> },
    Zero(usize),
}

/// Number of leaf slots of a subtree of the given depth and packing depth.
pub open spec fn capacity(depth: nat, packing_depth: nat) -> nat {
    pow2(depth + packing_depth)
}

/// The leaves of a shared subtree handle.
pub open spec fn leaves_of(a: &Arc<Tree>, depth: nat, packing_depth: nat) -> Seq<u64> {
    (**a).leaves(depth, packing_depth)
}

impl Tree {
    /// Structural well-formedness at a given depth.
    ///
    /// `Zero` carries its own depth, leaves appear only at depth 0 (packed
    /// leaves hold at most `2^packing_depth` values), and internal nodes have
    /// two well-formed children one level down.
    pub open spec fn wf(self, depth: nat, packing_depth: nat) -> bool
        decreases self,
    {
        match self {
            Tree::Leaf(_) => depth == 0 && packing_depth == 0,
            Tree::PackedLeaf(l) => depth == 0 && packing_depth == PACKING_DEPTH && l.values@.len()
                <= PACKING_FACTOR,
            Tree::Node { left, right } => depth > 0 && (*left).wf((depth - 1) as nat, packing_depth)
                && (*right).wf((depth - 1) as nat, packing_depth),
            Tree::Zero(d) => d == depth,
        }
    }

    /// The full sequence of leaf slots of this subtree, zero-padded: absent
    /// slots of packed leaves and all slots of `Zero` subtrees read as 0.
    pub open spec fn leaves(self, depth: nat, packing_depth: nat) -> Seq<u64>
        decreases self,
    {
        match self {
            Tree::Leaf(l) => seq![l.value],
            Tree::PackedLeaf(l) => Seq::new(
                pow2(packing_depth),
                |i: int|
                    if i < l.values@.len() {
                        l.values@[i]
                    } else {
                        0u64
                    },
            ),
            Tree::Node { left, right } => (*left).leaves((depth - 1) as nat, packing_depth) + (
            *right).leaves((depth - 1) as nat, packing_depth),
            Tree::Zero(_) => Seq::new(capacity(depth, packing_depth), |i: int| 0u64),
        }
    }

    /// Density of a subtree whose slots start at list position `base`, in a
    /// list of logical length `len`: `Zero` only covers positions at or past
    /// `len`, and a packed leaf is filled to exactly `min(2^pd, len - base)`.
    pub open spec fn proper(self, depth: nat, packing_depth: nat, len: int, base: int) -> bool
        decreases self,
    {
        match self {
            Tree::Leaf(_) => base < len,
            Tree::PackedLeaf(l) => base < len && l.values@.len() == if len - base
                < pow2(packing_depth) {
                len - base
            } else {
                pow2(packing_depth) as int
            },
            Tree::Node { left, right } => (*left).proper((depth - 1) as nat, packing_depth, len, base)
                && (*right).proper(
                (depth - 1) as nat,
                packing_depth,
                len,
                base + capacity((depth - 1) as nat, packing_depth),
            ),
            Tree::Zero(_) => base >= len,
        }
    }

    /// Whether the slot at subtree-local index `i` is backed by a stored
    /// value (as opposed to lying in a `Zero` subtree or an unfilled slot of
    /// a packed leaf).
    pub open spec fn materialized(self, depth: nat, packing_depth: nat, i: int) -> bool
        decreases self,
    {
        match self {
            Tree::Leaf(_) => true,
            Tree::PackedLeaf(l) => i < l.values@.len(),
            Tree::Node { left, right } => {
                let half = capacity((depth - 1) as nat, packing_depth) as int;
                if i < half {
                    (*left).materialized((depth - 1) as nat, packing_depth, i)
                } else {
                    (*right).materialized((depth - 1) as nat, packing_depth, i - half)
                }
            },
            Tree::Zero(_) => false,
        }
    }

    /// The Merkle root of this subtree: leaves hash to their packed chunk,
    /// zero subtrees to the well-known zero hash of their depth, and internal
    /// nodes to the digest of their children's roots.
    pub open spec fn hash_spec(self, depth: nat, packing_depth: nat) -> Seq<u8>
        decreases self,
    {
        match self {
            Tree::Leaf(l) => chunk_of(seq![l.value]),
            Tree::PackedLeaf(l) => chunk_of(l.values@),
            Tree::Node { left, right } => hash_concat_of(
                (*left).hash_spec((depth - 1) as nat, packing_depth),
                (*right).hash_spec((depth - 1) as nat, packing_depth),
            ),
            Tree::Zero(d) => zero_hash_spec(d as nat),
        }
    }
}

/// A well-formed subtree has exactly one leaf slot per unit of capacity.
pub proof fn lemma_leaves_len(t: &Tree, depth: nat, packing_depth: nat)
    requires
        t.wf(depth, packing_depth),
    ensures
        t.leaves(depth, packing_depth).len() == capacity(depth, packing_depth),
    decreases t,
{
    match t {
        Tree::Leaf(_) => {
            vstd::arithmetic::power2::lemma2_to64();
        },
        Tree::PackedLeaf(_) => {},
        Tree::Node { left, right } => {
            lemma_leaves_len(&**left, (depth - 1) as nat, packing_depth);
            lemma_leaves_len(&**right, (depth - 1) as nat, packing_depth);
            vstd::arithmetic::power2::lemma_pow2_adds((depth - 1) as nat + packing_depth, 1);
            assert(pow2((depth + packing_depth) as nat) == pow2(
                ((depth - 1) as nat + packing_depth) as nat,
            ) * 2) by {
                vstd::arithmetic::power2::lemma_pow2_adds(((depth - 1) as nat + packing_depth) as nat, 1);
                vstd::arithmetic::power2::lemma2_to64();
            }
        },
        Tree::Zero(_) => {},
    }
}

/// 2^e as a 64-bit word.
pub fn pow2_u64(e: usize) -> (r: u64)
    requires
        e < 64,
    ensures
        r == pow2(e as nat),
{
    proof {
        vstd::bits::lemma_u64_pow2_no_overflow(e as nat);
        vstd::bits::lemma_u64_shl_is_mul(1u64, e as u64);
    }
    1u64 << (e as u64)
}

impl Tree {
    pub fn empty(depth: usize) -> (r: Arc<Self>)
        ensures
            *r == Tree::Zero(depth),
    {
        Self::zero(depth)
    }

    pub fn zero(depth: usize) -> (r: Arc<Self>)
        ensures
            *r == Tree::Zero(depth),
    {
        Arc::new(Tree::Zero(depth))
    }

    pub fn node(left: Arc<Self>, right: Arc<Self>) -> (r: Arc<Self>)
        ensures
            *r == (Tree::Node { left, right }),
    {
        Arc::new(Tree::Node { left, right })
    }

    pub fn leaf(value: u64) -> (r: Arc<Self>)
        ensures
            *r == Tree::Leaf(Leaf { value }),
    {
        Arc::new(Tree::Leaf(Leaf::new(value)))
    }

    pub fn node_unboxed(left: Arc<Self>, right: Arc<Self>) -> (r: Self)
        ensures
            r == (Tree::Node { left, right }),
    {
        Tree::Node { left, right }
    }

    pub fn leaf_unboxed(value: u64) -> (r: Self)
        ensures
            r == Tree::Leaf(Leaf { value }),
    {
        Tree::Leaf(Leaf::new(value))
    }

    pub fn zero_unboxed(depth: usize) -> (r: Self)
        ensures
            r == Tree::Zero(depth),
    {
        Tree::Zero(depth)
    }

    /// Fetch the value at local position `index % 2^(depth + packing_depth)`.
    ///
    /// Descends left or right following one bit of `index` per level; returns
    /// `None` when the position lies in a `Zero` subtree or an unfilled slot.
    pub fn get_recursive(&self, index: usize, depth: usize, packing_depth: usize) -> (r: Option<
        u64,
    >)
        requires
            self.wf(depth as nat, packing_depth as nat),
            depth + packing_depth < 64,
        ensures
            ({
                let i = (index as int) % (capacity(depth as nat, packing_depth as nat) as int);
                match r {
                    Some(v) => self.materialized(depth as nat, packing_depth as nat, i) && v
                        == self.leaves(depth as nat, packing_depth as nat)[i],
                    None => !self.materialized(depth as nat, packing_depth as nat, i)
                        && self.leaves(depth as nat, packing_depth as nat)[i] == 0,
                }
            }),
        decreases depth,
    {
        proof {
            lemma_leaves_len(self, depth as nat, packing_depth as nat);
            vstd::arithmetic::power2::lemma_pow2_pos((depth + packing_depth) as nat);
            vstd::arithmetic::div_mod::lemma_mod_division_less_than_divisor(
                index as int,
                capacity(depth as nat, packing_depth as nat) as int,
            );
        }
        match self {
            Tree::Leaf(Leaf { value }) => {
                proof {
                    vstd::arithmetic::power2::lemma2_to64();
                    assert((index as int) % 1int == 0);
                }
                Some(*value)
            },
            Tree::PackedLeaf(PackedLeaf { values }) => {
                let sub_index = index % PACKING_FACTOR;
                proof {
                    vstd::arithmetic::power2::lemma2_to64();
                }
                if sub_index < values.len() {
                    Some(values[sub_index])
                } else {
                    None
                }
            },
            Tree::Node { left, right } => {
                let new_depth = depth - 1;
                let bit = ((index as u64) >> ((new_depth + packing_depth) as u64)) & 1;
                proof {
                    lemma_child_index(index as u64, (new_depth + packing_depth) as nat, bit);
                    lemma_leaves_len(&**left, new_depth as nat, packing_depth as nat);
                }
                if bit == 0 {
                    left.get_recursive(index, new_depth, packing_depth)
                } else {
                    right.get_recursive(index, new_depth, packing_depth)
                }
            },
            Tree::Zero(_) => None,
        }
    }
}

/// A subtree that lies entirely at or past the list length holds no values,
/// so it stays proper when the length bound is lowered further.
pub proof fn lemma_proper_zero_region(t: &Tree, depth: nat, pd: nat, len: int, base: int, len2: int)
    requires
        t.wf(depth, pd),
        t.proper(depth, pd, len, base),
        base >= len,
        len2 <= base,
    ensures
        t.proper(depth, pd, len2, base),
    decreases t,
{
    match t {
        Tree::Node { left, right } => {
            lemma_proper_zero_region(&**left, (depth - 1) as nat, pd, len, base, len2);
            vstd::arithmetic::power2::lemma_pow2_pos(((depth - 1) as nat + pd) as nat);
            lemma_proper_zero_region(
                &**right,
                (depth - 1) as nat,
                pd,
                len,
                base + capacity((depth - 1) as nat, pd),
                len2,
            );
        },
        _ => {},
    }
}

/// A subtree that lies entirely below the list length is completely filled,
/// so it stays proper when the length bound grows.
pub proof fn lemma_proper_full_region(t: &Tree, depth: nat, pd: nat, len: int, base: int, len2: int)
    requires
        t.wf(depth, pd),
        t.proper(depth, pd, len, base),
        base + capacity(depth, pd) <= len,
        base + capacity(depth, pd) <= len2,
    ensures
        t.proper(depth, pd, len2, base),
    decreases t,
{
    vstd::arithmetic::power2::lemma_pow2_pos((depth + pd) as nat);
    match t {
        Tree::Node { left, right } => {
            let half = capacity((depth - 1) as nat, pd) as int;
            assert(capacity(depth, pd) == 2 * half) by {
                vstd::arithmetic::power2::lemma_pow2_adds(((depth - 1) as nat + pd) as nat, 1);
                vstd::arithmetic::power2::lemma2_to64();
            }
            lemma_proper_full_region(&**left, (depth - 1) as nat, pd, len, base, len2);
            lemma_proper_full_region(&**right, (depth - 1) as nat, pd, len, base + half, len2);
        },
        _ => {},
    }
}

/// A subtree holding no pending keys keeps its density when the list length
/// grows: every position it would have to cover below the new length is
/// already materialized, so its zero regions lie past the new length too.
pub proof fn lemma_proper_no_updates(
    t: &Tree,
    depth: nat,
    pd: nat,
    old_len: int,
    new_len: int,
    base: int,
    updates: &MaxMap,
)
    requires
        t.wf(depth, pd),
        t.proper(depth, pd, old_len, base),
        old_len <= new_len,
        forall|i: int|
            base <= i < base + capacity(depth, pd) && i < new_len ==> updates.has_key(i)
                || t.materialized(depth, pd, i - base),
        forall|i: int| base <= i < base + capacity(depth, pd) ==> !(#[trigger] updates.has_key(i)),
    ensures
        t.proper(depth, pd, new_len, base),
    decreases t,
{
    vstd::arithmetic::power2::lemma_pow2_pos((depth + pd) as nat);
    match t {
        Tree::Leaf(_) => {},
        Tree::PackedLeaf(l) => {
            let fill = l.values@.len() as int;
            if old_len - base < pow2(pd) {
                if base + fill < new_len {
                    assert(updates.has_key(base + fill) || t.materialized(depth, pd, fill));
                    assert(false);
                }
            }
        },
        Tree::Zero(_) => {
            if base < new_len {
                assert(updates.has_key(base) || t.materialized(depth, pd, 0));
                assert(false);
            }
        },
        Tree::Node { left, right } => {
            let half = capacity((depth - 1) as nat, pd) as int;
            assert(capacity(depth, pd) == 2 * half) by {
                vstd::arithmetic::power2::lemma_pow2_adds(((depth - 1) as nat + pd) as nat, 1);
                vstd::arithmetic::power2::lemma2_to64();
            }
            assert forall|i: int|
                base <= i < base + half && i < new_len implies updates.has_key(i)
                    || (*left).materialized((depth - 1) as nat, pd, i - base) by {
                assert(updates.has_key(i) || t.materialized(depth, pd, i - base));
            }
            assert forall|i: int|
                base + half <= i < base + half + half && i < new_len implies updates.has_key(i)
                    || (*right).materialized((depth - 1) as nat, pd, i - (base + half)) by {
                assert(updates.has_key(i) || t.materialized(depth, pd, i - base));
            }
            lemma_proper_no_updates(
                &**left,
                (depth - 1) as nat,
                pd,
                old_len,
                new_len,
                base,
                updates,
            );
            lemma_proper_no_updates(
                &**right,
                (depth - 1) as nat,
                pd,
                old_len,
                new_len,
                base + half,
                updates,
            );
        },
    }
}

/// Density only depends on the distance between a subtree's base and the
/// list length, so it is stable under translation.
pub proof fn lemma_proper_shift(t: &Tree, depth: nat, pd: nat, len: int, base: int, delta: int)
    requires
        t.proper(depth, pd, len, base),
    ensures
        t.proper(depth, pd, len + delta, base + delta),
    decreases t,
{
    match t {
        Tree::Node { left, right } => {
            lemma_proper_shift(&**left, (depth - 1) as nat, pd, len, base, delta);
            lemma_proper_shift(
                &**right,
                (depth - 1) as nat,
                pd,
                len,
                base + capacity((depth - 1) as nat, pd),
                delta,
            );
        },
        _ => {},
    }
}

/// Every slot at or past the list length reads as zero in a dense subtree.
pub proof fn lemma_proper_leaves_zero(t: &Tree, depth: nat, pd: nat, len: int, base: int, i: int)
    requires
        t.wf(depth, pd),
        t.proper(depth, pd, len, base),
        0 <= i < capacity(depth, pd),
        base + i >= len,
    ensures
        t.leaves(depth, pd)[i] == 0,
    decreases t,
{
    vstd::arithmetic::power2::lemma_pow2_pos((depth + pd) as nat);
    match t {
        Tree::Leaf(_) => {
            vstd::arithmetic::power2::lemma2_to64();
        },
        Tree::PackedLeaf(_) => {
            vstd::arithmetic::power2::lemma2_to64();
        },
        Tree::Zero(_) => {},
        Tree::Node { left, right } => {
            let half = capacity((depth - 1) as nat, pd) as int;
            assert(capacity(depth, pd) == 2 * half) by {
                vstd::arithmetic::power2::lemma_pow2_adds(((depth - 1) as nat + pd) as nat, 1);
                vstd::arithmetic::power2::lemma2_to64();
            }
            lemma_leaves_len(&**left, (depth - 1) as nat, pd);
            lemma_leaves_len(&**right, (depth - 1) as nat, pd);
            if i < half {
                lemma_proper_leaves_zero(&**left, (depth - 1) as nat, pd, len, base, i);
            } else {
                lemma_proper_leaves_zero(
                    &**right,
                    (depth - 1) as nat,
                    pd,
                    len,
                    base + half,
                    i - half,
                );
            }
        },
    }
}

/// A dense subtree lying entirely past the list length hashes to the zero
/// hash of its depth.
pub proof fn lemma_hash_zero_region(t: &Tree, depth: nat, pd: nat, len: int, base: int)
    requires
        t.wf(depth, pd),
        t.proper(depth, pd, len, base),
        base >= len,
    ensures
        t.hash_spec(depth, pd) == zero_hash_spec(depth),
    decreases t,
{
    match t {
        Tree::Node { left, right } => {
            vstd::arithmetic::power2::lemma_pow2_pos(((depth - 1) as nat + pd) as nat);
            lemma_hash_zero_region(&**left, (depth - 1) as nat, pd, len, base);
            lemma_hash_zero_region(
                &**right,
                (depth - 1) as nat,
                pd,
                len,
                base + capacity((depth - 1) as nat, pd) as int,
            );
        },
        _ => {},
    }
}

/// The Merkle root of a dense subtree is a function of its depth and its
/// leaf slots alone: two well-formed, dense trees holding the same slots at
/// the same depth share the root hash, whatever their internal shapes.
pub proof fn lemma_hash_agrees(t1: &Tree, t2: &Tree, depth: nat, pd: nat, len: int, base: int)
    requires
        t1.wf(depth, pd),
        t2.wf(depth, pd),
        t1.proper(depth, pd, len, base),
        t2.proper(depth, pd, len, base),
        t1.leaves(depth, pd) == t2.leaves(depth, pd),
    ensures
        t1.hash_spec(depth, pd) == t2.hash_spec(depth, pd),
    decreases t1,
{
    vstd::arithmetic::power2::lemma_pow2_pos((depth + pd) as nat);
    lemma_leaves_len(t1, depth, pd);
    lemma_leaves_len(t2, depth, pd);
    match (t1, t2) {
        (Tree::Leaf(l1), Tree::Leaf(l2)) => {
            assert(t1.leaves(depth, pd)[0] == l1.value);
            assert(t2.leaves(depth, pd)[0] == l2.value);
        },
        (Tree::PackedLeaf(p1), Tree::PackedLeaf(p2)) => {
            assert(p1.values@.len() == p2.values@.len());
            assert forall|i: int| 0 <= i < p1.values@.len() implies p1.values@[i]
                == p2.values@[i] by {
                assert(t1.leaves(depth, pd)[i] == p1.values@[i]);
                assert(t2.leaves(depth, pd)[i] == p2.values@[i]);
            }
            assert(p1.values@ =~= p2.values@);
        },
        (Tree::Zero(_), Tree::Zero(_)) => {},
        (Tree::Zero(_), _) => {
            lemma_hash_zero_region(t2, depth, pd, len, base);
        },
        (_, Tree::Zero(_)) => {
            lemma_hash_zero_region(t1, depth, pd, len, base);
        },
        (Tree::Node { left: l1, right: r1 }, Tree::Node { left: l2, right: r2 }) => {
            let half = capacity((depth - 1) as nat, pd) as int;
            assert(capacity(depth, pd) == 2 * half) by {
                vstd::arithmetic::power2::lemma_pow2_adds(((depth - 1) as nat + pd) as nat, 1);
                vstd::arithmetic::power2::lemma2_to64();
            }
            lemma_leaves_len(&**l1, (depth - 1) as nat, pd);
            lemma_leaves_len(&**r1, (depth - 1) as nat, pd);
            lemma_leaves_len(&**l2, (depth - 1) as nat, pd);
            lemma_leaves_len(&**r2, (depth - 1) as nat, pd);
            assert((**l1).leaves((depth - 1) as nat, pd) =~= (**l2).leaves(
                (depth - 1) as nat,
                pd,
            )) by {
                assert forall|i: int|
                    0 <= i < half implies #[trigger] (**l1).leaves((depth - 1) as nat, pd)[i]
                    == (**l2).leaves((depth - 1) as nat, pd)[i] by {
                    assert(t1.leaves(depth, pd)[i] == (**l1).leaves((depth - 1) as nat, pd)[i]);
                    assert(t2.leaves(depth, pd)[i] == (**l2).leaves((depth - 1) as nat, pd)[i]);
                }
            }
            assert((**r1).leaves((depth - 1) as nat, pd) =~= (**r2).leaves(
                (depth - 1) as nat,
                pd,
            )) by {
                assert forall|i: int|
                    0 <= i < half implies #[trigger] (**r1).leaves((depth - 1) as nat, pd)[i]
                    == (**r2).leaves((depth - 1) as nat, pd)[i] by {
                    assert(t1.leaves(depth, pd)[half + i] == (**r1).leaves(
                        (depth - 1) as nat,
                        pd,
                    )[i]);
                    assert(t2.leaves(depth, pd)[half + i] == (**r2).leaves(
                        (depth - 1) as nat,
                        pd,
                    )[i]);
                }
            }
            lemma_hash_agrees(&**l1, &**l2, (depth - 1) as nat, pd, len, base);
            lemma_hash_agrees(&**r1, &**r2, (depth - 1) as nat, pd, len, base + half);
        },
        _ => {
            assert(false);
        },
    }
}

/// Rank used to justify termination of updates that split a `Zero` node in
/// place before descending into it.
pub open spec fn split_rank(t: Tree) -> int {
    match t {
        Tree::Zero(_) => 1,
        _ => 0,
    }
}

/// Descending one level: the tested bit of `index` says which aligned half
/// of `[base, base + 2^(k+1))` the index falls in.
pub proof fn lemma_descend(index: u64, base: int, k: nat, bit: u64)
    requires
        k < 64,
        bit == (index >> (k as u64)) & 1,
        base >= 0,
        base % (pow2((k + 1) as nat) as int) == 0,
        base <= index < base + pow2((k + 1) as nat),
    ensures
        bit == 0 || bit == 1,
        bit == 0 ==> base <= index < base + pow2(k),
        bit == 1 ==> base + pow2(k) <= index < base + pow2((k + 1) as nat),
        base % (pow2(k) as int) == 0,
        (base + pow2(k)) % (pow2(k) as int) == 0,
    decreases k,
{
    lemma_child_index(index, k, bit);
    lemma_align_half(base, k);
    vstd::arithmetic::power2::lemma_pow2_pos(k);
    vstd::arithmetic::power2::lemma_pow2_adds(k, 1);
    vstd::arithmetic::power2::lemma2_to64();
    let c = pow2(k) as int;
    let m = 2 * c;
    let i_loc = index - base;
    vstd::arithmetic::div_mod::lemma_fundamental_div_mod(base, m);
    vstd::arithmetic::div_mod::lemma_mod_multiples_vanish(base / m, i_loc, m);
    assert(m * (base / m) + i_loc == index as int);
    vstd::arithmetic::div_mod::lemma_small_mod(i_loc as nat, m as nat);
    assert((index as int) % m == i_loc);
    assert(pow2((k + 1) as nat) as int == m);
    assert(i_loc == (bit as int) * c + (index as int) % c);
    assert(0 <= (index as int) % c < c);
}

/// An aligned base for a node is aligned for its children as well.
pub proof fn lemma_align_half(base: int, k: nat)
    requires
        base >= 0,
        base % (pow2(k + 1) as int) == 0,
    ensures
        base % (pow2(k) as int) == 0,
        (base + pow2(k)) % (pow2(k) as int) == 0,
{
    vstd::arithmetic::power2::lemma_pow2_pos(k);
    vstd::arithmetic::power2::lemma_pow2_adds(k, 1);
    vstd::arithmetic::power2::lemma2_to64();
    let c = pow2(k) as int;
    let q = base / (2 * c);
    vstd::arithmetic::div_mod::lemma_fundamental_div_mod(base, 2 * c);
    assert(base == (2 * c) * q);
    assert(base == c * (2 * q)) by (nonlinear_arith)
        requires
            base == (2 * c) * q,
    ;
    vstd::arithmetic::div_mod::lemma_mod_multiples_basic(2 * q, c);
    vstd::arithmetic::div_mod::lemma_mod_multiples_basic(2 * q + 1, c);
    assert(c * (2 * q) + c == c * (2 * q + 1)) by (nonlinear_arith);
}

impl Tree {
    /// Create a new tree where the `index`th leaf slot is set to `new_value`.
    ///
    /// Allocates O(depth) fresh nodes along the path from the root to the
    /// affected leaf; all sibling children are shared by pointer with the
    /// original tree.  A `Zero` subtree met on the path is first split into a
    /// node of two zero halves.  Appending at `index == len` extends the list
    /// by one slot; all other positions must already lie below `len`.
    pub fn with_updated_leaf(
        &self,
        index: usize,
        new_value: u64,
        depth: usize,
        packing_depth: usize,
        Ghost(len): Ghost<int>,
        Ghost(base): Ghost<int>,
    ) -> (r: Result<Arc<Self>, Error>)
        requires
            self.wf(depth as nat, packing_depth as nat),
            packing_depth == 0 || packing_depth == PACKING_DEPTH,
            depth + packing_depth < 64,
            self.proper(depth as nat, packing_depth as nat, len, base),
            base % (capacity(depth as nat, packing_depth as nat) as int) == 0,
            0 <= base <= index,
            index <= len,
            index < base + capacity(depth as nat, packing_depth as nat),
        ensures
            match r {
                Ok(t) => {
                    &&& (*t).wf(depth as nat, packing_depth as nat)
                    &&& (*t).leaves(depth as nat, packing_depth as nat) == self.leaves(
                        depth as nat,
                        packing_depth as nat,
                    ).update(index - base, new_value)
                    &&& (*t).proper(
                        depth as nat,
                        packing_depth as nat,
                        if (index as int) < len {
                            len
                        } else {
                            len + 1
                        },
                        base,
                    )
                },
                Err(_) => false,
            },
        decreases depth, split_rank(*self),
    {
        let ghost d = depth as nat;
        let ghost pd = packing_depth as nat;
        let ghost newlen: int = if (index as int) < len {
            len
        } else {
            len + 1
        };
        proof {
            lemma_leaves_len(self, d, pd);
            vstd::arithmetic::power2::lemma_pow2_pos((d + pd) as nat);
        }
        match self {
            Tree::Leaf(_) if depth == 0 => {
                proof {
                    vstd::arithmetic::power2::lemma2_to64();
                }
                let t = Self::leaf(new_value);
                proof {
                    assert((*t).leaves(d, pd) =~= self.leaves(d, pd).update(
                        index - base,
                        new_value,
                    ));
                }
                Ok(t)
            },
            Tree::PackedLeaf(leaf) if depth == 0 => {
                proof {
                    vstd::arithmetic::power2::lemma2_to64();
                }
                match leaf.insert_at_index(index, new_value) {
                    Ok(l) => {
                        let t = Arc::new(Tree::PackedLeaf(l));
                        proof {
                            let i_loc = index - base;
                            assert(index % PACKING_FACTOR == i_loc) by {
                                vstd::arithmetic::div_mod::lemma_fundamental_div_mod(
                                    base,
                                    PACKING_FACTOR as int,
                                );
                                vstd::arithmetic::div_mod::lemma_mod_multiples_vanish(
                                    base / (PACKING_FACTOR as int),
                                    i_loc,
                                    PACKING_FACTOR as int,
                                );
                                vstd::arithmetic::div_mod::lemma_small_mod(
                                    i_loc as nat,
                                    PACKING_FACTOR as nat,
                                );
                            }
                            assert((*t).leaves(d, pd) =~= self.leaves(d, pd).update(
                                i_loc,
                                new_value,
                            ));
                        }
                        Ok(t)
                    },
                    Err(e) => {
                        proof {
                            let i_loc = index - base;
                            assert(index % PACKING_FACTOR == i_loc) by {
                                vstd::arithmetic::div_mod::lemma_fundamental_div_mod(
                                    base,
                                    PACKING_FACTOR as int,
                                );
                                vstd::arithmetic::div_mod::lemma_mod_multiples_vanish(
                                    base / (PACKING_FACTOR as int),
                                    i_loc,
                                    PACKING_FACTOR as int,
                                );
                                vstd::arithmetic::div_mod::lemma_small_mod(
                                    i_loc as nat,
                                    PACKING_FACTOR as nat,
                                );
                            }
                            assert(false);
                        }
                        Err(e)
                    },
                }
            },
            Tree::Node { left, right } if depth > 0 => {
                let new_depth = depth - 1;
                let bit = ((index as u64) >> ((new_depth + packing_depth) as u64)) & 1;
                let ghost k = (new_depth + packing_depth) as nat;
                let ghost half = pow2(k) as int;
                proof {
                    lemma_descend(index as u64, base, k, bit);
                    assert(capacity(d, pd) == 2 * pow2(k)) by {
                        vstd::arithmetic::power2::lemma_pow2_adds(k, 1);
                        vstd::arithmetic::power2::lemma2_to64();
                    }
                    lemma_leaves_len(&**left, (d - 1) as nat, pd);
                    lemma_leaves_len(&**right, (d - 1) as nat, pd);
                }
                if bit == 0 {
                    match left.with_updated_leaf(
                        index,
                        new_value,
                        new_depth,
                        packing_depth,
                        Ghost(len),
                        Ghost(base),
                    ) {
                        Ok(new_left) => {
                            let t = Self::node(new_left, right.clone());
                            proof {
                                assert((*t).leaves(d, pd) =~= self.leaves(d, pd).update(
                                    index - base,
                                    new_value,
                                ));
                                if newlen != len {
                                    // appending: the right half starts past the new length
                                    lemma_proper_zero_region(
                                        &**right,
                                        (d - 1) as nat,
                                        pd,
                                        len,
                                        base + half,
                                        newlen,
                                    );
                                }
                            }
                            Ok(t)
                        },
                        Err(e) => Err(e),
                    }
                } else {
                    match right.with_updated_leaf(
                        index,
                        new_value,
                        new_depth,
                        packing_depth,
                        Ghost(len),
                        Ghost(base + half),
                    ) {
                        Ok(new_right) => {
                            let t = Self::node(left.clone(), new_right);
                            proof {
                                assert((*t).leaves(d, pd) =~= self.leaves(d, pd).update(
                                    index - base,
                                    new_value,
                                ));
                                if newlen != len {
                                    // appending: the left half is completely filled
                                    lemma_proper_full_region(
                                        &**left,
                                        (d - 1) as nat,
                                        pd,
                                        len,
                                        base,
                                        newlen,
                                    );
                                }
                            }
                            Ok(t)
                        },
                        Err(e) => Err(e),
                    }
                }
            },
            Tree::Zero(zero_depth) if *zero_depth == depth => {
                if depth == 0 {
                    proof {
                        vstd::arithmetic::power2::lemma2_to64();
                    }
                    if packing_depth > 0 {
                        let t = Arc::new(Tree::PackedLeaf(PackedLeaf::single(new_value)));
                        proof {
                            assert((*t).leaves(d, pd) =~= self.leaves(d, pd).update(
                                index - base,
                                new_value,
                            ));
                        }
                        Ok(t)
                    } else {
                        let t = Self::leaf(new_value);
                        proof {
                            assert((*t).leaves(d, pd) =~= self.leaves(d, pd).update(
                                index - base,
                                new_value,
                            ));
                        }
                        Ok(t)
                    }
                } else {
                    // split the zero node into two zero halves and recurse
                    let new_zero = Self::zero(depth - 1);
                    let split = Self::node(new_zero.clone(), new_zero);
                    proof {
                        vstd::arithmetic::power2::lemma_pow2_pos(((d - 1) as nat + pd) as nat);
                        assert(capacity(d, pd) == 2 * capacity((d - 1) as nat, pd)) by {
                            vstd::arithmetic::power2::lemma_pow2_adds(((d - 1) as nat + pd) as nat, 1);
                            vstd::arithmetic::power2::lemma2_to64();
                        }
                        assert(*new_zero == Tree::Zero((depth - 1) as usize));
                        assert(Tree::Zero((depth - 1) as usize).wf((d - 1) as nat, pd));
                        assert(Tree::Zero((depth - 1) as usize).proper((d - 1) as nat, pd, len, base));
                        assert(Tree::Zero((depth - 1) as usize).proper(
                            (d - 1) as nat,
                            pd,
                            len,
                            base + capacity((d - 1) as nat, pd),
                        ));
                        assert((*split).wf(d, pd));
                        assert((*split).proper(d, pd, len, base));
                        lemma_leaves_len(&*split, d, pd);
                    }
                    match split.with_updated_leaf(
                        index,
                        new_value,
                        depth,
                        packing_depth,
                        Ghost(len),
                        Ghost(base),
                    ) {
                        Ok(t) => {
                            proof {
                                assert(Tree::Zero((depth - 1) as usize).leaves((d - 1) as nat, pd)
                                    == Seq::new(capacity((d - 1) as nat, pd), |i: int| 0u64));
                                assert((*split).leaves(d, pd) =~= self.leaves(d, pd));
                            }
                            Ok(t)
                        },
                        Err(e) => Err(e),
                    }
                }
            },
            _ => {
                proof {
                    assert(false);
                }
                Err(Error::UpdateLeafError)
            },
        }
    }
}

/// Splits a local index across one tree level: the tested bit selects the
/// half, and the index modulo the child capacity addresses within it.
pub proof fn lemma_child_index(index: u64, k: nat, bit: u64)
    requires
        k < 64,
        bit == (index >> (k as u64)) & 1,
    ensures
        bit == ((index as int) / (pow2(k) as int)) % 2,
        (index as int) % (pow2((k + 1) as nat) as int) == (bit as int) * (pow2(k) as int) + (
        index as int) % (pow2(k) as int),
        0 <= (index as int) % (pow2(k) as int) < pow2(k) as int,
        bit == 0 || bit == 1,
{
    vstd::bits::lemma_u64_pow2_no_overflow(k);
    vstd::arithmetic::power2::lemma_pow2_pos(k);
    vstd::bits::lemma_u64_shr_is_div(index, k as u64);
    assert(forall|x: u64| #[trigger] (x & 1u64) == x % 2) by (bit_vector);
    assert((index >> (k as u64)) as int == (index as int) / (pow2(k) as int));
    vstd::arithmetic::power2::lemma_pow2_adds(k, 1);
    vstd::arithmetic::power2::lemma2_to64();
    assert(pow2(k + 1) == pow2(k) * 2);
    vstd::arithmetic::div_mod::lemma_mod_breakdown(index as int, pow2(k) as int, 2);
    vstd::arithmetic::div_mod::lemma_mod_division_less_than_divisor(index as int, pow2(k) as int);
}

/// The contents of a subtree after a bulk update: pending values win over the
/// old leaves, slot by slot.
pub open spec fn fused_leaves(old: Seq<u64>, updates: MaxMap, prefix: int) -> Seq<u64> {
    Seq::new(
        old.len(),
        |i: int|
            if updates.has_key(prefix + i) {
                updates.spec_val(prefix + i)
            } else {
                old[i]
            },
    )
}

impl Tree {
    /// Apply a whole map of pending updates in one recursive rewrite.
    ///
    /// The tree is divided at each internal node into its two halves and the
    /// rewrite recurses only into halves that hold pending keys (found by the
    /// update map's ranged scan with early break); unaffected siblings are
    /// shared by pointer.  `new_len` is the list length after the update and
    /// every position below it must be covered by a pending key or an
    /// existing value.
    pub fn with_updated_leaves(
        &self,
        updates: &MaxMap,
        prefix: usize,
        depth: usize,
        packing_depth: usize,
        Ghost(new_len): Ghost<int>,
        Ghost(old_len): Ghost<int>,
    ) -> (r: Result<Arc<Self>, Error>)
        requires
            self.wf(depth as nat, packing_depth as nat),
            packing_depth == 0 || packing_depth == PACKING_DEPTH,
            depth + packing_depth < 64,
            self.proper(depth as nat, packing_depth as nat, old_len, prefix as int),
            old_len <= new_len,
            (prefix as int) % (capacity(depth as nat, packing_depth as nat) as int) == 0,
            (prefix as int) + (capacity(depth as nat, packing_depth as nat) as int) <= usize::MAX,
            forall|i: int|
                prefix <= i < prefix + capacity(depth as nat, packing_depth as nat) && i < new_len
                    ==> updates.has_key(i) || self.materialized(
                    depth as nat,
                    packing_depth as nat,
                    i - prefix,
                ),
            forall|k: int|
                prefix <= k < prefix + capacity(depth as nat, packing_depth as nat)
                    && #[trigger] updates.has_key(k) ==> k < new_len,
            exists|k: int|
                prefix <= k < prefix + capacity(depth as nat, packing_depth as nat)
                    && #[trigger] updates.has_key(k),
        ensures
            match r {
                Ok(t) => {
                    &&& (*t).wf(depth as nat, packing_depth as nat)
                    &&& (*t).proper(depth as nat, packing_depth as nat, new_len, prefix as int)
                    &&& (*t).leaves(depth as nat, packing_depth as nat) == fused_leaves(
                        self.leaves(depth as nat, packing_depth as nat),
                        *updates,
                        prefix as int,
                    )
                },
                Err(_) => false,
            },
        decreases depth, split_rank(*self),
    {
        let ghost d = depth as nat;
        let ghost pd = packing_depth as nat;
        proof {
            lemma_leaves_len(self, d, pd);
            vstd::arithmetic::power2::lemma_pow2_pos((d + pd) as nat);
        }
        match self {
            Tree::Leaf(_) if depth == 0 => {
                proof {
                    vstd::arithmetic::power2::lemma2_to64();
                }
                match updates.get(prefix) {
                    Some(value) => {
                        let t = Self::leaf(value);
                        proof {
                            assert((*t).leaves(d, pd) =~= fused_leaves(
                                self.leaves(d, pd),
                                *updates,
                                prefix as int,
                            ));
                        }
                        Ok(t)
                    },
                    None => {
                        proof {
                            assert(false);
                        }
                        Err(Error::LeafUpdateMissing { index: prefix })
                    },
                }
            },
            Tree::PackedLeaf(packed_leaf) if depth == 0 => {
                proof {
                    vstd::arithmetic::power2::lemma2_to64();
                }
                match packed_leaf.update(prefix, updates) {
                    Ok(l) => {
                        let t = Arc::new(Tree::PackedLeaf(l));
                        proof {
                            assert forall|i: int|
                                prefix <= i < prefix + PACKING_FACTOR && i < new_len implies
                                #[trigger] updates.has_key(i) || i - prefix
                                    < packed_leaf.values@.len() by {
                                assert(updates.has_key(i) || self.materialized(d, pd, i - prefix));
                            }
                            crate::packed_leaf::lemma_fill_bounds(
                                packed_leaf.values@.len() as int,
                                *updates,
                                prefix as int,
                                PACKING_FACTOR as int,
                            );
                            lemma_packed_arm(
                                packed_leaf.values@.len() as int,
                                &l,
                                updates,
                                prefix as int,
                                old_len,
                                new_len,
                            );
                            assert((*t).leaves(d, pd) =~= fused_leaves(
                                self.leaves(d, pd),
                                *updates,
                                prefix as int,
                            ));
                        }
                        Ok(t)
                    },
                    Err(e) => {
                        proof {
                            assert forall|i: int|
                                prefix <= i < prefix + PACKING_FACTOR && i < new_len implies
                                #[trigger] updates.has_key(i) || i - prefix
                                    < packed_leaf.values@.len() by {
                                assert(updates.has_key(i) || self.materialized(d, pd, i - prefix));
                            }
                            lemma_packed_ok(
                                packed_leaf.values@.len() as int,
                                updates,
                                prefix as int,
                                new_len,
                            );
                            assert(false);
                        }
                        Err(e)
                    },
                }
            },
            Tree::Node { left, right } if depth > 0 => {
                let new_depth = depth - 1;
                let ghost k = (new_depth + packing_depth) as nat;
                let half64 = pow2_u64(new_depth + packing_depth);
                proof {
                    assert(capacity(d, pd) == 2 * pow2(k)) by {
                        vstd::arithmetic::power2::lemma_pow2_adds(k, 1);
                        vstd::arithmetic::power2::lemma2_to64();
                    }
                    lemma_align_half(prefix as int, k);
                    lemma_leaves_len(&**left, (d - 1) as nat, pd);
                    lemma_leaves_len(&**right, (d - 1) as nat, pd);
                }
                let half = half64 as usize;
                let left_prefix = prefix;
                let right_prefix = prefix + half;
                let right_subtree_end = right_prefix + half;
                let has_left_updates = updates.has_key_in_range(left_prefix, right_prefix);
                let has_right_updates = updates.has_key_in_range(right_prefix, right_subtree_end);
                if !has_left_updates && !has_right_updates {
                    proof {
                        assert(false);
                    }
                    return Err(Error::NodeUpdatesMissing { prefix });
                }
                let new_left = if has_left_updates {
                    match left.with_updated_leaves(
                        updates,
                        left_prefix,
                        new_depth,
                        packing_depth,
                        Ghost(new_len),
                        Ghost(old_len),
                    ) {
                        Ok(t) => t,
                        Err(e) => {
                            return Err(e);
                        },
                    }
                } else {
                    proof {
                        lemma_proper_no_updates(
                            &**left,
                            (d - 1) as nat,
                            pd,
                            old_len,
                            new_len,
                            prefix as int,
                            updates,
                        );
                    }
                    left.clone()
                };
                let new_right = if has_right_updates {
                    match right.with_updated_leaves(
                        updates,
                        right_prefix,
                        new_depth,
                        packing_depth,
                        Ghost(new_len),
                        Ghost(old_len),
                    ) {
                        Ok(t) => t,
                        Err(e) => {
                            return Err(e);
                        },
                    }
                } else {
                    proof {
                        lemma_proper_no_updates(
                            &**right,
                            (d - 1) as nat,
                            pd,
                            old_len,
                            new_len,
                            (prefix + half) as int,
                            updates,
                        );
                    }
                    right.clone()
                };
                let t = Self::node(new_left, new_right);
                proof {
                    assert((*t).leaves(d, pd) =~= fused_leaves(
                        self.leaves(d, pd),
                        *updates,
                        prefix as int,
                    ));
                }
                Ok(t)
            },
            Tree::Zero(zero_depth) if *zero_depth == depth => {
                if depth == 0 {
                    proof {
                        vstd::arithmetic::power2::lemma2_to64();
                    }
                    if packing_depth > 0 {
                        let empty_leaf = PackedLeaf::empty();
                        match empty_leaf.update(prefix, updates) {
                            Ok(l) => {
                                let t = Arc::new(Tree::PackedLeaf(l));
                                proof {
                                    assert forall|i: int|
                                        prefix <= i < prefix + PACKING_FACTOR && i < new_len
                                        implies #[trigger] updates.has_key(i) by {
                                        assert(updates.has_key(i) || self.materialized(
                                            d,
                                            pd,
                                            i - prefix,
                                        ));
                                    }
                                    crate::packed_leaf::lemma_fill_bounds(
                                        0,
                                        *updates,
                                        prefix as int,
                                        PACKING_FACTOR as int,
                                    );
                                    lemma_packed_arm(
                                        0,
                                        &l,
                                        updates,
                                        prefix as int,
                                        new_len,
                                        new_len,
                                    );
                                    assert((*t).leaves(d, pd) =~= fused_leaves(
                                        self.leaves(d, pd),
                                        *updates,
                                        prefix as int,
                                    ));
                                }
                                Ok(t)
                            },
                            Err(e) => {
                                proof {
                                    assert forall|i: int|
                                        prefix <= i < prefix + PACKING_FACTOR && i < new_len
                                        implies #[trigger] updates.has_key(i) by {
                                        assert(updates.has_key(i) || self.materialized(
                                            d,
                                            pd,
                                            i - prefix,
                                        ));
                                    }
                                    lemma_packed_ok(0, updates, prefix as int, new_len);
                                    assert(false);
                                }
                                Err(e)
                            },
                        }
                    } else {
                        match updates.get(prefix) {
                            Some(value) => {
                                let t = Self::leaf(value);
                                proof {
                                    assert((*t).leaves(d, pd) =~= fused_leaves(
                                        self.leaves(d, pd),
                                        *updates,
                                        prefix as int,
                                    ));
                                }
                                Ok(t)
                            },
                            None => {
                                proof {
                                    assert(false);
                                }
                                Err(Error::LeafUpdateMissing { index: prefix })
                            },
                        }
                    }
                } else {
                    let new_zero = Self::zero(depth - 1);
                    let split = Self::node(new_zero.clone(), new_zero);
                    proof {
                        vstd::arithmetic::power2::lemma_pow2_pos(((d - 1) as nat + pd) as nat);
                        assert(capacity(d, pd) == 2 * capacity((d - 1) as nat, pd)) by {
                            vstd::arithmetic::power2::lemma_pow2_adds(
                                ((d - 1) as nat + pd) as nat,
                                1,
                            );
                            vstd::arithmetic::power2::lemma2_to64();
                        }
                        assert(*new_zero == Tree::Zero((depth - 1) as usize));
                        assert(Tree::Zero((depth - 1) as usize).wf((d - 1) as nat, pd));
                        assert(Tree::Zero((depth - 1) as usize).proper(
                            (d - 1) as nat,
                            pd,
                            old_len,
                            prefix as int,
                        ));
                        assert(Tree::Zero((depth - 1) as usize).proper(
                            (d - 1) as nat,
                            pd,
                            old_len,
                            prefix as int + capacity((d - 1) as nat, pd),
                        ));
                        assert((*split).wf(d, pd));
                        assert((*split).proper(d, pd, old_len, prefix as int));
                        lemma_leaves_len(&*split, d, pd);
                        assert(Tree::Zero((depth - 1) as usize).leaves((d - 1) as nat, pd)
                            == Seq::new(capacity((d - 1) as nat, pd), |i: int| 0u64));
                        assert((*split).leaves(d, pd) =~= self.leaves(d, pd));
                        assert forall|i: int|
                            prefix <= i < prefix + capacity(d, pd) && i < new_len implies
                            updates.has_key(i) || (*split).materialized(d, pd, i - prefix) by {
                            assert(updates.has_key(i) || self.materialized(d, pd, i - prefix));
                        }
                    }
                    match split.with_updated_leaves(
                        updates,
                        prefix,
                        depth,
                        packing_depth,
                        Ghost(new_len),
                        Ghost(old_len),
                    ) {
                        Ok(t) => Ok(t),
                        Err(e) => Err(e),
                    }
                }
            },
            _ => {
                proof {
                    assert(false);
                }
                Err(Error::UpdateLeavesError)
            },
        }
    }
}

/// In a covered range, bulk updates on a packed leaf cannot jump over an
/// unfilled slot.
pub proof fn lemma_packed_ok(len0: int, updates: &MaxMap, prefix: int, new_len: int)
    requires
        0 <= len0,
        forall|i: int|
            prefix <= i < prefix + PACKING_FACTOR && i < new_len ==> #[trigger] updates.has_key(i)
                || i - prefix < len0,
        forall|k: int|
            prefix <= k < prefix + PACKING_FACTOR && #[trigger] updates.has_key(k) ==> k < new_len,
    ensures
        packed_update_ok(len0, *updates, prefix),
{
    assert forall|j: int, m: int|
        len0 <= m < j < PACKING_FACTOR && #[trigger] updates.has_key(prefix + j)
            implies #[trigger] updates.has_key(prefix + m) by {
        assert(prefix + j < new_len);
        assert(updates.has_key(prefix + m) || m < len0);
    }
}

/// After a successful packed bulk update the leaf is filled to the covered
/// length, pending keys land below the fill, and the stretch between the old
/// and the new fill is entirely pending.
pub proof fn lemma_packed_arm(
    len0: int,
    new_leaf: &PackedLeaf,
    updates: &MaxMap,
    prefix: int,
    old_len: int,
    new_len: int,
)
    requires
        0 <= len0 <= PACKING_FACTOR,
        old_len <= new_len,
        len0 <= (if new_len - prefix < PACKING_FACTOR {
            new_len - prefix
        } else {
            PACKING_FACTOR as int
        }),
        packed_update_ok(len0, *updates, prefix),
        new_leaf.values@.len() as int == packed_update_fill(len0, *updates, prefix),
        forall|i: int|
            prefix <= i < prefix + PACKING_FACTOR && i < new_len ==> #[trigger] updates.has_key(i)
                || i - prefix < len0,
        forall|k: int|
            prefix <= k < prefix + PACKING_FACTOR && #[trigger] updates.has_key(k) ==> k < new_len,
    ensures
        new_leaf.values@.len() as int == (if new_len - prefix < PACKING_FACTOR {
            new_len - prefix
        } else {
            PACKING_FACTOR as int
        }),
        forall|i: int|
            new_leaf.values@.len() <= i < PACKING_FACTOR ==> !(#[trigger] updates.has_key(
                prefix + i,
            )),
        forall|i: int|
            len0 <= i < new_leaf.values@.len() ==> #[trigger] updates.has_key(prefix + i),
{
    let fill = crate::packed_leaf::packed_update_fill(len0, *updates, prefix);
    crate::packed_leaf::lemma_fill_bounds(len0, *updates, prefix, PACKING_FACTOR as int);
    let target = if new_len - prefix < PACKING_FACTOR {
        new_len - prefix
    } else {
        PACKING_FACTOR as int
    };
    if fill > len0 {
        lemma_fill_last_key(len0, updates, prefix, PACKING_FACTOR as int);
        assert(updates.has_key(prefix + (fill - 1)));
        assert(prefix + (fill - 1) < new_len);
    }
    assert(fill <= target);
    if fill < target {
        assert(updates.has_key(prefix + fill) || fill < len0);
        crate::packed_leaf::lemma_fill_covers(len0, *updates, prefix, fill);
        assert(false);
    }
    assert forall|i: int| fill <= i < PACKING_FACTOR implies !(#[trigger] updates.has_key(
        prefix + i,
    )) by {
        if updates.has_key(prefix + i) {
            crate::packed_leaf::lemma_fill_covers(len0, *updates, prefix, i);
        }
    }
    assert forall|i: int| len0 <= i < fill implies #[trigger] updates.has_key(prefix + i) by {
        assert(prefix + i < new_len);
        assert(updates.has_key(prefix + i) || i - prefix < len0 || true);
        assert(updates.has_key(prefix + i) || i < len0);
    }
}

/// When the fill grew past the old length, the slot just below it carries a
/// pending key.
pub proof fn lemma_fill_last_key(len0: int, updates: &MaxMap, prefix: int, j: int)
    requires
        0 <= len0,
        0 <= j,
        crate::packed_leaf::fill_upto(len0, *updates, prefix, j) > len0,
    ensures
        updates.has_key(prefix + (crate::packed_leaf::fill_upto(len0, *updates, prefix, j) - 1)),
    decreases j,
{
    if j > 0 {
        let below = crate::packed_leaf::fill_upto(len0, *updates, prefix, j - 1);
        if updates.has_key(prefix + (j - 1)) && j - 1 == below {
        } else {
            lemma_fill_last_key(len0, updates, prefix, j - 1);
        }
    }
}

impl Tree {
    /// Number of values stored in this subtree.
    pub open spec fn compute_len_spec(self) -> nat
        decreases self,
    {
        match self {
            Tree::Leaf(_) => 1,
            Tree::PackedLeaf(l) => l.values@.len(),
            Tree::Node { left, right } => (*left).compute_len_spec() + (*right).compute_len_spec(),
            Tree::Zero(_) => 0,
        }
    }
}

/// A proper subtree stores exactly the list positions of `[base, len)` that
/// fall inside it.
pub proof fn lemma_proper_compute_len(t: &Tree, depth: nat, pd: nat, len: int, base: int)
    requires
        t.wf(depth, pd),
        t.proper(depth, pd, len, base),
    ensures
        t.compute_len_spec() as int == if len <= base {
            0int
        } else if len >= base + capacity(depth, pd) {
            capacity(depth, pd) as int
        } else {
            len - base
        },
    decreases t,
{
    vstd::arithmetic::power2::lemma_pow2_pos((depth + pd) as nat);
    match t {
        Tree::Leaf(_) => {
            vstd::arithmetic::power2::lemma2_to64();
        },
        Tree::PackedLeaf(_) => {
            vstd::arithmetic::power2::lemma2_to64();
        },
        Tree::Zero(_) => {},
        Tree::Node { left, right } => {
            let half = capacity((depth - 1) as nat, pd) as int;
            assert(capacity(depth, pd) == 2 * half) by {
                vstd::arithmetic::power2::lemma_pow2_adds(((depth - 1) as nat + pd) as nat, 1);
                vstd::arithmetic::power2::lemma2_to64();
            }
            lemma_proper_compute_len(&**left, (depth - 1) as nat, pd, len, base);
            lemma_proper_compute_len(&**right, (depth - 1) as nat, pd, len, base + half);
        },
    }
}

/// The stored count never exceeds the capacity.
pub proof fn lemma_compute_len_le_cap(t: &Tree, depth: nat, pd: nat)
    requires
        t.wf(depth, pd),
    ensures
        t.compute_len_spec() <= capacity(depth, pd),
    decreases t,
{
    vstd::arithmetic::power2::lemma_pow2_pos((depth + pd) as nat);
    match t {
        Tree::Leaf(_) => {
            vstd::arithmetic::power2::lemma2_to64();
        },
        Tree::PackedLeaf(_) => {
            vstd::arithmetic::power2::lemma2_to64();
        },
        Tree::Zero(_) => {},
        Tree::Node { left, right } => {
            assert(capacity(depth, pd) == 2 * capacity((depth - 1) as nat, pd)) by {
                vstd::arithmetic::power2::lemma_pow2_adds(((depth - 1) as nat + pd) as nat, 1);
                vstd::arithmetic::power2::lemma2_to64();
            }
            lemma_compute_len_le_cap(&**left, (depth - 1) as nat, pd);
            lemma_compute_len_le_cap(&**right, (depth - 1) as nat, pd);
        },
    }
}

impl Tree {
    /// Compute the number of elements stored in this subtree.
    ///
    /// O(n) recursive count; prefer the length cached in a `List` where one
    /// is available.
    pub fn compute_len(&self, Ghost(depth): Ghost<nat>, Ghost(packing_depth): Ghost<nat>) -> (r:
        usize)
        requires
            self.wf(depth, packing_depth),
            capacity(depth, packing_depth) <= usize::MAX,
        ensures
            r == self.compute_len_spec(),
        decreases *self,
    {
        match self {
            Tree::Leaf(_) => 1,
            Tree::PackedLeaf(leaf) => leaf.values.len(),
            Tree::Node { left, right } => {
                proof {
                    assert(capacity(depth, packing_depth) == 2 * capacity(
                        (depth - 1) as nat,
                        packing_depth,
                    )) by {
                        vstd::arithmetic::power2::lemma_pow2_adds(
                            ((depth - 1) as nat + packing_depth) as nat,
                            1,
                        );
                        vstd::arithmetic::power2::lemma2_to64();
                    }
                    lemma_compute_len_le_cap(&**left, (depth - 1) as nat, packing_depth);
                    lemma_compute_len_le_cap(&**right, (depth - 1) as nat, packing_depth);
                }
                let a = left.compute_len(Ghost((depth - 1) as nat), Ghost(packing_depth));
                let b = right.compute_len(Ghost((depth - 1) as nat), Ghost(packing_depth));
                a + b
            },
            Tree::Zero(_) => 0,
        }
    }

    /// The Merkle root of this subtree, computed recursively.
    pub fn tree_hash(&self, Ghost(depth): Ghost<nat>, Ghost(packing_depth): Ghost<nat>) -> (r:
        Hash256)
        requires
            self.wf(depth, packing_depth),
            depth <= 64,
        ensures
            r.wf(),
            r@ == self.hash_spec(depth, packing_depth),
        decreases *self,
    {
        match self {
            Tree::Leaf(leaf) => {
                let mut values: Vec<u64> = Vec::new();
                values.push(leaf.value);
                proof {
                    assert(values@ =~= seq![leaf.value]);
                }
                crate::hashing::pack_chunk(&values)
            },
            Tree::PackedLeaf(leaf) => leaf.tree_hash(),
            Tree::Zero(d) => zero_hash(*d),
            Tree::Node { left, right } => {
                let left_hash = left.tree_hash(Ghost((depth - 1) as nat), Ghost(packing_depth));
                let right_hash = right.tree_hash(Ghost((depth - 1) as nat), Ghost(packing_depth));
                hash_concat(&left_hash, &right_hash)
            },
        }
    }
}

/// Structural equality of two trees: same shapes, same stored values.
pub open spec fn equivalent(a: Tree, b: Tree) -> bool
    decreases a,
{
    match (a, b) {
        (Tree::Leaf(l1), Tree::Leaf(l2)) => l1.value == l2.value,
        (Tree::PackedLeaf(p1), Tree::PackedLeaf(p2)) => p1.values@ == p2.values@,
        (Tree::Node { left: l1, right: r1 }, Tree::Node { left: l2, right: r2 }) => equivalent(
            *l1,
            *l2,
        ) && equivalent(*r1, *r2),
        (Tree::Zero(d1), Tree::Zero(d2)) => d1 == d2,
        _ => false,
    }
}

pub proof fn lemma_equivalent_refl(a: &Tree)
    ensures
        equivalent(*a, *a),
    decreases a,
{
    match a {
        Tree::Node { left, right } => {
            lemma_equivalent_refl(&**left);
            lemma_equivalent_refl(&**right);
        },
        _ => {},
    }
}

pub proof fn lemma_equivalent_sym(a: &Tree, b: &Tree)
    requires
        equivalent(*a, *b),
    ensures
        equivalent(*b, *a),
    decreases a,
{
    match (a, b) {
        (Tree::Node { left: l1, right: r1 }, Tree::Node { left: l2, right: r2 }) => {
            lemma_equivalent_sym(&**l1, &**l2);
            lemma_equivalent_sym(&**r1, &**r2);
        },
        _ => {},
    }
}

/// Structurally equal trees agree on every observation the library makes:
/// well-formedness, density, stored leaves, count and root hash.
pub proof fn lemma_equivalent_props(a: &Tree, b: &Tree, depth: nat, pd: nat, len: int, base: int)
    requires
        equivalent(*a, *b),
    ensures
        a.wf(depth, pd) == b.wf(depth, pd),
        a.leaves(depth, pd) == b.leaves(depth, pd),
        a.proper(depth, pd, len, base) == b.proper(depth, pd, len, base),
        a.compute_len_spec() == b.compute_len_spec(),
        a.hash_spec(depth, pd) == b.hash_spec(depth, pd),
    decreases a,
{
    match (a, b) {
        (Tree::Node { left: l1, right: r1 }, Tree::Node { left: l2, right: r2 }) => {
            lemma_equivalent_props(&**l1, &**l2, (depth - 1) as nat, pd, len, base);
            lemma_equivalent_props(
                &**r1,
                &**r2,
                (depth - 1) as nat,
                pd,
                len,
                base + capacity((depth - 1) as nat, pd),
            );
        },
        (Tree::PackedLeaf(p1), Tree::PackedLeaf(p2)) => {
            assert(a.leaves(depth, pd) =~= b.leaves(depth, pd));
        },
        _ => {},
    }
}

/// Outcome of rebasing one subtree on another.
pub enum RebaseAction {
    /// Not equal and no changes in parent nodes required.
    NotEqualNoop,
    /// Not equal, but the rebased node should be replaced by the given node.
    NotEqualReplace(Arc<Tree>),
    /// Nodes are already pointer-equal.
    EqualNoop,
    /// Nodes are structurally equal and the rebased node should adopt the
    /// given (base) node.
    EqualReplace(Arc<Tree>),
}

/// Relies on `std::sync::Arc::ptr_eq`: two handles into the same allocation
/// necessarily hold the same value.
#[verifier::external_body]
fn arc_ptr_eq(a: &Arc<Tree>, b: &Arc<Tree>) -> (r: bool)
    ensures
        r ==> **a == **b,
{
    Arc::ptr_eq(a, b)
}

/// Compare two value vectors element by element.
pub fn values_eq(a: &Vec<u64>, b: &Vec<u64>) -> (r: bool)
    ensures
        r == (a@ == b@),
{
    if a.len() != b.len() {
        proof {
            assert(a@.len() != b@.len());
        }
        return false;
    }
    let mut i: usize = 0;
    while i < a.len()
        invariant
            a@.len() == b@.len(),
            i <= a@.len(),
            forall|j: int| 0 <= j < i ==> a@[j] == b@[j],
        decreases a@.len() - i,
    {
        if a[i] != b[i] {
            return false;
        }
        i = i + 1;
    }
    proof {
        assert(a@ =~= b@);
    }
    true
}

impl Tree {
    /// Rewrite `orig` so that it shares as many subtrees as possible with
    /// `base`, without changing its contents.
    ///
    /// Pointer-equal handles short-circuit; structurally equal subtrees adopt
    /// `base`'s pointer; where the two differ, a fresh node is built that
    /// keeps `orig`'s values while adopting every `base` subtree that matches.
    pub fn rebase_on(
        orig: &Arc<Self>,
        base: &Arc<Self>,
        full_depth: usize,
        Ghost(depth): Ghost<nat>,
        Ghost(packing_depth): Ghost<nat>,
    ) -> (r: Result<RebaseAction, Error>)
        requires
            (**orig).wf(depth, packing_depth),
            (**base).wf(depth, packing_depth),
            full_depth == depth + packing_depth,
        ensures
            match r {
                Ok(action) => match action {
                    RebaseAction::EqualNoop => equivalent(**orig, **base),
                    RebaseAction::EqualReplace(t) => *t == **base && equivalent(**orig, **base),
                    RebaseAction::NotEqualNoop => !equivalent(**orig, **base),
                    RebaseAction::NotEqualReplace(t) => equivalent(*t, **orig),
                },
                Err(_) => false,
            },
        decreases depth,
    {
        if arc_ptr_eq(orig, base) {
            proof {
                lemma_equivalent_refl(&**orig);
            }
            return Ok(RebaseAction::EqualNoop);
        }
        match (&**orig, &**base) {
            (Tree::Leaf(l1), Tree::Leaf(l2)) => {
                if l1.value == l2.value {
                    Ok(RebaseAction::EqualReplace(base.clone()))
                } else {
                    Ok(RebaseAction::NotEqualNoop)
                }
            },
            (Tree::PackedLeaf(l1), Tree::PackedLeaf(l2)) => {
                if values_eq(&l1.values, &l2.values) {
                    Ok(RebaseAction::EqualReplace(base.clone()))
                } else {
                    Ok(RebaseAction::NotEqualNoop)
                }
            },
            (Tree::Zero(z1), Tree::Zero(z2)) => {
                if *z1 == *z2 {
                    Ok(RebaseAction::EqualReplace(base.clone()))
                } else {
                    proof {
                        assert(false);
                    }
                    Ok(RebaseAction::NotEqualNoop)
                }
            },
            (
                Tree::Node { left: l1, right: r1 },
                Tree::Node { left: l2, right: r2 },
            ) if full_depth > 0 => {
                let new_full_depth = full_depth - 1;
                let left_action = match Tree::rebase_on(
                    l1,
                    l2,
                    new_full_depth,
                    Ghost((depth - 1) as nat),
                    Ghost(packing_depth),
                ) {
                    Ok(action) => action,
                    Err(e) => {
                        return Err(e);
                    },
                };
                let right_action = match Tree::rebase_on(
                    r1,
                    r2,
                    new_full_depth,
                    Ghost((depth - 1) as nat),
                    Ghost(packing_depth),
                ) {
                    Ok(action) => action,
                    Err(e) => {
                        return Err(e);
                    },
                };
                proof {
                    lemma_equivalent_refl(&**l1);
                    lemma_equivalent_refl(&**r1);
                }
                match (left_action, right_action) {
                    (RebaseAction::NotEqualNoop, RebaseAction::NotEqualNoop)
                    | (RebaseAction::NotEqualNoop, RebaseAction::EqualNoop)
                    | (RebaseAction::EqualNoop, RebaseAction::NotEqualNoop) => Ok(
                        RebaseAction::NotEqualNoop,
                    ),
                    (RebaseAction::EqualNoop, RebaseAction::EqualNoop) => Ok(
                        RebaseAction::EqualNoop,
                    ),
                    (
                        RebaseAction::NotEqualNoop | RebaseAction::EqualNoop,
                        RebaseAction::NotEqualReplace(new_right),
                    ) => Ok(
                        RebaseAction::NotEqualReplace(Self::node(l1.clone(), new_right)),
                    ),
                    (
                        RebaseAction::NotEqualNoop | RebaseAction::EqualNoop,
                        RebaseAction::EqualReplace(new_right),
                    ) => {
                        proof {
                            lemma_equivalent_sym(&**r1, &*new_right);
                        }
                        Ok(RebaseAction::NotEqualReplace(Self::node(l1.clone(), new_right)))
                    },
                    (RebaseAction::NotEqualReplace(new_left), RebaseAction::NotEqualNoop
                    | RebaseAction::EqualNoop) => Ok(
                        RebaseAction::NotEqualReplace(Self::node(new_left, r1.clone())),
                    ),
                    (
                        RebaseAction::NotEqualReplace(new_left),
                        RebaseAction::NotEqualReplace(new_right),
                    ) => Ok(RebaseAction::NotEqualReplace(Self::node(new_left, new_right))),
                    (
                        RebaseAction::NotEqualReplace(new_left),
                        RebaseAction::EqualReplace(new_right),
                    ) => {
                        proof {
                            lemma_equivalent_sym(&**r1, &*new_right);
                        }
                        Ok(RebaseAction::NotEqualReplace(Self::node(new_left, new_right)))
                    },
                    (RebaseAction::EqualReplace(new_left), RebaseAction::NotEqualNoop) => {
                        proof {
                            lemma_equivalent_sym(&**l1, &*new_left);
                        }
                        Ok(RebaseAction::NotEqualReplace(Self::node(new_left, r1.clone())))
                    },
                    (
                        RebaseAction::EqualReplace(new_left),
                        RebaseAction::NotEqualReplace(new_right),
                    ) => {
                        proof {
                            lemma_equivalent_sym(&**l1, &*new_left);
                        }
                        Ok(RebaseAction::NotEqualReplace(Self::node(new_left, new_right)))
                    },
                    (RebaseAction::EqualReplace(_), RebaseAction::EqualReplace(_))
                    | (RebaseAction::EqualReplace(_), RebaseAction::EqualNoop) => Ok(
                        RebaseAction::EqualReplace(base.clone()),
                    ),
                }
            },
            (Tree::Zero(_), _) | (_, Tree::Zero(_)) => Ok(RebaseAction::NotEqualNoop),
            (Tree::Node { .. }, Tree::Node { .. }) => {
                proof {
                    assert(false);
                }
                Err(Error::InvalidRebaseNode)
            },
            _ => {
                proof {
                    assert(false);
                }
                Err(Error::InvalidRebaseLeaf)
            },
        }
    }
}

/// Outcome of deduplicating a subtree against the table of already-seen
/// subtrees.
pub enum IntraRebaseAction {
    Noop,
    Replace(Arc<Tree>),
}

/// Validity of the intra-rebase memo table: each entry records a well-formed
/// subtree together with its depth and its root hash.
pub open spec fn table_ok(table: Seq<(usize, Hash256, Arc<Tree>)>, pd: nat) -> bool {
    forall|j: int|
        0 <= j < table.len() ==> {
            &&& (#[trigger] table[j]).1.wf()
            &&& (*table[j].2).wf(table[j].0 as nat, pd)
            &&& table[j].1@ == (*table[j].2).hash_spec(table[j].0 as nat, pd)
        }
}

/// Linear lookup of a `(depth, hash)` key in the memo table.
fn lookup_known(table: &Vec<(usize, Hash256, Arc<Tree>)>, depth: usize, hash: &Hash256) -> (r:
    Option<Arc<Tree>>)
    requires
        hash.wf(),
        forall|j: int| 0 <= j < table@.len() ==> (#[trigger] table@[j]).1.wf(),
    ensures
        match r {
            Some(t) => exists|j: int|
                0 <= j < table@.len() && (#[trigger] table@[j]).0 == depth && table@[j].1@ == hash@
                    && table@[j].2 == t,
            None => true,
        },
{
    let mut j: usize = 0;
    while j < table.len()
        invariant
            hash.wf(),
            j <= table@.len(),
            forall|m: int| 0 <= m < table@.len() ==> (#[trigger] table@[m]).1.wf(),
        decreases table@.len() - j,
    {
        let entry = &table[j];
        if entry.0 == depth && entry.1.eq_hash(hash) {
            return Some(entry.2.clone());
        }
        j = j + 1;
    }
    None
}

impl Tree {
    /// Deduplicate repeated subtrees within a single tree.
    ///
    /// A table maps each `(depth, root hash)` pair seen during the walk to
    /// the first subtree carrying it; later occurrences are rewritten to
    /// share that subtree's pointer.  The rewrite provably preserves the root
    /// hash; that it preserves the contents rests on SHA-256 being collision
    /// free, which is beyond what the contract states.
    pub fn intra_rebase(
        orig: &Arc<Self>,
        known_subtrees: &mut Vec<(usize, Hash256, Arc<Tree>)>,
        current_depth: usize,
        Ghost(pd): Ghost<nat>,
    ) -> (r: Result<IntraRebaseAction, Error>)
        requires
            (**orig).wf(current_depth as nat, pd),
            current_depth <= 64,
            table_ok(old(known_subtrees)@, pd),
        ensures
            table_ok(final(known_subtrees)@, pd),
            match r {
                Ok(action) => match action {
                    IntraRebaseAction::Noop => true,
                    IntraRebaseAction::Replace(t) => (*t).wf(current_depth as nat, pd) && (
                    *t).hash_spec(current_depth as nat, pd) == (**orig).hash_spec(
                        current_depth as nat,
                        pd,
                    ),
                },
                Err(_) => false,
            },
        decreases current_depth,
    {
        match &**orig {
            Tree::Leaf(_) | Tree::PackedLeaf(_) | Tree::Zero(_) => Ok(IntraRebaseAction::Noop),
            Tree::Node { left, right } => {
                proof {
                    assert(current_depth > 0);
                }
                let hash = orig.tree_hash(Ghost(current_depth as nat), Ghost(pd));
                match lookup_known(known_subtrees, current_depth, &hash) {
                    Some(known_subtree) => {
                        // the subtree is known from elsewhere in the tree
                        return Ok(IntraRebaseAction::Replace(known_subtree));
                    },
                    None => {},
                }
                let left_action = match Self::intra_rebase(
                    left,
                    known_subtrees,
                    current_depth - 1,
                    Ghost(pd),
                ) {
                    Ok(action) => action,
                    Err(e) => {
                        return Err(e);
                    },
                };
                let right_action = match Self::intra_rebase(
                    right,
                    known_subtrees,
                    current_depth - 1,
                    Ghost(pd),
                ) {
                    Ok(action) => action,
                    Err(e) => {
                        return Err(e);
                    },
                };
                let action = match (left_action, right_action) {
                    (IntraRebaseAction::Noop, IntraRebaseAction::Noop) => IntraRebaseAction::Noop,
                    (IntraRebaseAction::Noop, IntraRebaseAction::Replace(new_right)) => {
                        IntraRebaseAction::Replace(Self::node(left.clone(), new_right))
                    },
                    (IntraRebaseAction::Replace(new_left), IntraRebaseAction::Noop) => {
                        IntraRebaseAction::Replace(Self::node(new_left, right.clone()))
                    },
                    (
                        IntraRebaseAction::Replace(new_left),
                        IntraRebaseAction::Replace(new_right),
                    ) => IntraRebaseAction::Replace(Self::node(new_left, new_right)),
                };
                // record this node under its hash for later occurrences
                match &action {
                    IntraRebaseAction::Noop => {
                        known_subtrees.push((current_depth, hash, orig.clone()));
                    },
                    IntraRebaseAction::Replace(new) => {
                        known_subtrees.push((current_depth, hash, new.clone()));
                    },
                }
                Ok(action)
            },
        }
    }
}

} // verus!