//! Length-bounded list façade over the staged-update interface.

use vstd::prelude::*;

use crate::builder::Builder;
use crate::error::Error;
use crate::hashing::{mix_in_length, mix_in_length_spec, Hash256};
use crate::interface::Interface;
use crate::iter::Iter;
use crate::level_iter::{arcs_eq, level_nodes_of};
use crate::tree::{
    capacity, equivalent, lemma_equivalent_props, lemma_leaves_len, pow2_u64, RebaseAction, Tree,
};
use crate::utils::{int_log, Length};
use crate::{MAX_TREE_DEPTH, PACKING_DEPTH, PACKING_FACTOR};
use std::sync::Arc;
use vstd::arithmetic::power2::pow2;

verus! {

/// A list holding up to `max` values, backed by a persistent Merkle tree
/// with a buffer of pending writes.
#[derive(Debug)]
pub struct List {
    pub interface: Interface,
}

impl View for List {
    type V = Seq<u64>;

    open spec fn view(&self) -> Seq<u64> {
        self.interface.view()
    }
}

/// A usable tree geometry for a bound of `max` values.
pub open spec fn depth_ok(depth: usize, max: usize) -> bool {
    &&& depth + PACKING_DEPTH <= MAX_TREE_DEPTH
    &&& max as int <= capacity(depth as nat, PACKING_DEPTH as nat) as int
    &&& capacity(depth as nat, PACKING_DEPTH as nat) <= usize::MAX
}

/// Whether some tree geometry can serve a bound of `max` values on this
/// machine: the needed capacity fits both the maximum tree depth and the
/// machine's word size.  Construction fails only on bounds outside this.
pub open spec fn depth_feasible(max: usize) -> bool {
    &&& max as int <= pow2(MAX_TREE_DEPTH as nat)
    &&& pow2(MAX_TREE_DEPTH as nat) <= usize::MAX as int
}

/// The canonical depth for a bound: usable, and (above the floor) one level
/// shallower could not hold `max` values.
pub open spec fn canonical_depth(depth: usize, max: usize) -> bool {
    &&& depth_ok(depth, max)
    &&& depth > 0 ==> (capacity((depth - 1) as nat, PACKING_DEPTH as nat) as int) < max
}

/// The canonical depth of a bound is unique, so any two lists built for the
/// same bound share a tree geometry.
pub proof fn lemma_canonical_depth_unique(d1: usize, d2: usize, max: usize)
    requires
        canonical_depth(d1, max),
        canonical_depth(d2, max),
    ensures
        d1 == d2,
{
    if d1 < d2 {
        if d1 < d2 - 1 {
            vstd::arithmetic::power2::lemma_pow2_strictly_increases(
                (d1 + PACKING_DEPTH) as nat,
                ((d2 - 1) as nat + PACKING_DEPTH) as nat,
            );
        }
        assert(capacity(d1 as nat, PACKING_DEPTH as nat) <= capacity(
            (d2 - 1) as nat,
            PACKING_DEPTH as nat,
        ));
        assert(false);
    }
    if d2 < d1 {
        if d2 < d1 - 1 {
            vstd::arithmetic::power2::lemma_pow2_strictly_increases(
                (d2 + PACKING_DEPTH) as nat,
                ((d1 - 1) as nat + PACKING_DEPTH) as nat,
            );
        }
        assert(capacity(d2 as nat, PACKING_DEPTH as nat) <= capacity(
            (d1 - 1) as nat,
            PACKING_DEPTH as nat,
        ));
        assert(false);
    }
}

impl List {
    pub open spec fn wf(&self) -> bool {
        self.interface.wf()
    }

    pub open spec fn spec_max(&self) -> usize {
        self.interface.max
    }

    /// The tree depth used for a bound of `max` values, when one exists.
    ///
    /// Fails only when the bound needs a tree deeper than the maximum, or a
    /// capacity beyond the machine's word size.
    pub fn compute_depth(max: usize) -> (r: Result<usize, Error>)
        ensures
            match r {
                Ok(depth) => canonical_depth(depth, max),
                Err(e) => {
                    &&& e matches Error::BuilderInvalidDepth { .. }
                    &&& !depth_feasible(max)
                },
            },
    {
        let raw = int_log(max);
        let depth = if raw >= PACKING_DEPTH {
            raw - PACKING_DEPTH
        } else {
            0
        };
        if depth > MAX_TREE_DEPTH - PACKING_DEPTH {
            proof {
                if raw - 1 > MAX_TREE_DEPTH {
                    vstd::arithmetic::power2::lemma_pow2_strictly_increases(
                        MAX_TREE_DEPTH as nat,
                        (raw - 1) as nat,
                    );
                }
                assert(pow2(MAX_TREE_DEPTH as nat) <= pow2((raw - 1) as nat));
            }
            return Err(Error::BuilderInvalidDepth { depth });
        }
        let cap = pow2_u64(depth + PACKING_DEPTH);
        if cap > (usize::MAX as u64) {
            proof {
                if (depth + PACKING_DEPTH) < MAX_TREE_DEPTH {
                    vstd::arithmetic::power2::lemma_pow2_strictly_increases(
                        (depth + PACKING_DEPTH) as nat,
                        MAX_TREE_DEPTH as nat,
                    );
                }
                assert(pow2((depth + PACKING_DEPTH) as nat) <= pow2(MAX_TREE_DEPTH as nat));
                assert(pow2(MAX_TREE_DEPTH as nat) > usize::MAX);
            }
            return Err(Error::BuilderInvalidDepth { depth });
        }
        proof {
            if raw >= PACKING_DEPTH {
                vstd::arithmetic::power2::lemma_pow2_adds(
                    (raw - PACKING_DEPTH) as nat,
                    PACKING_DEPTH as nat,
                );
            } else {
                vstd::arithmetic::power2::lemma2_to64();
                vstd::arithmetic::power2::lemma_pow2_strictly_increases(
                    raw as nat,
                    PACKING_DEPTH as nat,
                );
            }
            if depth > 0 {
                // one level shallower would hold fewer than max values
                assert(((depth - 1) as nat + PACKING_DEPTH as nat) == (raw - 1) as nat);
                assert(capacity((depth - 1) as nat, PACKING_DEPTH as nat) == pow2((raw - 1) as nat));
            }
        }
        Ok(depth)
    }

    /// Assemble a list from a finished backing tree.
    pub fn from_parts(tree: Arc<Tree>, depth: usize, length: Length, max: usize) -> (r: List)
        requires
            (*tree).wf(depth as nat, PACKING_DEPTH as nat),
            (*tree).proper(depth as nat, PACKING_DEPTH as nat, length.0 as int, 0),
            depth_ok(depth, max),
            length.0 <= max,
        ensures
            r.wf(),
            r.spec_max() == max,
            r.interface.depth == depth,
            r.interface.tree == tree,
            r.interface.updates.is_empty_spec(),
            r@ == (*tree).leaves(depth as nat, PACKING_DEPTH as nat).subrange(0, length.0 as int),
    {
        List { interface: Interface::new(tree, length, depth, max) }
    }

    /// The empty list.
    pub fn empty(max: usize) -> (r: Result<List, Error>)
        ensures
            match r {
                Ok(l) => {
                    &&& l.wf()
                    &&& l.spec_max() == max
                    &&& l@ == Seq::<u64>::empty()
                    &&& l.interface.updates.is_empty_spec()
                    &&& canonical_depth(l.interface.depth, max)
                },
                Err(e) => e matches Error::BuilderInvalidDepth { .. } && !depth_feasible(max),
            },
    {
        let depth = match Self::compute_depth(max) {
            Ok(depth) => depth,
            Err(e) => {
                return Err(e);
            },
        };
        let tree = Tree::empty(depth);
        let r = Self::from_parts(tree, depth, Length(0), max);
        proof {
            assert(r@ =~= Seq::<u64>::empty());
        }
        Ok(r)
    }

    /// Build a list of the given tree depth from a vector of values.
    fn from_values(depth: usize, max: usize, values: &Vec<u64>) -> (r: Result<List, Error>)
        requires
            depth_ok(depth, max),
        ensures
            match r {
                Ok(l) => {
                    &&& values@.len() <= max
                    &&& l.wf()
                    &&& l.spec_max() == max
                    &&& l.interface.depth == depth
                    &&& l@ == values@
                    &&& l.interface.updates.is_empty_spec()
                },
                Err(e) => {
                    &&& e == Error::BuilderFull
                    &&& values@.len() > max
                },
            },
    {
        let mut builder = match Builder::new(depth, 0) {
            Ok(b) => b,
            Err(e) => {
                proof {
                    assert(false);
                }
                return Err(Error::BuilderFull);
            },
        };
        let mut i: usize = 0;
        proof {
            assert(builder.vals@ =~= values@.take(0));
        }
        while i < values.len()
            invariant
                i <= values@.len(),
                builder.inv(),
                builder.value_pushable(),
                builder.length.0 % PACKING_FACTOR == 0 ==> builder.node_pushable(),
                builder.depth == depth,
                builder.vals@ == values@.take(i as int),
                builder.length.0 == i,
                depth_ok(depth, max),
            decreases values@.len() - i,
        {
            match builder.push(values[i]) {
                Ok(()) => {},
                Err(_) => {
                    proof {
                        vstd::arithmetic::power2::lemma_pow2_pos(
                            (depth as nat + PACKING_DEPTH as nat) as nat,
                        );
                    }
                    return Err(Error::BuilderFull);
                },
            }
            proof {
                assert(builder.vals@ =~= values@.take(i + 1));
            }
            i = i + 1;
        }
        let (tree, _final_depth, length) = match builder.finish() {
            Ok(t) => t,
            Err(e) => {
                proof {
                    assert(false);
                }
                return Err(e);
            },
        };
        if length.as_usize() > max {
            return Err(Error::BuilderFull);
        }
        let r = Self::from_parts(tree, depth, length, max);
        proof {
            assert(values@.take(values@.len() as int) =~= values@);
            assert(r@ == values@);
        }
        Ok(r)
    }

    /// Build a list from a vector of values in one O(n) pass.
    pub fn try_from_iter(max: usize, values: &Vec<u64>) -> (r: Result<List, Error>)
        ensures
            match r {
                Ok(l) => {
                    &&& values@.len() <= max
                    &&& l.wf()
                    &&& l.spec_max() == max
                    &&& l@ == values@
                    &&& l.interface.updates.is_empty_spec()
                    &&& canonical_depth(l.interface.depth, max)
                },
                Err(e) => {
                    ||| (e == Error::BuilderFull && values@.len() > max)
                    ||| (e matches Error::BuilderInvalidDepth { .. } && !depth_feasible(max))
                },
            },
    {
        let depth = match Self::compute_depth(max) {
            Ok(depth) => depth,
            Err(e) => {
                return Err(e);
            },
        };
        Self::from_values(depth, max, values)
    }

    /// Build a list by pushing the values one at a time and applying the
    /// buffered writes.
    pub fn try_from_iter_slow(max: usize, values: &Vec<u64>) -> (r: Result<List, Error>)
        ensures
            match r {
                Ok(l) => {
                    &&& values@.len() <= max
                    &&& l.wf()
                    &&& l.spec_max() == max
                    &&& l@ == values@
                    &&& l.interface.updates.is_empty_spec()
                    &&& canonical_depth(l.interface.depth, max)
                },
                Err(e) => {
                    ||| (e == Error::ListFull { len: max } && values@.len() > max)
                    ||| (e matches Error::BuilderInvalidDepth { .. } && !depth_feasible(max))
                },
            },
    {
        let mut list = match Self::empty(max) {
            Ok(l) => l,
            Err(e) => {
                return Err(e);
            },
        };
        let mut i: usize = 0;
        while i < values.len()
            invariant
                i <= values@.len(),
                list.wf(),
                list.spec_max() == max,
                list@ == values@.take(i as int),
                canonical_depth(list.interface.depth, max),
            decreases values@.len() - i,
        {
            match list.push(values[i]) {
                Ok(()) => {},
                Err(e) => {
                    return Err(e);
                },
            }
            proof {
                assert(list@ =~= values@.take(i + 1));
            }
            i = i + 1;
        }
        match list.apply_updates() {
            Ok(()) => {},
            Err(e) => {
                return Err(e);
            },
        }
        proof {
            assert(values@.take(values@.len() as int) =~= values@);
        }
        Ok(list)
    }

    /// Build a list from a vector of values.
    pub fn new(max: usize, vec: Vec<u64>) -> (r: Result<List, Error>)
        ensures
            match r {
                Ok(l) => {
                    &&& vec@.len() <= max
                    &&& l.wf()
                    &&& l.spec_max() == max
                    &&& l@ == vec@
                    &&& l.interface.updates.is_empty_spec()
                    &&& canonical_depth(l.interface.depth, max)
                },
                Err(e) => {
                    ||| (e == Error::BuilderFull && vec@.len() > max)
                    ||| (e matches Error::BuilderInvalidDepth { .. } && !depth_feasible(max))
                },
            },
    {
        Self::try_from_iter(max, &vec)
    }

    pub fn get(&self, index: usize) -> (r: Option<u64>)
        requires
            self.wf(),
        ensures
            r == if (index as int) < self@.len() {
                Some(self@[index as int])
            } else {
                Option::<u64>::None
            },
    {
        self.interface.get(index)
    }

    /// Buffer a write to an existing position.
    pub fn set(&mut self, index: usize, value: u64) -> (r: Result<(), Error>)
        requires
            old(self).wf(),
        ensures
            final(self).wf(),
            final(self).spec_max() == old(self).spec_max(),
            final(self).interface.tree == old(self).interface.tree,
            final(self).interface.length == old(self).interface.length,
            final(self).interface.depth == old(self).interface.depth,
            match r {
                Ok(()) => {
                    &&& (index as int) < old(self)@.len()
                    &&& final(self)@ == old(self)@.update(index as int, value)
                    &&& !final(self).interface.updates.is_empty_spec()
                },
                Err(e) => {
                    &&& index as int >= old(self)@.len()
                    &&& e == (Error::OutOfBoundsUpdate { index, len: old(self)@.len() as usize })
                    &&& *final(self) == *old(self)
                },
            },
    {
        self.interface.set(index, value)
    }

    pub fn push(&mut self, value: u64) -> (r: Result<(), Error>)
        requires
            old(self).wf(),
        ensures
            final(self).wf(),
            final(self).spec_max() == old(self).spec_max(),
            final(self).interface.tree == old(self).interface.tree,
            final(self).interface.length == old(self).interface.length,
            final(self).interface.depth == old(self).interface.depth,
            match r {
                Ok(()) => {
                    &&& old(self)@.len() < old(self).spec_max()
                    &&& final(self)@ == old(self)@.push(value)
                    &&& !final(self).interface.updates.is_empty_spec()
                },
                Err(e) => {
                    &&& old(self)@.len() == old(self).spec_max()
                    &&& e == (Error::ListFull { len: old(self).spec_max() })
                    &&& *final(self) == *old(self)
                },
            },
    {
        self.interface.push(value)
    }

    pub fn len(&self) -> (r: usize)
        requires
            self.wf(),
        ensures
            r == self@.len(),
    {
        self.interface.len()
    }

    pub fn is_empty(&self) -> (r: bool)
        requires
            self.wf(),
        ensures
            r == (self@.len() == 0),
    {
        self.interface.is_empty()
    }

    pub fn has_pending_updates(&self) -> (r: bool)
        requires
            self.wf(),
        ensures
            r == !self.interface.updates.is_empty_spec(),
    {
        self.interface.has_pending_updates()
    }

    /// Flush the buffered writes into the backing tree.
    ///
    /// Applying is idempotent: the contents are unchanged, the buffer ends
    /// empty, and a second application is a no-op.
    pub fn apply_updates(&mut self) -> (r: Result<(), Error>)
        requires
            old(self).wf(),
        ensures
            final(self).wf(),
            final(self).spec_max() == old(self).spec_max(),
            final(self).interface.depth == old(self).interface.depth,
            r is Ok,
            final(self)@ == old(self)@,
            final(self).interface.updates.is_empty_spec(),
            old(self).interface.updates.is_empty_spec() ==> *final(self) == *old(self),
    {
        self.interface.apply_updates()
    }

    /// All values, in order, pending writes included.
    pub fn to_vec(&self) -> (r: Vec<u64>)
        requires
            self.wf(),
        ensures
            r@ == self@,
    {
        let len = self.len();
        let mut r: Vec<u64> = Vec::new();
        let mut i: usize = 0;
        while i < len
            invariant
                self.wf(),
                i <= len,
                len == self@.len(),
                r@ == self@.take(i as int),
            decreases len - i,
        {
            let v = match self.get(i) {
                Some(v) => v,
                None => {
                    proof {
                        assert(false);
                    }
                    0
                },
            };
            r.push(v);
            proof {
                assert(r@ =~= self@.take(i + 1));
            }
            i = i + 1;
        }
        proof {
            assert(r@ =~= self@);
        }
        r
    }

    /// Iterator over all values, pending writes included.
    pub fn iter(&self) -> (r: Iter)
        requires
            self.wf(),
        ensures
            r.remaining() == self@,
    {
        let values = self.to_vec();
        let r = Iter { values, index: 0 };
        proof {
            assert(r.remaining() =~= self@);
        }
        r
    }

    /// Iterator over the values from `index` on.
    pub fn iter_from(&self, index: usize) -> (r: Result<Iter, Error>)
        requires
            self.wf(),
        ensures
            match r {
                Ok(it) => {
                    &&& index <= self@.len()
                    &&& it.remaining() == self@.skip(index as int)
                    &&& it.index == 0
                    &&& it.values@ == self@.skip(index as int)
                },
                Err(e) => {
                    &&& index > self@.len()
                    &&& e == (Error::OutOfBoundsIterFrom { index, len: self@.len() as usize })
                },
            },
    {
        let len = self.len();
        if index > len {
            return Err(Error::OutOfBoundsIterFrom { index, len });
        }
        let all = self.to_vec();
        let mut values: Vec<u64> = Vec::new();
        let mut i = index;
        while i < all.len()
            invariant
                index <= i <= all@.len(),
                values@ == all@.subrange(index as int, i as int),
            decreases all@.len() - i,
        {
            values.push(all[i]);
            proof {
                assert(values@ =~= all@.subrange(index as int, i + 1));
            }
            i = i + 1;
        }
        let r = Iter { values, index: 0 };
        proof {
            assert(r.values@ =~= self@.skip(index as int));
            assert(r.remaining() =~= self@.skip(index as int));
        }
        Ok(r)
    }

    /// The SSZ Merkle root: the root of the padded tree with the length
    /// mixed in.
    pub fn tree_hash_root(&self) -> (r: Hash256)
        requires
            self.wf(),
            self.interface.updates.is_empty_spec(),
        ensures
            r.wf(),
            r@ == mix_in_length_spec(
                (*self.interface.tree).hash_spec(self.interface.depth as nat, PACKING_DEPTH as nat),
                self@.len() as u64,
            ),
    {
        let root = self.interface.tree.tree_hash(
            Ghost(self.interface.depth as nat),
            Ghost(PACKING_DEPTH as nat),
        );
        let len = self.len();
        mix_in_length(&root, len)
    }

    /// Remove the first `n` elements.
    ///
    /// When `n` is aligned to the packing factor, whole suffix subtrees are
    /// reused by pointer; otherwise the suffix is copied value by value.
    /// Errors if `n > self.len()`.
    pub fn pop_front(&mut self, n: usize) -> (r: Result<(), Error>)
        requires
            old(self).wf(),
        ensures
            final(self).wf(),
            final(self).spec_max() == old(self).spec_max(),
            final(self).interface.depth == old(self).interface.depth,
            final(self).interface.updates.is_empty_spec(),
            match r {
                Ok(()) => {
                    &&& n <= old(self)@.len()
                    &&& final(self)@ == old(self)@.skip(n as int)
                },
                Err(e) => {
                    &&& n > old(self)@.len()
                    &&& e == (Error::OutOfBoundsIterFrom { index: n, len: old(self)@.len() as usize })
                    &&& final(self)@ == old(self)@
                },
            },
    {
        match self.apply_updates() {
            Ok(()) => {},
            Err(e) => {
                proof {
                    assert(false);
                }
                return Err(e);
            },
        }
        if n == 0 {
            proof {
                assert(self@ =~= old(self)@.skip(0));
            }
            return Ok(());
        }
        let len = self.len();
        if n > len {
            return Err(Error::OutOfBoundsIterFrom { index: n, len });
        }
        let depth = self.interface.depth;
        let level = crate::utils::compute_level(n, depth, PACKING_DEPTH);
        if level >= PACKING_DEPTH {
            // aligned removal: reuse whole suffix subtrees
            self.pop_front_aligned(n, level)
        } else {
            // misaligned removal: copy the leading partial chunk's suffix
            // value by value
            let it = match self.iter_from(n) {
                Ok(it) => it,
                Err(_) => {
                    proof {
                        assert(false);
                    }
                    return Err(Error::OutOfBoundsIterFrom { index: n, len });
                },
            };
            let suffix = it.values;
            let max = self.interface.max;
            let rebuilt = match Self::from_values(depth, max, &suffix) {
                Ok(l) => l,
                Err(_) => {
                    proof {
                        assert(false);
                    }
                    return Err(Error::OutOfBoundsIterFrom { index: n, len });
                },
            };
            *self = rebuilt;
            Ok(())
        }
    }

    /// Iterate all internal nodes on the same level as `index`.
    ///
    /// The walk reads the canonical tree, so pending updates must have been
    /// applied first.
    pub fn level_iter_from(&self, index: usize) -> (r: Result<
        crate::level_iter::LevelIter,
        Error,
    >)
        requires
            self.wf(),
        ensures
            match r {
                Ok(it) => {
                    &&& self.interface.updates.is_empty_spec()
                    &&& index <= self@.len()
                    &&& it.index == 0
                    &&& ({
                        let level = crate::utils::compute_level_spec(
                            index,
                            self.interface.depth,
                            PACKING_DEPTH,
                        );
                        if level >= PACKING_DEPTH {
                            let spec_items = level_nodes_of(
                                &self.interface.tree,
                                self.interface.depth as nat,
                                (level - PACKING_DEPTH) as nat,
                                0,
                                index as int,
                                self.interface.length.0 as int,
                            );
                            &&& it.items@.len() == spec_items.len()
                            &&& forall|j: int|
                                0 <= j < spec_items.len() ==> match #[trigger] it.items@[j] {
                                    crate::level_iter::LevelNode::Internal(a) => *a
                                        == spec_items[j].0,
                                    crate::level_iter::LevelNode::PackedLeaf(_) => false,
                                }
                        } else {
                            &&& it.items@.len() == self@.len() - index
                            &&& forall|j: int|
                                0 <= j < it.items@.len() ==> match #[trigger] it.items@[j] {
                                    crate::level_iter::LevelNode::PackedLeaf(v) => v == self@[
                                        index + j],
                                    crate::level_iter::LevelNode::Internal(_) => false,
                                }
                        }
                    })
                },
                Err(e) => {
                    if !self.interface.updates.is_empty_spec() {
                        e == Error::LevelIterPendingUpdates
                    } else {
                        index > self@.len() && e == (Error::OutOfBoundsIterFrom {
                            index,
                            len: self@.len() as usize,
                        })
                    }
                },
            },
    {
        if self.has_pending_updates() {
            return Err(Error::LevelIterPendingUpdates);
        }
        let len = self.len();
        if index > len {
            return Err(Error::OutOfBoundsIterFrom { index, len });
        }
        let ghost d = self.interface.depth as nat;
        let ghost pd = PACKING_DEPTH as nat;
        let it = crate::level_iter::LevelIter::from_index(
            index,
            &self.interface.tree,
            self.interface.depth,
            self.interface.length,
        );
        proof {
            lemma_leaves_len(&*self.interface.tree, d, pd);
            assert(self@ =~= crate::tree::leaves_of(&self.interface.tree, d, pd).subrange(
                0,
                self.interface.length.0 as int,
            ));
        }
        Ok(it)
    }

    /// Remove an aligned prefix of `n` elements by walking the suffix on
    /// level `level` and pushing each whole subtree into a builder; only the
    /// last, possibly partial, subtree needs its length counted.
    #[verifier::rlimit(100)]
    fn pop_front_aligned(&mut self, n: usize, level: usize) -> (r: Result<(), Error>)
        requires
            old(self).wf(),
            old(self).interface.updates.is_empty_spec(),
            0 < n <= old(self)@.len(),
            level == crate::utils::compute_level_spec(
                n,
                old(self).interface.depth,
                PACKING_DEPTH,
            ),
            PACKING_DEPTH <= level,
        ensures
            final(self).wf(),
            final(self).spec_max() == old(self).spec_max(),
            final(self).interface.depth == old(self).interface.depth,
            final(self).interface.updates.is_empty_spec(),
            r is Ok,
            final(self)@ == old(self)@.skip(n as int),
    {
        let ghost pd = PACKING_DEPTH as nat;
        let depth = self.interface.depth;
        let ghost d = depth as nat;
        let ghost tree0 = self.interface.tree;
        let ghost leaves0 = crate::tree::leaves_of(&self.interface.tree, d, pd);
        let length = self.interface.length.as_usize();
        let max = self.interface.max;
        proof {
            lemma_leaves_len(&*self.interface.tree, d, pd);
            // level is the number of trailing zero bits of n, so n is an
            // aligned multiple of 2^level, and 2^level <= n <= capacity
            vstd::std_specs::bits::axiom_u64_trailing_zeros(n as u64);
            crate::level_iter::lemma_tz_divides(n as u64);
            if (level as nat) > d + pd {
                vstd::arithmetic::power2::lemma_pow2_strictly_increases(
                    (d + pd) as nat,
                    level as nat,
                );
                assert(false);
            }
            vstd::arithmetic::power2::lemma_pow2_pos(level as nat);
            if pow2(level as nat) < pow2((d + pd) as nat) {
            } else {
                if (level as nat) < d + pd {
                    vstd::arithmetic::power2::lemma_pow2_strictly_increases(
                        level as nat,
                        (d + pd) as nat,
                    );
                }
            }
        }
        let td = level - PACKING_DEPTH;
        let csize64 = crate::tree::pow2_u64(level);
        let csize = csize64 as usize;
        let ghost spec_items = crate::level_iter::level_nodes_of(
            &self.interface.tree,
            d,
            td as nat,
            0,
            n as int,
            length as int,
        );
        proof {
            vstd::arithmetic::div_mod::lemma_small_mod(
                0nat,
                capacity(d, pd),
            );
            assert(capacity(td as nat, pd) == pow2(level as nat));
            crate::level_iter::lemma_level_nodes_props(
                &*self.interface.tree,
                d,
                td as nat,
                0,
                n as int,
                length as int,
            );
        }
        let mut items: Vec<(Arc<Tree>, usize)> = Vec::new();
        Tree::collect_level(&self.interface.tree, depth, td, 0, n, length, &mut items);
        proof {
            assert(items@.skip(0) =~= items@);
            assert(arcs_eq(items@, spec_items));
            assert(length as int <= capacity(d, pd));
            if spec_items.len() > 0 {
                assert(spec_items[0].1 == n as int);
            } else {
                assert(!((n as int) < (length as int)));
            }
        }
        let mut builder = match Builder::new(depth, level) {
            Ok(b) => b,
            Err(_) => {
                proof {
                    assert(false);
                }
                return Err(Error::OutOfBoundsIterFrom { index: n, len: length });
            },
        };
        let mut j: usize = 0;
        proof {
            if items@.len() > 0 {
                assert(builder.vals@ =~= leaves0.subrange(n as int, n as int));
            } else {
                assert(n == length);
                assert(builder.vals@ =~= leaves0.subrange(n as int, length as int));
            }
        }
        while j < items.len()
            invariant
                self.wf(),
                *self == *old(self),
                self.interface.updates.is_empty_spec(),
                pd == PACKING_DEPTH as nat,
                d == depth as nat,
                depth == self.interface.depth,
                tree0 == self.interface.tree,
                leaves0 == crate::tree::leaves_of(&self.interface.tree, d, pd),
                leaves0.len() == capacity(d, pd),
                length == self.interface.length.0,
                max == self.interface.max,
                0 < n <= length,
                PACKING_DEPTH <= level <= 63,
                td == level - PACKING_DEPTH,
                td <= depth,
                (n as int) % (capacity(td as nat, pd) as int) == 0,
                csize as int == capacity(td as nat, pd) as int,
                csize as int <= capacity(d, pd) as int,
                spec_items == crate::level_iter::level_nodes_of(
                    &self.interface.tree,
                    d,
                    td as nat,
                    0,
                    n as int,
                    length as int,
                ),
                crate::level_iter::arcs_eq(items@, spec_items),
                j <= items@.len(),
                builder.inv(),
                builder.depth == depth,
                builder.level == level,
                j < items@.len() ==> builder.node_pushable(),
                builder.stack@.len() > 0 ==> builder.stack@.last().1 as int >= td,
                j < items@.len() ==> builder.vals@ == leaves0.subrange(
                    n as int,
                    spec_items[j as int].1,
                ),
                j == items@.len() ==> builder.vals@ == leaves0.subrange(n as int, length as int),
            decreases items@.len() - j,
        {
            proof {
                crate::level_iter::lemma_level_nodes_props(
                    &*self.interface.tree,
                    d,
                    td as nat,
                    0,
                    n as int,
                    length as int,
                );
                lemma_leaves_len(&*self.interface.tree, d, pd);
            }
            let node = items[j].0.clone();
            let ghost b = spec_items[j as int].1;
            proof {
                assert(*items@[j as int].0 == spec_items[j as int].0);
                assert(items@[j as int].1 as int == b);
                assert((*node).wf(td as nat, pd));
                assert((*node).proper(td as nat, pd, length as int, b));
                assert(n <= b < length);
            }
            let sub_len: usize;
            if j + 1 < items.len() {
                sub_len = csize;
                proof {
                    // not the last subtree: the next base bounds this one
                    assert(spec_items[j as int + 1].1 == b + csize);
                    assert(spec_items[j as int + 1].1 < length);
                    crate::tree::lemma_proper_shift(&*node, td as nat, pd, length as int, b, -b);
                    crate::tree::lemma_proper_full_region(
                        &*node,
                        td as nat,
                        pd,
                        length - b,
                        0,
                        csize as int,
                    );
                }
            } else {
                proof {
                    crate::interface::lemma_proper_materialized(
                        &*node,
                        td as nat,
                        pd,
                        length as int,
                        b,
                        0,
                    );
                    crate::tree::lemma_proper_compute_len(
                        &*node,
                        td as nat,
                        pd,
                        length as int,
                        b,
                    );
                    crate::tree::lemma_compute_len_le_cap(&*node, td as nat, pd);
                }
                sub_len = node.compute_len(Ghost(td as nat), Ghost(pd));
                proof {
                    crate::tree::lemma_proper_shift(&*node, td as nat, pd, length as int, b, -b);
                    if length - b >= csize {
                        crate::tree::lemma_proper_full_region(
                            &*node,
                            td as nat,
                            pd,
                            length - b,
                            0,
                            csize as int,
                        );
                    }
                    // the last subtree reaches the end of the list
                    assert(b + csize >= length);
                }
            }
            let ghost pre_vals = builder.vals@;
            let ghost gnode = node;
            match builder.push_node(node, sub_len) {
                Ok(()) => {},
                Err(_) => {
                    proof {
                        assert(false);
                    }
                    return Err(Error::OutOfBoundsIterFrom { index: n, len: length });
                },
            }
            proof {
                let item_leaves = (spec_items[j as int].0).leaves(td as nat, pd);
                assert(*gnode == spec_items[j as int].0);
                assert(item_leaves == leaves0.subrange(b, b + csize));
                assert(sub_len as int <= csize as int);
                crate::level_iter::lemma_pow2_divides((td as nat + pd) as nat, (d + pd) as nat);
                assert(b % (csize as int) == 0);
                crate::level_iter::lemma_aligned_below(
                    b,
                    capacity(d, pd) as int,
                    csize as int,
                );
                assert(b + csize <= capacity(d, pd));
                assert(item_leaves.subrange(0, sub_len as int) =~= leaves0.subrange(
                    b,
                    b + sub_len,
                ));
                assert(builder.vals@ == pre_vals + crate::tree::leaves_of(
                    &gnode,
                    td as nat,
                    pd,
                ).subrange(0, sub_len as int));
                assert(builder.vals@ =~= leaves0.subrange(n as int, b + sub_len));
                if j as int + 1 < items@.len() {
                    assert(spec_items[j as int + 1].1 == b + csize);
                } else {
                    assert(b + sub_len == length);
                }
            }
            j = j + 1;
        }
        proof {
            if items@.len() == 0 {
                // an empty decomposition means the whole list is removed
                assert(!(n < length));
                assert(builder.vals@ =~= leaves0.subrange(n as int, length as int));
            }
        }
        let (tree2, _final_depth, length2) = match builder.finish() {
            Ok(t) => t,
            Err(_) => {
                proof {
                    assert(false);
                }
                return Err(Error::OutOfBoundsIterFrom { index: n, len: length });
            },
        };
        let rebuilt = Self::from_parts(tree2, depth, length2, max);
        proof {
            assert(rebuilt@ =~= old(self)@.skip(n as int));
        }
        *self = rebuilt;
        Ok(())
    }

    /// Remove the first `n` elements by rebuilding from an iterator.
    ///
    /// Errors if `n > self.len()`.
    pub fn pop_front_slow(&mut self, n: usize) -> (r: Result<(), Error>)
        requires
            old(self).wf(),
        ensures
            final(self).wf(),
            final(self).spec_max() == old(self).spec_max(),
            final(self).interface.depth == old(self).interface.depth,
            r is Ok ==> final(self).interface.updates.is_empty_spec(),
            match r {
                Ok(()) => {
                    &&& n <= old(self)@.len()
                    &&& final(self)@ == old(self)@.skip(n as int)
                },
                Err(e) => {
                    &&& n > old(self)@.len()
                    &&& e == (Error::OutOfBoundsIterFrom { index: n, len: old(self)@.len() as usize })
                    &&& final(self)@ == old(self)@
                },
            },
    {
        let it = match self.iter_from(n) {
            Ok(it) => it,
            Err(e) => {
                return Err(e);
            },
        };
        let max = self.interface.max;
        let depth = self.interface.depth;
        let rebuilt = match Self::from_values(depth, max, &it.values) {
            Ok(l) => l,
            Err(_) => {
                proof {
                    assert(false);
                }
                return Err(Error::OutOfBoundsIterFrom { index: n, len: 0 });
            },
        };
        *self = rebuilt;
        Ok(())
    }

    /// Rewrite this list's backing tree to share as much structure as
    /// possible with `base`'s, leaving the contents untouched.
    pub fn rebase_on(&mut self, base: &List) -> (r: Result<(), Error>)
        requires
            old(self).wf(),
            base.wf(),
            old(self).interface.depth == base.interface.depth,
        ensures
            final(self).wf(),
            final(self).spec_max() == old(self).spec_max(),
            final(self).interface.depth == old(self).interface.depth,
            final(self).interface.length == old(self).interface.length,
            final(self).interface.updates == old(self).interface.updates,
            (*final(self).interface.tree).hash_spec(
                old(self).interface.depth as nat,
                PACKING_DEPTH as nat,
            ) == (*old(self).interface.tree).hash_spec(
                old(self).interface.depth as nat,
                PACKING_DEPTH as nat,
            ),
            r is Ok,
            final(self)@ == old(self)@,
    {
        let ghost d = self.interface.depth as nat;
        let ghost pd = PACKING_DEPTH as nat;
        let full_depth = self.interface.depth + PACKING_DEPTH;
        match Tree::rebase_on(
            &self.interface.tree,
            &base.interface.tree,
            full_depth,
            Ghost(d),
            Ghost(pd),
        ) {
            Ok(action) => {
                match action {
                    RebaseAction::EqualReplace(replacement) => {
                        proof {
                            lemma_equivalent_props(
                                &*self.interface.tree,
                                &*replacement,
                                d,
                                pd,
                                self.interface.length.0 as int,
                                0,
                            );
                            crate::tree::lemma_equivalent_sym(
                                &*self.interface.tree,
                                &*replacement,
                            );
                            lemma_equivalent_props(
                                &*replacement,
                                &*self.interface.tree,
                                d,
                                pd,
                                self.interface.length.0 as int,
                                0,
                            );
                        }
                        self.interface.tree = replacement;
                        proof {
                            assert(self@ =~= old(self)@);
                        }
                    },
                    RebaseAction::NotEqualReplace(replacement) => {
                        proof {
                            lemma_equivalent_props(
                                &*replacement,
                                &*self.interface.tree,
                                d,
                                pd,
                                self.interface.length.0 as int,
                                0,
                            );
                        }
                        self.interface.tree = replacement;
                        proof {
                            assert(self@ =~= old(self)@);
                        }
                    },
                    _ => {},
                }
                Ok(())
            },
            Err(e) => {
                proof {
                    assert(false);
                }
                Err(e)
            },
        }
    }

    /// A copy of this list rebased on `base`.
    pub fn rebase(&self, base: &List) -> (r: Result<List, Error>)
        requires
            self.wf(),
            base.wf(),
            self.interface.depth == base.interface.depth,
        ensures
            match r {
                Ok(l) => {
                    &&& l.wf()
                    &&& l@ == self@
                    &&& l.spec_max() == self.spec_max()
                    &&& l.interface.depth == self.interface.depth
                    &&& (*l.interface.tree).hash_spec(
                        self.interface.depth as nat,
                        PACKING_DEPTH as nat,
                    ) == (*self.interface.tree).hash_spec(
                        self.interface.depth as nat,
                        PACKING_DEPTH as nat,
                    )
                },
                Err(_) => false,
            },
    {
        let mut rebased = self.clone();
        match rebased.rebase_on(base) {
            Ok(()) => Ok(rebased),
            Err(e) => {
                proof {
                    assert(false);
                }
                Err(e)
            },
        }
    }
}

impl Clone for List {
    /// An O(1) copy sharing the whole backing tree.
    fn clone(&self) -> (r: Self)
        ensures
            r.interface.tree == self.interface.tree,
            r.interface.length == self.interface.length,
            r.interface.depth == self.interface.depth,
            r.interface.max == self.interface.max,
            forall|k: int| r.interface.updates.spec_get(k) == self.interface.updates.spec_get(k),
            r.interface.updates.wf() == self.interface.updates.wf(),
            self.wf() ==> r.wf(),
            r@ == self@,
    {
        let r = List {
            interface: Interface {
                tree: self.interface.tree.clone(),
                length: self.interface.length,
                depth: self.interface.depth,
                max: self.interface.max,
                updates: self.interface.updates.clone(),
            },
        };
        proof {
            if self.interface.updates.is_empty_spec() {
                assert forall|k: int| !r.interface.updates.has_key(k) by {
                    assert(!self.interface.updates.has_key(k));
                }
            } else {
                let w = choose|k: int| self.interface.updates.has_key(k);
                assert(r.interface.updates.has_key(w));
            }
            assert(r.interface.updates.is_empty_spec() == self.interface.updates.is_empty_spec());
            assert(r.interface.spec_len() == self.interface.spec_len());
            assert(r@ =~= self@);
            if self.wf() {
                assert forall|k: int| #[trigger] r.interface.updates.has_key(k) implies 0 <= k
                    < r.interface.max by {
                    assert(self.interface.updates.has_key(k));
                }
                assert forall|i: int|
                    r.interface.length.0 <= i < r.interface.spec_len() implies #[trigger] r
                    .interface.updates.has_key(i) by {
                    assert(self.interface.updates.has_key(i));
                }
            }
        }
        r
    }
}

impl List {
    /// Whether two lists hold the same values in the same order.
    pub fn eq_list(&self, other: &List) -> (r: bool)
        requires
            self.wf(),
            other.wf(),
        ensures
            r == (self@ == other@),
    {
        let a = self.to_vec();
        let b = other.to_vec();
        crate::tree::values_eq(&a, &b)
    }
}

/// The root hash is a function of the contents and the bound alone: two
/// lists built for the same bound holding the same values have the same tree
/// root and, with equal lengths mixed in, the same `tree_hash_root`.
pub proof fn lemma_tree_hash_agrees(a: List, b: List)
    requires
        a.wf(),
        b.wf(),
        a.interface.updates.is_empty_spec(),
        b.interface.updates.is_empty_spec(),
        canonical_depth(a.interface.depth, a.interface.max),
        canonical_depth(b.interface.depth, b.interface.max),
        a.interface.max == b.interface.max,
        a@ == b@,
    ensures
        a.interface.depth == b.interface.depth,
        (*a.interface.tree).hash_spec(a.interface.depth as nat, PACKING_DEPTH as nat) == (
        *b.interface.tree).hash_spec(b.interface.depth as nat, PACKING_DEPTH as nat),
        mix_in_length_spec(
            (*a.interface.tree).hash_spec(a.interface.depth as nat, PACKING_DEPTH as nat),
            a@.len() as u64,
        ) == mix_in_length_spec(
            (*b.interface.tree).hash_spec(b.interface.depth as nat, PACKING_DEPTH as nat),
            b@.len() as u64,
        ),
{
    lemma_canonical_depth_unique(a.interface.depth, b.interface.depth, a.interface.max);
    let d = a.interface.depth as nat;
    let pd = PACKING_DEPTH as nat;
    let la = crate::tree::leaves_of(&a.interface.tree, d, pd);
    let lb = crate::tree::leaves_of(&b.interface.tree, d, pd);
    lemma_leaves_len(&*a.interface.tree, d, pd);
    lemma_leaves_len(&*b.interface.tree, d, pd);
    assert(a@.len() == a.interface.length.0);
    assert(b@.len() == b.interface.length.0);
    let len = a.interface.length.0 as int;
    assert(la =~= lb) by {
        assert forall|i: int| 0 <= i < la.len() implies #[trigger] la[i] == lb[i] by {
            if i < len {
                assert(a@[i] == la[i]);
                assert(b@[i] == lb[i]);
            } else {
                crate::tree::lemma_proper_leaves_zero(&*a.interface.tree, d, pd, len, 0, i);
                crate::tree::lemma_proper_leaves_zero(&*b.interface.tree, d, pd, len, 0, i);
            }
        }
    }
    crate::tree::lemma_hash_agrees(&*a.interface.tree, &*b.interface.tree, d, pd, len, 0);
}

/// Reconstruction equivalence: on the same values, the bulk builder and the
/// push-one-by-one construction reach the same outcome.  For values within a
/// feasible bound both succeed, with exactly those contents.
///
/// The hypotheses are the outcome contracts of `try_from_iter` and
/// `try_from_iter_slow` on the same inputs.
pub proof fn lemma_reconstruction_equivalence(
    fast: Result<List, Error>,
    slow: Result<List, Error>,
    max: usize,
    values: Seq<u64>,
)
    requires
        match fast {
            Ok(l) => l@ == values,
            Err(e) => {
                ||| (e == Error::BuilderFull && values.len() > max)
                ||| (e matches Error::BuilderInvalidDepth { .. } && !depth_feasible(max))
            },
        },
        match slow {
            Ok(l) => l@ == values,
            Err(e) => {
                ||| (e == (Error::ListFull { len: max }) && values.len() > max)
                ||| (e matches Error::BuilderInvalidDepth { .. } && !depth_feasible(max))
            },
        },
        values.len() <= max,
        depth_feasible(max),
    ensures
        match (fast, slow) {
            (Ok(a), Ok(b)) => a@ == b@ && a@ == values,
            _ => false,
        },
{
}

/// Pop-front equivalence: removing a prefix by reusing whole subtrees and
/// removing it by rebuilding from an iterator reach the same outcome — the
/// same success condition, the same error, and the same remaining contents.
///
/// The hypotheses are the outcome contracts of `pop_front` and
/// `pop_front_slow` on the same list contents.
pub proof fn lemma_pop_front_equivalence(
    before: Seq<u64>,
    n: usize,
    r1: Result<(), Error>,
    after1: Seq<u64>,
    r2: Result<(), Error>,
    after2: Seq<u64>,
)
    requires
        match r1 {
            Ok(()) => n <= before.len() && after1 == before.skip(n as int),
            Err(e) => n > before.len() && e == (Error::OutOfBoundsIterFrom {
                index: n,
                len: before.len() as usize,
            }) && after1 == before,
        },
        match r2 {
            Ok(()) => n <= before.len() && after2 == before.skip(n as int),
            Err(e) => n > before.len() && e == (Error::OutOfBoundsIterFrom {
                index: n,
                len: before.len() as usize,
            }) && after2 == before,
        },
    ensures
        r1 is Ok <==> r2 is Ok,
        after1 == after2,
        n <= before.len() ==> r1 is Ok,
{
}

} // verus!
