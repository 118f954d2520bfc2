//! Staged-update layer: a mutable façade over an immutable backing tree.
//!
//! Point writes are buffered in a sparse update map; `apply_updates` folds
//! the buffer into the backing tree in one batched rewrite.

use vstd::prelude::*;

use crate::error::Error;
use crate::tree::{capacity, fused_leaves, lemma_leaves_len, Tree};
use crate::update_map::MaxMap;
use crate::utils::Length;
use crate::{MAX_TREE_DEPTH, PACKING_DEPTH};
use std::sync::Arc;

verus! {

/// A subtree's stored positions are exactly those below the list length.
pub proof fn lemma_proper_materialized(t: &Tree, depth: nat, pd: nat, len: int, base: int, i: int)
    requires
        t.wf(depth, pd),
        t.proper(depth, pd, len, base),
        0 <= i < capacity(depth, pd),
    ensures
        t.materialized(depth, pd, i) <==> base + i < len,
    decreases t,
{
    vstd::arithmetic::power2::lemma_pow2_pos((depth + pd) as nat);
    match t {
        Tree::Leaf(_) => {
            vstd::arithmetic::power2::lemma2_to64();
        },
        Tree::PackedLeaf(_) => {
            vstd::arithmetic::power2::lemma2_to64();
        },
        Tree::Zero(_) => {},
        Tree::Node { left, right } => {
            let half = capacity((depth - 1) as nat, pd) as int;
            assert(capacity(depth, pd) == 2 * half) by {
                vstd::arithmetic::power2::lemma_pow2_adds(((depth - 1) as nat + pd) as nat, 1);
                vstd::arithmetic::power2::lemma2_to64();
            }
            if i < half {
                lemma_proper_materialized(&**left, (depth - 1) as nat, pd, len, base, i);
            } else {
                lemma_proper_materialized(
                    &**right,
                    (depth - 1) as nat,
                    pd,
                    len,
                    base + half,
                    i - half,
                );
            }
        },
    }
}

/// Inserting at an index at or below the logical length updates the length
/// accordingly: unchanged for an existing position, one more for an append.
proof fn lemma_insert_spec_len(old_i: Interface, new_i: Interface, index: usize)
    requires
        old_i.wf(),
        new_i.length == old_i.length,
        new_i.updates.wf(),
        new_i.updates.has_key(index as int),
        forall|j: int| j != index ==> new_i.updates.spec_get(j) == old_i.updates.spec_get(j),
        !new_i.updates.is_empty_spec(),
        index as int <= old_i.spec_len(),
    ensures
        new_i.spec_len() == if (index as int) < old_i.spec_len() {
            old_i.spec_len()
        } else {
            old_i.spec_len() + 1
        },
{
    let l0 = old_i.length.0 as int;
    let oldsl = old_i.spec_len();
    let mk = new_i.updates.max_key as int;
    assert(new_i.updates.has_key(mk));
    assert(index as int <= mk);
    if mk != index {
        assert(old_i.updates.has_key(mk));
        assert(mk < oldsl);
    }
    if !old_i.updates.is_empty_spec() {
        let omk = old_i.updates.max_key as int;
        assert(old_i.updates.has_key(omk));
        if omk != index {
            assert(new_i.updates.has_key(omk));
            assert(omk <= mk);
        }
    }
}

/// Mediator between a sparse buffer of pending writes and the immutable
/// backing tree.
#[derive(Debug)]
pub struct Interface {
    /// Root of the backing tree.
    pub tree: Arc<Tree>,
    /// Number of values reflected in the backing tree.
    pub length: Length,
    /// Depth of the backing tree above its packed leaves.
    pub depth: usize,
    /// Maximum number of values the list may hold.
    pub max: usize,
    /// Pending writes, keyed by list index.
    pub updates: MaxMap,
}

impl Interface {
    /// The logical length: pending writes past the backing length extend it.
    pub open spec fn spec_len(self) -> int {
        if self.updates.is_empty_spec() {
            self.length.0 as int
        } else if self.updates.max_key + 1 > self.length.0 {
            self.updates.max_key + 1
        } else {
            self.length.0 as int
        }
    }

    /// The logical contents: pending writes win over the backing tree.
    pub open spec fn view(self) -> Seq<u64> {
        Seq::new(
            self.spec_len() as nat,
            |i: int|
                if self.updates.has_key(i) {
                    self.updates.spec_val(i)
                } else {
                    (*self.tree).leaves(self.depth as nat, PACKING_DEPTH as nat)[i]
                },
        )
    }

    pub open spec fn wf(self) -> bool {
        &&& (*self.tree).wf(self.depth as nat, PACKING_DEPTH as nat)
        &&& (*self.tree).proper(self.depth as nat, PACKING_DEPTH as nat, self.length.0 as int, 0)
        &&& self.updates.wf()
        &&& self.depth + PACKING_DEPTH <= MAX_TREE_DEPTH
        &&& self.length.0 <= self.max
        &&& self.max as int <= capacity(self.depth as nat, PACKING_DEPTH as nat)
        &&& capacity(self.depth as nat, PACKING_DEPTH as nat) <= usize::MAX
        &&& forall|k: int| #[trigger] self.updates.has_key(k) ==> 0 <= k < self.max
        &&& forall|i: int|
            self.length.0 <= i < self.spec_len() ==> #[trigger] self.updates.has_key(i)
    }

    /// Construct an interface over a backing tree with no pending writes.
    pub fn new(tree: Arc<Tree>, length: Length, depth: usize, max: usize) -> (r: Interface)
        requires
            (*tree).wf(depth as nat, PACKING_DEPTH as nat),
            (*tree).proper(depth as nat, PACKING_DEPTH as nat, length.0 as int, 0),
            depth + PACKING_DEPTH <= MAX_TREE_DEPTH,
            length.0 <= max,
            max as int <= capacity(depth as nat, PACKING_DEPTH as nat),
            capacity(depth as nat, PACKING_DEPTH as nat) <= usize::MAX,
        ensures
            r.wf(),
            r.tree == tree,
            r.length == length,
            r.depth == depth,
            r.max == max,
            r.updates.is_empty_spec(),
            r.spec_len() == length.0,
            r.view() == (*tree).leaves(depth as nat, PACKING_DEPTH as nat).subrange(
                0,
                length.0 as int,
            ),
    {
        let r = Interface { tree, length, depth, max, updates: MaxMap::new() };
        proof {
            lemma_leaves_len(&*r.tree, depth as nat, PACKING_DEPTH as nat);
            assert(r.view() =~= (*r.tree).leaves(depth as nat, PACKING_DEPTH as nat).subrange(
                0,
                length.0 as int,
            ));
        }
        r
    }

    /// The logical length.
    pub fn len(&self) -> (r: usize)
        requires
            self.wf(),
        ensures
            r == self.spec_len(),
            r == self.view().len(),
    {
        match self.updates.max_index() {
            None => self.length.as_usize(),
            Some(max_index) => {
                proof {
                    assert(self.updates.has_key(max_index as int));
                }
                if max_index + 1 > self.length.as_usize() {
                    max_index + 1
                } else {
                    self.length.as_usize()
                }
            },
        }
    }

    pub fn is_empty(&self) -> (r: bool)
        requires
            self.wf(),
        ensures
            r == (self.view().len() == 0),
    {
        self.len() == 0
    }

    pub fn has_pending_updates(&self) -> (r: bool)
        requires
            self.wf(),
        ensures
            r == !self.updates.is_empty_spec(),
    {
        !self.updates.is_empty()
    }

    /// Read the value at `index`: pending writes win over the backing tree.
    pub fn get(&self, index: usize) -> (r: Option<u64>)
        requires
            self.wf(),
        ensures
            r == if (index as int) < self.view().len() {
                Some(self.view()[index as int])
            } else {
                Option::<u64>::None
            },
    {
        proof {
            lemma_leaves_len(&*self.tree, self.depth as nat, PACKING_DEPTH as nat);
        }
        match self.updates.get(index) {
            Some(v) => {
                proof {
                    assert(self.updates.has_key(index as int));
                }
                Some(v)
            },
            None => {
                if index < self.length.as_usize() {
                    proof {
                        vstd::arithmetic::div_mod::lemma_small_mod(
                            index as nat,
                            capacity(self.depth as nat, PACKING_DEPTH as nat),
                        );
                        lemma_proper_materialized(
                            &*self.tree,
                            self.depth as nat,
                            PACKING_DEPTH as nat,
                            self.length.0 as int,
                            0,
                            index as int,
                        );
                    }
                    let r = self.tree.get_recursive(index, self.depth, PACKING_DEPTH);
                    proof {
                        assert(r is Some);
                    }
                    r
                } else {
                    None
                }
            },
        }
    }

    /// Buffer a write to an existing position.
    pub fn set(&mut self, index: usize, value: u64) -> (r: Result<(), Error>)
        requires
            old(self).wf(),
        ensures
            final(self).wf(),
            final(self).tree == old(self).tree,
            final(self).length == old(self).length,
            final(self).depth == old(self).depth,
            final(self).max == old(self).max,
            match r {
                Ok(()) => {
                    &&& (index as int) < old(self).view().len()
                    &&& final(self).view() == old(self).view().update(index as int, value)
                    &&& !final(self).updates.is_empty_spec()
                },
                Err(e) => {
                    &&& index as int >= old(self).view().len()
                    &&& e == (Error::OutOfBoundsUpdate {
                        index,
                        len: old(self).view().len() as usize,
                    })
                    &&& *final(self) == *old(self)
                },
            },
    {
        let len = self.len();
        if index >= len {
            return Err(Error::OutOfBoundsUpdate { index, len });
        }
        self.updates.insert(index, value);
        proof {
            assert(index < self.max);
            lemma_insert_spec_len(*old(self), *self, index);
            assert(self.spec_len() == old(self).spec_len());
            assert forall|i: int|
                self.length.0 <= i < self.spec_len() implies #[trigger] self.updates.has_key(
                i,
            ) by {
                if i != index {
                    assert(old(self).updates.has_key(i));
                }
            }
            assert(self.view() =~= old(self).view().update(index as int, value));
        }
        Ok(())
    }

    /// Append a value, buffering it at the current length.
    pub fn push(&mut self, value: u64) -> (r: Result<(), Error>)
        requires
            old(self).wf(),
        ensures
            final(self).wf(),
            final(self).tree == old(self).tree,
            final(self).length == old(self).length,
            final(self).depth == old(self).depth,
            final(self).max == old(self).max,
            match r {
                Ok(()) => {
                    &&& old(self).view().len() < old(self).max
                    &&& final(self).view() == old(self).view().push(value)
                    &&& !final(self).updates.is_empty_spec()
                },
                Err(e) => {
                    &&& old(self).view().len() == old(self).max
                    &&& e == (Error::ListFull { len: old(self).max })
                    &&& *final(self) == *old(self)
                },
            },
    {
        let index = self.len();
        if index == self.max {
            return Err(Error::ListFull { len: index });
        }
        self.updates.insert(index, value);
        proof {
            lemma_insert_spec_len(*old(self), *self, index);
            assert(self.spec_len() == old(self).spec_len() + 1);
            assert forall|i: int|
                self.length.0 <= i < self.spec_len() implies #[trigger] self.updates.has_key(
                i,
            ) by {
                if i != index {
                    assert(old(self).updates.has_key(i));
                }
            }
            assert(self.view() =~= old(self).view().push(value));
        }
        Ok(())
    }

    /// Apply all pending writes to the backing tree in one batched rewrite.
    pub fn apply_updates(&mut self) -> (r: Result<(), Error>)
        requires
            old(self).wf(),
        ensures
            final(self).wf(),
            final(self).depth == old(self).depth,
            final(self).max == old(self).max,
            r is Ok,
            final(self).view() == old(self).view(),
            final(self).updates.is_empty_spec(),
            final(self).length.0 == old(self).view().len(),
            old(self).updates.is_empty_spec() ==> *final(self) == *old(self),
    {
        let ghost pd = PACKING_DEPTH as nat;
        let ghost d = self.depth as nat;
        if self.updates.is_empty() {
            proof {
                assert(self.view() =~= old(self).view());
            }
            return Ok(());
        }
        let new_len = self.len();
        let mut local = MaxMap::new();
        core::mem::swap(&mut self.updates, &mut local);
        proof {
            lemma_leaves_len(&*self.tree, d, pd);
            assert forall|i: int|
                0 <= i < capacity(d, pd) && i < new_len implies local.has_key(i)
                    || (*self.tree).materialized(d, pd, i) by {
                if !local.has_key(i) {
                    assert(i < old(self).length.0);
                    lemma_proper_materialized(
                        &*self.tree,
                        d,
                        pd,
                        old(self).length.0 as int,
                        0,
                        i,
                    );
                }
            }
            let w = choose|k: int| local.has_key(k);
            assert(0 <= w < capacity(d, pd));
            vstd::arithmetic::div_mod::lemma_small_mod(0nat, capacity(d, pd));
        }
        match self.tree.with_updated_leaves(
            &local,
            0,
            self.depth,
            PACKING_DEPTH,
            Ghost(new_len as int),
            Ghost(self.length.0 as int),
        ) {
            Ok(new_tree) => {
                self.tree = new_tree;
                self.length = Length(new_len);
                proof {
                    assert(self.view() =~= old(self).view()) by {
                        assert((*self.tree).leaves(d, pd) == fused_leaves(
                            (*old(self).tree).leaves(d, pd),
                            local,
                            0,
                        ));
                    }
                }
                Ok(())
            },
            Err(e) => {
                proof {
                    assert(false);
                }
                Err(e)
            },
        }
    }
}

} // verus!
