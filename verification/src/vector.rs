//! Fixed-length vector façade: a list that always holds exactly `max`
//! values and refuses pushes.

use vstd::prelude::*;

use crate::error::Error;
use crate::hashing::Hash256;
use crate::interface::Interface;
use crate::iter::Iter;
use crate::list::{canonical_depth, depth_feasible, List};
use crate::tree::Tree;
use crate::PACKING_DEPTH;
use std::sync::Arc;

verus! {

/// A vector of exactly `max` values backed by a persistent Merkle tree.
#[derive(Debug)]
pub struct Vector {
    pub interface: Interface,
}

impl View for Vector {
    type V = Seq<u64>;

    open spec fn view(&self) -> Seq<u64> {
        self.interface.view()
    }
}

impl Vector {
    pub open spec fn wf(&self) -> bool {
        &&& self.interface.wf()
        &&& self.interface.spec_len() == self.interface.max
    }

    pub open spec fn spec_max(&self) -> usize {
        self.interface.max
    }

    /// Convert a full list into a vector; the list must hold exactly `max`
    /// values.
    pub fn try_from(list: List) -> (r: Result<Vector, Error>)
        requires
            list.wf(),
        ensures
            match r {
                Ok(v) => {
                    &&& list@.len() == list.spec_max()
                    &&& v.wf()
                    &&& v@ == list@
                    &&& v.spec_max() == list.spec_max()
                    &&& v.interface.depth == list.interface.depth
                    &&& v.interface.updates == list.interface.updates
                },
                Err(e) => {
                    &&& list@.len() != list.spec_max()
                    &&& e == (Error::WrongVectorLength {
                        len: list@.len() as usize,
                        expected: list.spec_max(),
                    })
                },
            },
    {
        let len = list.len();
        let expected = list.interface.max;
        if len == expected {
            Ok(Vector { interface: list.interface })
        } else {
            Err(Error::WrongVectorLength { len, expected })
        }
    }

    /// Build a vector from exactly `max` values.
    pub fn new(max: usize, vec: Vec<u64>) -> (r: Result<Vector, Error>)
        ensures
            match r {
                Ok(v) => {
                    &&& vec@.len() == max
                    &&& v.wf()
                    &&& v.spec_max() == max
                    &&& v@ == vec@
                    &&& v.interface.updates.is_empty_spec()
                    &&& canonical_depth(v.interface.depth, max)
                },
                Err(e) => {
                    if vec@.len() != max {
                        e == (Error::WrongVectorLength { len: vec@.len() as usize, expected: max })
                    } else {
                        e matches Error::BuilderInvalidDepth { .. } && !depth_feasible(max)
                    }
                },
            },
    {
        if vec.len() == max {
            let list = match List::new(max, vec) {
                Ok(l) => l,
                Err(e) => {
                    return Err(e);
                },
            };
            Self::try_from(list)
        } else {
            Err(Error::WrongVectorLength { len: vec.len(), expected: max })
        }
    }

    /// The vector's list form, pending writes included.
    pub fn to_list(self) -> (r: List)
        requires
            self.wf(),
        ensures
            r.wf(),
            r@ == self@,
            r.spec_max() == self.spec_max(),
    {
        List { interface: self.interface }
    }

    pub fn get(&self, index: usize) -> (r: Option<u64>)
        requires
            self.wf(),
        ensures
            r == if (index as int) < self@.len() {
                Some(self@[index as int])
            } else {
                Option::<u64>::None
            },
    {
        self.interface.get(index)
    }

    /// Buffer a write to a position.
    pub fn set(&mut self, index: usize, value: u64) -> (r: Result<(), Error>)
        requires
            old(self).wf(),
        ensures
            final(self).wf(),
            final(self).spec_max() == old(self).spec_max(),
            final(self).interface.tree == old(self).interface.tree,
            final(self).interface.length == old(self).interface.length,
            final(self).interface.depth == old(self).interface.depth,
            match r {
                Ok(()) => {
                    &&& (index as int) < old(self)@.len()
                    &&& final(self)@ == old(self)@.update(index as int, value)
                    &&& !final(self).interface.updates.is_empty_spec()
                },
                Err(e) => {
                    &&& index as int >= old(self)@.len()
                    &&& e == (Error::OutOfBoundsUpdate { index, len: old(self)@.len() as usize })
                    &&& *final(self) == *old(self)
                },
            },
    {
        let r = self.interface.set(index, value);
        proof {
            assert(self.interface.view().len() == old(self).interface.view().len());
            assert(self.interface.spec_len() >= 0);
            assert(self.interface.spec_len() == old(self).interface.spec_len());
        }
        r
    }

    /// Vectors have a fixed length: appending is never supported.
    pub fn push(&mut self, _value: u64) -> (r: Result<(), Error>)
        ensures
            *final(self) == *old(self),
            r == Result::<(), Error>::Err(Error::PushNotSupported),
    {
        Err(Error::PushNotSupported)
    }

    pub fn len(&self) -> (r: usize)
        requires
            self.wf(),
        ensures
            r == self@.len(),
            r == self.spec_max(),
    {
        self.interface.len()
    }

    pub fn is_empty(&self) -> (r: bool)
        requires
            self.wf(),
        ensures
            r == (self@.len() == 0),
    {
        self.interface.is_empty()
    }

    pub fn has_pending_updates(&self) -> (r: bool)
        requires
            self.wf(),
        ensures
            r == !self.interface.updates.is_empty_spec(),
    {
        self.interface.has_pending_updates()
    }

    pub fn apply_updates(&mut self) -> (r: Result<(), Error>)
        requires
            old(self).wf(),
        ensures
            final(self).wf(),
            final(self).spec_max() == old(self).spec_max(),
            final(self).interface.depth == old(self).interface.depth,
            r is Ok,
            final(self)@ == old(self)@,
            final(self).interface.updates.is_empty_spec(),
            old(self).interface.updates.is_empty_spec() ==> *final(self) == *old(self),
    {
        self.interface.apply_updates()
    }

    /// All values, in order, pending writes included.
    pub fn to_vec(&self) -> (r: Vec<u64>)
        requires
            self.wf(),
        ensures
            r@ == self@,
    {
        let len = self.interface.len();
        let mut r: Vec<u64> = Vec::new();
        let mut i: usize = 0;
        while i < len
            invariant
                self.wf(),
                i <= len,
                len == self@.len(),
                r@ == self@.take(i as int),
            decreases len - i,
        {
            let v = match self.interface.get(i) {
                Some(v) => v,
                None => {
                    proof {
                        assert(false);
                    }
                    0
                },
            };
            r.push(v);
            proof {
                assert(r@ =~= self@.take(i + 1));
            }
            i = i + 1;
        }
        proof {
            assert(r@ =~= self@);
        }
        r
    }

    /// Iterator over all values, pending writes included.
    pub fn iter(&self) -> (r: Iter)
        requires
            self.wf(),
        ensures
            r.remaining() == self@,
    {
        let values = self.to_vec();
        let r = Iter { values, index: 0 };
        proof {
            assert(r.remaining() =~= self@);
        }
        r
    }

    /// Iterator over the values from `index` on.
    pub fn iter_from(&self, index: usize) -> (r: Result<Iter, Error>)
        requires
            self.wf(),
        ensures
            match r {
                Ok(it) => {
                    &&& index <= self@.len()
                    &&& it.remaining() == self@.skip(index as int)
                },
                Err(e) => {
                    &&& index > self@.len()
                    &&& e == (Error::OutOfBoundsIterFrom { index, len: self@.len() as usize })
                },
            },
    {
        let len = self.interface.len();
        if index > len {
            return Err(Error::OutOfBoundsIterFrom { index, len });
        }
        let all = self.to_vec();
        let mut values: Vec<u64> = Vec::new();
        let mut i = index;
        while i < all.len()
            invariant
                index <= i <= all@.len(),
                values@ == all@.subrange(index as int, i as int),
            decreases all@.len() - i,
        {
            values.push(all[i]);
            proof {
                assert(values@ =~= all@.subrange(index as int, i + 1));
            }
            i = i + 1;
        }
        let r = Iter { values, index: 0 };
        proof {
            assert(r.values@ =~= self@.skip(index as int));
            assert(r.remaining() =~= self@.skip(index as int));
        }
        Ok(r)
    }

    /// The SSZ Merkle root: the padded tree root, with no length mix-in.
    pub fn tree_hash_root(&self) -> (r: Hash256)
        requires
            self.wf(),
            self.interface.updates.is_empty_spec(),
        ensures
            r.wf(),
            r@ == (*self.interface.tree).hash_spec(
                self.interface.depth as nat,
                PACKING_DEPTH as nat,
            ),
    {
        self.interface.tree.tree_hash(
            Ghost(self.interface.depth as nat),
            Ghost(PACKING_DEPTH as nat),
        )
    }

    /// Rewrite this vector's backing tree to share as much structure as
    /// possible with `base`'s, leaving the contents untouched.
    pub fn rebase_on(&mut self, base: &Vector) -> (r: Result<(), Error>)
        requires
            old(self).wf(),
            base.wf(),
            old(self).interface.depth == base.interface.depth,
        ensures
            final(self).wf(),
            final(self).spec_max() == old(self).spec_max(),
            final(self).interface.depth == old(self).interface.depth,
            final(self).interface.length == old(self).interface.length,
            final(self).interface.updates == old(self).interface.updates,
            (*final(self).interface.tree).hash_spec(
                old(self).interface.depth as nat,
                PACKING_DEPTH as nat,
            ) == (*old(self).interface.tree).hash_spec(
                old(self).interface.depth as nat,
                PACKING_DEPTH as nat,
            ),
            r is Ok,
            final(self)@ == old(self)@,
    {
        let ghost d = self.interface.depth as nat;
        let ghost pd = PACKING_DEPTH as nat;
        let full_depth = self.interface.depth + PACKING_DEPTH;
        match Tree::rebase_on(
            &self.interface.tree,
            &base.interface.tree,
            full_depth,
            Ghost(d),
            Ghost(pd),
        ) {
            Ok(action) => {
                match action {
                    crate::tree::RebaseAction::EqualReplace(replacement) => {
                        proof {
                            crate::tree::lemma_equivalent_sym(
                                &*self.interface.tree,
                                &*replacement,
                            );
                            crate::tree::lemma_equivalent_props(
                                &*replacement,
                                &*self.interface.tree,
                                d,
                                pd,
                                self.interface.length.0 as int,
                                0,
                            );
                        }
                        self.interface.tree = replacement;
                        proof {
                            assert(self@ =~= old(self)@);
                        }
                    },
                    crate::tree::RebaseAction::NotEqualReplace(replacement) => {
                        proof {
                            crate::tree::lemma_equivalent_props(
                                &*replacement,
                                &*self.interface.tree,
                                d,
                                pd,
                                self.interface.length.0 as int,
                                0,
                            );
                        }
                        self.interface.tree = replacement;
                        proof {
                            assert(self@ =~= old(self)@);
                        }
                    },
                    _ => {},
                }
                Ok(())
            },
            Err(e) => {
                proof {
                    assert(false);
                }
                Err(e)
            },
        }
    }

    /// A copy of this vector rebased on `base`.
    pub fn rebase(&self, base: &Vector) -> (r: Result<Vector, Error>)
        requires
            self.wf(),
            base.wf(),
            self.interface.depth == base.interface.depth,
        ensures
            match r {
                Ok(v) => {
                    &&& v.wf()
                    &&& v@ == self@
                    &&& v.spec_max() == self.spec_max()
                    &&& v.interface.depth == self.interface.depth
                    &&& (*v.interface.tree).hash_spec(
                        self.interface.depth as nat,
                        PACKING_DEPTH as nat,
                    ) == (*self.interface.tree).hash_spec(
                        self.interface.depth as nat,
                        PACKING_DEPTH as nat,
                    )
                },
                Err(_) => false,
            },
    {
        let mut rebased = self.clone();
        match rebased.rebase_on(base) {
            Ok(()) => Ok(rebased),
            Err(e) => {
                proof {
                    assert(false);
                }
                Err(e)
            },
        }
    }

    /// Whether two vectors hold the same values in the same order.
    pub fn eq_vector(&self, other: &Vector) -> (r: bool)
        requires
            self.wf(),
            other.wf(),
        ensures
            r == (self@ == other@),
    {
        let a = self.to_vec();
        let b = other.to_vec();
        crate::tree::values_eq(&a, &b)
    }
}

impl Clone for Vector {
    /// An O(1) copy sharing the whole backing tree.
    fn clone(&self) -> (r: Self)
        ensures
            r.interface.tree == self.interface.tree,
            r.interface.length == self.interface.length,
            r.interface.depth == self.interface.depth,
            r.interface.max == self.interface.max,
            self.wf() ==> r.wf(),
            r@ == self@,
    {
        let inner = List { interface: Interface {
            tree: self.interface.tree.clone(),
            length: self.interface.length,
            depth: self.interface.depth,
            max: self.interface.max,
            updates: self.interface.updates.clone(),
        } };
        proof {
            if self.interface.updates.is_empty_spec() {
                assert forall|k: int| !inner.interface.updates.has_key(k) by {
                    assert(!self.interface.updates.has_key(k));
                }
            } else {
                let w = choose|k: int| self.interface.updates.has_key(k);
                assert(inner.interface.updates.has_key(w));
            }
            assert(inner.interface.updates.is_empty_spec()
                == self.interface.updates.is_empty_spec());
            assert(inner.interface.spec_len() == self.interface.spec_len());
            if self.wf() {
                assert forall|k: int| #[trigger] inner.interface.updates.has_key(k) implies 0 <= k
                    < inner.interface.max by {
                    assert(self.interface.updates.has_key(k));
                }
                assert forall|i: int|
                    inner.interface.length.0 <= i < inner.interface.spec_len() implies #[trigger] inner
                    .interface.updates.has_key(i) by {
                    assert(self.interface.updates.has_key(i));
                }
            }
            assert(inner.interface.view() =~= self.interface.view());
        }
        Vector { interface: inner.interface }
    }
}

} // verus!
