//! Chunk of up to four basic values packed into one 32-byte hashing word.

use vstd::prelude::*;

use crate::error::Error;
use crate::hashing::{chunk_of, pack_chunk, Hash256};
use crate::update_map::MaxMap;
use crate::PACKING_FACTOR;

verus! {

/// Leaf holding up to [`PACKING_FACTOR`] values that share one hashing chunk.
#[derive(Debug)]
pub struct PackedLeaf {
    pub values: Vec<u64>,
}

/// Fill of a packed leaf after applying the pending keys in
/// `[prefix, prefix + j)` to a leaf of `len0` values.
///
/// The fill only grows to `j` when the key for slot `j - 1` is present and
/// lands exactly on the current fill; the executable update fails on any
/// attempt to jump over an unfilled slot.
pub open spec fn fill_upto(len0: int, updates: MaxMap, prefix: int, j: int) -> int
    decreases j,
{
    if j <= 0 {
        len0
    } else {
        let below = fill_upto(len0, updates, prefix, j - 1);
        if updates.has_key(prefix + (j - 1)) && j - 1 == below {
            j
        } else {
            below
        }
    }
}

/// Fill of a packed leaf after applying all four slots' pending keys.
pub open spec fn packed_update_fill(len0: int, updates: MaxMap, prefix: int) -> int {
    fill_upto(len0, updates, prefix, PACKING_FACTOR as int)
}

/// Whether the pending keys in `[prefix, prefix + 4)` extend a leaf of `len0`
/// values without jumping over an unfilled slot.
pub open spec fn packed_update_ok(len0: int, updates: MaxMap, prefix: int) -> bool {
    forall|j: int, m: int|
        len0 <= m < j < PACKING_FACTOR && #[trigger] updates.has_key(prefix + j)
            ==> #[trigger] updates.has_key(prefix + m)
}

/// Contents of a packed leaf after a successful bulk update.
pub open spec fn packed_update_result(vals: Seq<u64>, updates: MaxMap, prefix: int) -> Seq<u64> {
    Seq::new(
        packed_update_fill(vals.len() as int, updates, prefix) as nat,
        |m: int|
            if updates.has_key(prefix + m) {
                updates.spec_val(prefix + m)
            } else {
                vals[m]
            },
    )
}

pub proof fn lemma_fill_bounds(len0: int, updates: MaxMap, prefix: int, j: int)
    requires
        0 <= len0,
        0 <= j,
    ensures
        len0 <= fill_upto(len0, updates, prefix, j),
        fill_upto(len0, updates, prefix, j) <= if len0 > j {
            len0
        } else {
            j
        },
    decreases j,
{
    if j > 0 {
        lemma_fill_bounds(len0, updates, prefix, j - 1);
    }
}

pub proof fn lemma_fill_monotone(len0: int, updates: MaxMap, prefix: int, j1: int, j2: int)
    requires
        0 <= j1 <= j2,
    ensures
        fill_upto(len0, updates, prefix, j1) <= fill_upto(len0, updates, prefix, j2),
    decreases j2 - j1,
{
    if j1 < j2 {
        lemma_fill_monotone(len0, updates, prefix, j1, j2 - 1);
    }
}

pub proof fn lemma_fill_gap(len0: int, updates: MaxMap, prefix: int, m: int, j: int)
    requires
        0 <= len0 <= m < j,
        !updates.has_key(prefix + m),
        fill_upto(len0, updates, prefix, m) <= m,
    ensures
        fill_upto(len0, updates, prefix, j) <= m,
    decreases j - m,
{
    if j == m + 1 {
    } else {
        lemma_fill_gap(len0, updates, prefix, m, j - 1);
    }
}

/// Consecutive pending keys starting at the old fill raise the fill step by
/// step: a gap-free update fills every slot up to and including `j`.
pub proof fn lemma_fill_steps(len0: int, updates: MaxMap, prefix: int, j: int)
    requires
        0 <= len0 <= j < PACKING_FACTOR,
        packed_update_ok(len0, updates, prefix),
        updates.has_key(prefix + j),
    ensures
        fill_upto(len0, updates, prefix, j + 1) == j + 1,
    decreases j,
{
    lemma_fill_bounds(len0, updates, prefix, j);
    if j == len0 {
        assert(fill_upto(len0, updates, prefix, j) == j);
    } else {
        assert(updates.has_key(prefix + (j - 1)));
        lemma_fill_steps(len0, updates, prefix, j - 1);
    }
}

/// Under a gap-free update, every pending key lies below the final fill.
pub proof fn lemma_fill_covers(len0: int, updates: MaxMap, prefix: int, j: int)
    requires
        0 <= len0,
        0 <= j < PACKING_FACTOR,
        packed_update_ok(len0, updates, prefix),
        updates.has_key(prefix + j),
    ensures
        packed_update_fill(len0, updates, prefix) > j,
{
    lemma_fill_bounds(len0, updates, prefix, PACKING_FACTOR as int);
    if j >= len0 {
        lemma_fill_steps(len0, updates, prefix, j);
        lemma_fill_monotone(len0, updates, prefix, j + 1, PACKING_FACTOR as int);
    }
}

impl PackedLeaf {
    pub open spec fn wf(&self) -> bool {
        self.values@.len() <= PACKING_FACTOR
    }

    /// The leaf's hashing chunk: the packed little-endian encodings of its
    /// values, padded with zero bytes.
    pub fn tree_hash(&self) -> (r: Hash256)
        requires
            self.wf(),
        ensures
            r.wf(),
            r@ == chunk_of(self.values@),
    {
        pack_chunk(&self.values)
    }

    pub fn empty() -> (r: Self)
        ensures
            r.wf(),
            r.values@ == Seq::<u64>::empty(),
    {
        let r = PackedLeaf { values: Vec::new() };
        proof {
            assert(r.values@ =~= Seq::<u64>::empty());
        }
        r
    }

    pub fn single(value: u64) -> (r: Self)
        ensures
            r.wf(),
            r.values@ == seq![value],
    {
        let mut values: Vec<u64> = Vec::new();
        values.push(value);
        let r = PackedLeaf { values };
        proof {
            assert(r.values@ =~= seq![value]);
        }
        r
    }

    pub fn repeat(value: u64, n: usize) -> (r: Self)
        requires
            n <= PACKING_FACTOR,
        ensures
            r.wf(),
            r.values@ == Seq::new(n as nat, |i: int| value),
    {
        let values: Vec<u64> = vec![value; n];
        let r = PackedLeaf { values };
        proof {
            assert(r.values@ =~= Seq::new(n as nat, |i: int| value));
        }
        r
    }

    /// Replace or append the value at `sub_index`, in place.
    pub fn insert_mut(&mut self, sub_index: usize, value: u64) -> (r: Result<(), Error>)
        requires
            old(self).wf(),
            sub_index < PACKING_FACTOR,
        ensures
            final(self).wf(),
            match r {
                Ok(()) => {
                    &&& sub_index <= old(self).values@.len()
                    &&& final(self).values@ == if sub_index < old(self).values@.len() {
                        old(self).values@.update(sub_index as int, value)
                    } else {
                        old(self).values@.push(value)
                    }
                },
                Err(e) => {
                    &&& sub_index > old(self).values@.len()
                    &&& final(self).values@ == old(self).values@
                    &&& e == (Error::PackedLeafOutOfBounds {
                        sub_index,
                        len: old(self).values@.len() as usize,
                    })
                },
            },
    {
        let len = self.values.len();
        if sub_index == len {
            self.values.push(value);
            Ok(())
        } else if sub_index < len {
            self.values[sub_index] = value;
            Ok(())
        } else {
            Err(Error::PackedLeafOutOfBounds { sub_index, len })
        }
    }

    /// Append a value to a leaf that is not yet full.
    pub fn push(&mut self, value: u64) -> (r: Result<(), Error>)
        requires
            old(self).wf(),
        ensures
            final(self).wf(),
            match r {
                Ok(()) => {
                    &&& old(self).values@.len() < PACKING_FACTOR
                    &&& final(self).values@ == old(self).values@.push(value)
                },
                Err(e) => {
                    &&& old(self).values@.len() == PACKING_FACTOR
                    &&& final(self).values@ == old(self).values@
                    &&& e == (Error::PackedLeafFull { len: PACKING_FACTOR })
                },
            },
    {
        if self.values.len() == PACKING_FACTOR {
            return Err(Error::PackedLeafFull { len: PACKING_FACTOR });
        }
        self.values.push(value);
        Ok(())
    }

    /// A copy of this leaf with slot `index % PACKING_FACTOR` replaced or appended.
    pub fn insert_at_index(&self, index: usize, value: u64) -> (r: Result<PackedLeaf, Error>)
        requires
            self.wf(),
        ensures
            match r {
                Ok(l) => {
                    &&& l.wf()
                    &&& (index % PACKING_FACTOR) <= self.values@.len()
                    &&& l.values@ == if (index % PACKING_FACTOR) < self.values@.len() {
                        self.values@.update((index % PACKING_FACTOR) as int, value)
                    } else {
                        self.values@.push(value)
                    }
                },
                Err(e) => {
                    &&& (index % PACKING_FACTOR) > self.values@.len()
                    &&& e == (Error::PackedLeafOutOfBounds {
                        sub_index: (index % PACKING_FACTOR) as usize,
                        len: self.values@.len() as usize,
                    })
                },
            },
    {
        let mut updated = PackedLeaf { values: clone_values(&self.values) };
        let sub_index = index % PACKING_FACTOR;
        match updated.insert_mut(sub_index, value) {
            Ok(()) => Ok(updated),
            Err(e) => Err(e),
        }
    }

    /// A copy of this leaf with all pending updates for `[prefix, prefix + 4)`
    /// applied in ascending slot order.
    pub fn update(&self, prefix: usize, updates: &MaxMap) -> (r: Result<PackedLeaf, Error>)
        requires
            self.wf(),
            prefix % PACKING_FACTOR == 0,
            prefix + PACKING_FACTOR <= usize::MAX,
        ensures
            match r {
                Ok(l) => {
                    &&& l.wf()
                    &&& packed_update_ok(self.values@.len() as int, *updates, prefix as int)
                    &&& l.values@ == packed_update_result(self.values@, *updates, prefix as int)
                },
                Err(e) => {
                    &&& !packed_update_ok(self.values@.len() as int, *updates, prefix as int)
                    &&& e matches Error::PackedLeafOutOfBounds { .. }
                },
            },
    {
        let ghost len0 = self.values@.len() as int;
        let ghost up = *updates;
        let ghost p = prefix as int;
        let mut updated = PackedLeaf { values: clone_values(&self.values) };
        let mut j: usize = 0;
        proof {
            lemma_fill_bounds(len0, up, p, 0);
        }
        while j < PACKING_FACTOR
            invariant
                self.wf(),
                j <= PACKING_FACTOR,
                prefix % PACKING_FACTOR == 0,
                prefix + PACKING_FACTOR <= usize::MAX,
                len0 == self.values@.len() as int,
                up == *updates,
                p == prefix as int,
                updated.values@.len() == fill_upto(len0, up, p, j as int),
                updated.wf(),
                forall|m: int|
                    0 <= m < updated.values@.len() ==> updated.values@[m] == (if m < j
                        && up.has_key(p + m) {
                        up.spec_val(p + m)
                    } else {
                        self.values@[m]
                    }),
                forall|m: int|
                    len0 <= m < updated.values@.len() ==> m < j && #[trigger] up.has_key(p + m),
                forall|m: int|
                    0 <= m < j && #[trigger] up.has_key(p + m) ==> m <= fill_upto(len0, up, p, m),
            decreases PACKING_FACTOR - j,
        {
            proof {
                lemma_fill_bounds(len0, up, p, j as int);
            }
            match updates.get(prefix + j) {
                Some(v) => {
                    let ghost pre = updated.values@;
                    match updated.insert_mut(j, v) {
                        Ok(()) => {
                            proof {
                                assert(fill_upto(len0, up, p, j + 1) == updated.values@.len());
                            }
                        },
                        Err(_) => {
                            proof {
                                // slot b is an unfilled gap below j
                                let b = pre.len() as int;
                                lemma_fill_bounds(len0, up, p, b);
                                assert(len0 <= b < j as int);
                                assert(up.has_key(p + (j as int)));
                                if up.has_key(p + b) {
                                    assert(b <= fill_upto(len0, up, p, b));
                                    assert(fill_upto(len0, up, p, b + 1) == b + 1);
                                    lemma_fill_monotone(len0, up, p, b + 1, j as int);
                                    assert(false);
                                }
                                if packed_update_ok(len0, up, p) {
                                    assert(up.has_key(p + b));
                                    assert(false);
                                }
                            }
                            return Err(
                                Error::PackedLeafOutOfBounds {
                                    sub_index: j,
                                    len: updated.values.len(),
                                },
                            );
                        },
                    }
                },
                None => {
                    proof {
                        assert(fill_upto(len0, up, p, j + 1) == fill_upto(len0, up, p, j as int));
                    }
                },
            }
            j = j + 1;
        }
        proof {
            // every applied key landed on the fill of its moment, so no key
            // jumped over an unfilled slot
            assert forall|jj: int, m: int|
                len0 <= m < jj < PACKING_FACTOR && #[trigger] up.has_key(p + jj) implies #[trigger] up.has_key(
                p + m,
            ) by {
                if !up.has_key(p + m) {
                    lemma_fill_bounds(len0, up, p, m);
                    lemma_fill_gap(len0, up, p, m, jj);
                    assert(jj <= fill_upto(len0, up, p, jj));
                    assert(false);
                }
            }
            assert(updated.values@ =~= packed_update_result(self.values@, up, p));
        }
        Ok(updated)
    }
}

/// Copy a vector of values.
fn clone_values(values: &Vec<u64>) -> (r: Vec<u64>)
    ensures
        r@ == values@,
{
    let mut r: Vec<u64> = Vec::new();
    let mut i: usize = 0;
    while i < values.len()
        invariant
            i <= values@.len(),
            r@ == values@.take(i as int),
        decreases values@.len() - i,
    {
        r.push(values[i]);
        proof {
            assert(r@ =~= values@.take(i + 1));
        }
        i = i + 1;
    }
    proof {
        assert(r@ =~= values@);
    }
    r
}

} // verus!
