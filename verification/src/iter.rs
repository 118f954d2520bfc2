//! Traversal of the stored values of a tree.

use vstd::prelude::*;

use crate::tree::{capacity, lemma_leaves_len, Tree};
use crate::utils::Length;
use crate::PACKING_DEPTH;
use std::sync::Arc;
use vstd::arithmetic::power2::pow2;

verus! {

/// The window of a subtree's leaf slots selected by the absolute range
/// `[start, end)`, as local slot bounds.
pub open spec fn window_lo(base: int, start: int) -> int {
    if start > base {
        start - base
    } else {
        0
    }
}

pub open spec fn window_hi(base: int, end: int, cap: int) -> int {
    if end - base < cap {
        end - base
    } else {
        cap
    }
}

/// The values of the absolute positions `[start, end)` that fall into a
/// subtree based at `base`.
pub open spec fn range_values(
    t: Tree,
    depth: nat,
    pd: nat,
    base: int,
    start: int,
    end: int,
) -> Seq<u64> {
    let cap = capacity(depth, pd) as int;
    let lo = window_lo(base, start);
    let hi = window_hi(base, end, cap);
    if lo >= hi {
        Seq::empty()
    } else {
        t.leaves(depth, pd).subrange(lo, hi)
    }
}

impl Tree {
    /// Append the values of positions `[start, end)` of this subtree to
    /// `out`, in ascending position order.
    ///
    /// The range must lie below the list length, so every visited position is
    /// materialized.
    #[verifier::rlimit(100)]
    pub fn collect_range(
        &self,
        depth: usize,
        packing_depth: usize,
        base: usize,
        start: usize,
        end: usize,
        out: &mut Vec<u64>,
        Ghost(len): Ghost<int>,
    )
        requires
            self.wf(depth as nat, packing_depth as nat),
            packing_depth == 0 || packing_depth == PACKING_DEPTH,
            depth + packing_depth < 64,
            self.proper(depth as nat, packing_depth as nat, len, base as int),
            end <= len,
            (base as int) + (capacity(depth as nat, packing_depth as nat) as int) <= usize::MAX,
        ensures
            final(out)@ == old(out)@ + range_values(
                *self,
                depth as nat,
                packing_depth as nat,
                base as int,
                start as int,
                end as int,
            ),
        decreases depth,
    {
        let ghost d = depth as nat;
        let ghost pd = packing_depth as nat;
        proof {
            lemma_leaves_len(self, d, pd);
            vstd::arithmetic::power2::lemma_pow2_pos((d + pd) as nat);
        }
        let cap64 = crate::tree::pow2_u64(depth + packing_depth);
        if end <= base || end <= start || (start as u64) >= (base as u64) + cap64 {
            proof {
                assert(final(out)@ =~= old(out)@ + range_values(
                    *self,
                    d,
                    pd,
                    base as int,
                    start as int,
                    end as int,
                ));
            }
            return ;
        }
        match self {
            Tree::Leaf(leaf) => {
                proof {
                    vstd::arithmetic::power2::lemma2_to64();
                }
                out.push(leaf.value);
                proof {
                    assert(range_values(*self, d, pd, base as int, start as int, end as int)
                        =~= seq![leaf.value]);
                }
            },
            Tree::PackedLeaf(packed) => {
                proof {
                    vstd::arithmetic::power2::lemma2_to64();
                }
                let lo = if start > base {
                    start - base
                } else {
                    0
                };
                let hi = if end - base < 4 {
                    end - base
                } else {
                    4
                };
                let ghost lo0 = lo as int;
                let mut j = lo;
                proof {
                    assert(hi <= packed.values@.len());
                    assert(lo < hi);
                    assert(out@ =~= old(out)@ + packed.values@.subrange(lo0, lo0));
                }
                while j < hi
                    invariant
                        0 <= lo0,
                        lo0 <= j as int <= hi as int,
                        hi <= packed.values@.len() <= 4,
                        out@ == old(out)@ + packed.values@.subrange(lo0, j as int),
                    decreases hi - j,
                {
                    let ghost pre = out@;
                    out.push(packed.values[j]);
                    proof {
                        assert(packed.values@.subrange(lo0, j + 1) =~= packed.values@.subrange(
                            lo0,
                            j as int,
                        ).push(packed.values@[j as int]));
                        assert(out@ == pre.push(packed.values@[j as int]));
                        assert(out@ =~= old(out)@ + packed.values@.subrange(lo0, j + 1));
                    }
                    j = j + 1;
                }
                proof {
                    assert(range_values(*self, d, pd, base as int, start as int, end as int)
                        =~= packed.values@.subrange(lo0, hi as int));
                }
            },
            Tree::Node { left, right } => {
                let new_depth = depth - 1;
                proof {
                    assert(capacity(d, pd) == 2 * pow2(((d - 1) as nat + pd) as nat)) by {
                        vstd::arithmetic::power2::lemma_pow2_adds(((d - 1) as nat + pd) as nat, 1);
                        vstd::arithmetic::power2::lemma2_to64();
                    }
                    lemma_leaves_len(&**left, (d - 1) as nat, pd);
                    lemma_leaves_len(&**right, (d - 1) as nat, pd);
                }
                let half64 = crate::tree::pow2_u64(new_depth + packing_depth);
                proof {
                    assert(half64 as int <= usize::MAX);
                }
                let half = half64 as usize;
                let ghost before = out@;
                left.collect_range(
                    new_depth,
                    packing_depth,
                    base,
                    start,
                    end,
                    out,
                    Ghost(len),
                );
                right.collect_range(
                    new_depth,
                    packing_depth,
                    base + half,
                    start,
                    end,
                    out,
                    Ghost(len),
                );
                proof {
                    assert(range_values(*self, d, pd, base as int, start as int, end as int)
                        =~= range_values(
                        **left,
                        (d - 1) as nat,
                        pd,
                        base as int,
                        start as int,
                        end as int,
                    ) + range_values(
                        **right,
                        (d - 1) as nat,
                        pd,
                        base as int + half as int,
                        start as int,
                        end as int,
                    ));
                    assert(final(out)@ =~= before + range_values(
                        *self,
                        d,
                        pd,
                        base as int,
                        start as int,
                        end as int,
                    ));
                }
            },
            Tree::Zero(_) => {
                proof {
                    assert(false);
                }
            },
        }
    }
}

/// Iterator over the values of a tree, yielding positions
/// `[index, length)` in order.
#[derive(Debug)]
pub struct Iter {
    pub values: Vec<u64>,
    pub index: usize,
}

impl Iter {
    /// The values this iterator has yet to yield.
    pub open spec fn remaining(&self) -> Seq<u64> {
        if self.index <= self.values@.len() {
            self.values@.skip(self.index as int)
        } else {
            Seq::empty()
        }
    }

    /// Iterator over positions `[index, length)` of the given tree.
    pub fn from_index(
        index: usize,
        root: &Arc<Tree>,
        depth: usize,
        packing_depth: usize,
        length: Length,
    ) -> (r: Iter)
        requires
            (**root).wf(depth as nat, packing_depth as nat),
            packing_depth == 0 || packing_depth == PACKING_DEPTH,
            depth + packing_depth < 64,
            (**root).proper(depth as nat, packing_depth as nat, length.0 as int, 0),
            capacity(depth as nat, packing_depth as nat) <= usize::MAX,
            length.0 <= capacity(depth as nat, packing_depth as nat),
        ensures
            r.remaining() == (**root).leaves(depth as nat, packing_depth as nat).subrange(
                if index <= length.0 {
                    index as int
                } else {
                    length.0 as int
                },
                length.0 as int,
            ),
    {
        let mut values: Vec<u64> = Vec::new();
        root.collect_range(
            depth,
            packing_depth,
            0,
            index,
            length.0,
            &mut values,
            Ghost(length.0 as int),
        );
        let r = Iter { values, index: 0 };
        proof {
            lemma_leaves_len(&**root, depth as nat, packing_depth as nat);
            assert(r.remaining() =~= r.values@);
            assert(r.values@ =~= (**root).leaves(depth as nat, packing_depth as nat).subrange(
                if index <= length.0 {
                    index as int
                } else {
                    length.0 as int
                },
                length.0 as int,
            ));
        }
        r
    }

    /// The next value, advancing the iterator.
    pub fn next(&mut self) -> (r: Option<u64>)
        ensures
            match r {
                Some(v) => old(self).remaining().len() > 0 && v == old(self).remaining()[0]
                    && final(self).remaining() == old(self).remaining().skip(1),
                None => old(self).remaining().len() == 0 && final(self).remaining() == old(
                    self,
                ).remaining(),
            },
    {
        if self.index < self.values.len() {
            let v = self.values[self.index];
            self.index = self.index + 1;
            proof {
                assert(self.remaining() =~= old(self).remaining().skip(1));
                assert(v == old(self).remaining()[0]);
            }
            Some(v)
        } else {
            None
        }
    }
}

} // verus!
