//! O(n) bulk construction of a tree from a stream of values.
//!
//! The builder keeps a merge stack of finished subtrees tagged with their
//! depth and fill.  Each push appends a leaf (or a whole subtree) and then
//! merges equal-depth complete neighbours, mirroring binary carry
//! propagation; `finish` pads the remainder with zero subtrees.

use vstd::prelude::*;

use crate::error::Error;
use crate::packed_leaf::PackedLeaf;
use crate::tree::{
    capacity, leaves_of, lemma_leaves_len, lemma_proper_full_region, lemma_proper_shift, pow2_u64,
    Tree,
};
use crate::utils::{Length, MaybeArced};
use crate::{MAX_TREE_DEPTH, PACKING_DEPTH, PACKING_FACTOR};
use std::sync::Arc;
use vstd::arithmetic::power2::pow2;

verus! {

/// Number of values covered by the first `j` stack entries.
pub open spec fn sum_lens(stack: Seq<(MaybeArced<Tree>, usize, usize)>, j: int) -> int
    decreases j,
{
    if j <= 0 {
        0
    } else {
        sum_lens(stack, j - 1) + stack[j - 1].2
    }
}

/// A stack entry is a well-formed subtree of its tagged depth, densely
/// filled with its tagged number of values, which are the pushed values
/// starting at offset `off`.
pub open spec fn entry_ok(e: (MaybeArced<Tree>, usize, usize), vals: Seq<u64>, off: int) -> bool {
    let t = e.0.value();
    let d = e.1 as nat;
    let n = e.2 as int;
    &&& t.wf(d, PACKING_DEPTH as nat)
    &&& 1 <= n <= capacity(d, PACKING_DEPTH as nat)
    &&& t.proper(d, PACKING_DEPTH as nat, n, 0)
    &&& 0 <= off
    &&& off + n <= vals.len()
    &&& t.leaves(d, PACKING_DEPTH as nat).subrange(0, n) == vals.subrange(off, off + n)
}

/// Whether the entry holds as many values as its subtree can.
pub open spec fn entry_full(e: (MaybeArced<Tree>, usize, usize)) -> bool {
    e.2 as int == capacity(e.1 as nat, PACKING_DEPTH as nat) as int
}

/// Shared part of the merge-stack invariant: the entries cover all pushed
/// values in order, every entry but the last is complete, and depths
/// strictly decrease, except that the last two entries may share a depth.
pub open spec fn stack_ok_loose(
    stack: Seq<(MaybeArced<Tree>, usize, usize)>,
    vals: Seq<u64>,
    depth: int,
) -> bool {
    &&& sum_lens(stack, stack.len() as int) == vals.len()
    &&& forall|j: int|
        0 <= j < stack.len() ==> entry_ok(#[trigger] stack[j], vals, sum_lens(stack, j))
            && stack[j].1 <= depth
    &&& forall|j: int| 0 <= j < stack.len() - 1 ==> entry_full(#[trigger] stack[j])
    &&& forall|j: int| 0 <= j < stack.len() - 2 ==> (#[trigger] stack[j].1) > stack[j + 1].1
    &&& stack.len() >= 2 ==> stack[stack.len() - 2].1 >= stack[stack.len() - 1].1
}

/// Merge-stack invariant between operations: as `stack_ok_loose`, and the
/// last two entries share a depth only while the top one is still open.
pub open spec fn stack_ok(
    stack: Seq<(MaybeArced<Tree>, usize, usize)>,
    vals: Seq<u64>,
    depth: int,
) -> bool {
    &&& stack_ok_loose(stack, vals, depth)
    &&& stack.len() >= 2 && stack[stack.len() - 2].1 == stack[stack.len() - 1].1 ==> !entry_full(
        stack[stack.len() - 1],
    )
}

/// Prefix sums are nonnegative and bounded by the total.
pub proof fn lemma_sum_lens_bounds(s: Seq<(MaybeArced<Tree>, usize, usize)>)
    ensures
        forall|j: int| 0 <= j <= s.len() ==> 0 <= #[trigger] sum_lens(s, j) <= sum_lens(
            s,
            s.len() as int,
        ),
{
    assert forall|j: int| 0 <= j <= s.len() implies 0 <= #[trigger] sum_lens(s, j) <= sum_lens(
        s,
        s.len() as int,
    ) by {
        lemma_sum_lens_nonneg(s, j);
        lemma_sum_lens_mono(s, j, s.len() as int);
    }
}

proof fn lemma_sum_lens_nonneg(s: Seq<(MaybeArced<Tree>, usize, usize)>, j: int)
    ensures
        sum_lens(s, j) >= 0,
    decreases j,
{
    if j > 0 {
        lemma_sum_lens_nonneg(s, j - 1);
    }
}

proof fn lemma_sum_lens_mono(s: Seq<(MaybeArced<Tree>, usize, usize)>, j1: int, j2: int)
    requires
        0 <= j1 <= j2,
    ensures
        sum_lens(s, j1) <= sum_lens(s, j2),
    decreases j2 - j1,
{
    if j1 < j2 {
        lemma_sum_lens_mono(s, j1, j2 - 1);
    }
}

/// Stacks that agree on a prefix have the same prefix sums.
pub proof fn lemma_sum_lens_agree(
    s1: Seq<(MaybeArced<Tree>, usize, usize)>,
    s2: Seq<(MaybeArced<Tree>, usize, usize)>,
    j: int,
)
    requires
        0 <= j <= s1.len(),
        j <= s2.len(),
        forall|m: int| 0 <= m < j ==> s1[m] == s2[m],
    ensures
        sum_lens(s1, j) == sum_lens(s2, j),
    decreases j,
{
    if j > 0 {
        lemma_sum_lens_agree(s1, s2, j - 1);
    }
}

/// Merging the two topmost entries (equal depth, both complete below the
/// merge) yields a stack of the same coverage with one node one level up.
#[verifier::rlimit(100)]
pub proof fn lemma_merge_step(
    s: Seq<(MaybeArced<Tree>, usize, usize)>,
    below: (MaybeArced<Tree>, usize, usize),
    cur: (MaybeArced<Tree>, usize, usize),
    merged: (MaybeArced<Tree>, usize, usize),
    la: Arc<Tree>,
    ra: Arc<Tree>,
    vals: Seq<u64>,
    depth: int,
)
    requires
        stack_ok_loose(s.push(below).push(cur), vals, depth),
        forall|j: int| 0 <= j < s.len() + 1 ==> entry_full(#[trigger] s.push(below)[j]),
        below.1 == cur.1,
        vals.len() <= capacity(depth as nat, PACKING_DEPTH as nat),
        0 <= depth,
        merged.0.value() == (Tree::Node { left: la, right: ra }),
        *la == below.0.value(),
        *ra == cur.0.value(),
        merged.1 as int == below.1 + 1,
        merged.2 as int == below.2 + cur.2,
    ensures
        stack_ok_loose(s.push(merged), vals, depth),
        forall|j: int| 0 <= j < s.len() ==> entry_full(#[trigger] s[j]),
        entry_full(cur) ==> entry_full(merged),
{
    let pd = PACKING_DEPTH as nat;
    let combined = s.push(below).push(cur);
    let k = s.len() as int;
    let off_b = sum_lens(combined, k);
    let off_c = off_b + below.2;
    let dd = below.1 as nat;
    let cap_d = capacity(dd, pd) as int;
    let below_t = below.0.value();
    let cur_t = cur.0.value();
    let merged_t = merged.0.value();
    let n2 = below.2 + cur.2;
    assert(entry_ok(combined[k], vals, off_b));
    assert(entry_ok(combined[k + 1], vals, sum_lens(combined, k + 1)));
    assert(entry_full(combined[k]));
    assert(below.2 as int == cap_d);
    assert(sum_lens(combined, k + 1) == off_c);
    assert(capacity((dd + 1) as nat, pd) == 2 * capacity(dd, pd)) by {
        vstd::arithmetic::power2::lemma_pow2_adds((dd + pd) as nat, 1);
        vstd::arithmetic::power2::lemma2_to64();
    }
    lemma_leaves_len(&below_t, dd, pd);
    lemma_leaves_len(&cur_t, dd, pd);
    assert(merged_t.wf((dd + 1) as nat, pd));
    lemma_proper_full_region(&below_t, dd, pd, cap_d, 0, n2 as int);
    lemma_proper_shift(&cur_t, dd, pd, cur.2 as int, 0, cap_d);
    assert(merged_t.proper((dd + 1) as nat, pd, n2 as int, 0));
    assert(merged_t.leaves((dd + 1) as nat, pd).subrange(0, n2 as int) =~= vals.subrange(
        off_b,
        off_b + n2,
    )) by {
        assert(merged_t.leaves((dd + 1) as nat, pd) == below_t.leaves(dd, pd) + cur_t.leaves(
            dd,
            pd,
        ));
        assert(below_t.leaves(dd, pd).subrange(0, cap_d) == vals.subrange(off_b, off_b + cap_d));
        assert(cur_t.leaves(dd, pd).subrange(0, cur.2 as int) == vals.subrange(
            off_c,
            off_c + cur.2,
        ));
        assert forall|i: int| 0 <= i < n2 implies #[trigger] merged_t.leaves(
            (dd + 1) as nat,
            pd,
        )[i] == vals[off_b + i] by {
            if i < cap_d {
                assert(below_t.leaves(dd, pd).subrange(0, cap_d)[i] == vals.subrange(
                    off_b,
                    off_b + cap_d,
                )[i]);
            } else {
                assert(cur_t.leaves(dd, pd).subrange(0, cur.2 as int)[i - cap_d] == vals.subrange(
                    off_c,
                    off_c + cur.2,
                )[i - cap_d]);
            }
        }
    }
    // depth of the merged node stays within the configured bound
    if k > 0 {
        assert(combined[k - 1].1 > combined[k].1);
    } else {
        assert(off_b == 0);
        if dd + 1 > depth {
            vstd::arithmetic::power2::lemma_pow2_strictly_increases(
                (depth as nat + pd) as nat,
                ((dd + 1) + pd) as nat,
            );
            assert(false);
        }
    }
    let s2 = s.push(merged);
    lemma_sum_lens_agree(combined, s2, k);
    assert(sum_lens(s2, s2.len() as int) == vals.len());
    assert forall|j: int| 0 <= j < s2.len() implies entry_ok(#[trigger] s2[j], vals, sum_lens(
        s2,
        j,
    )) && s2[j].1 <= depth by {
        if j < k {
            assert(entry_ok(combined[j], vals, sum_lens(combined, j)));
            assert(combined[j] == s2[j]);
            lemma_sum_lens_agree(combined, s2, j);
        }
    }
    assert forall|j: int| 0 <= j < s.len() implies entry_full(#[trigger] s[j]) by {
        assert(s.push(below)[j] == s[j]);
    }
    assert forall|j: int| 0 <= j < s2.len() - 1 implies entry_full(#[trigger] s2[j]) by {
        assert(s2[j] == s[j]);
    }
    assert forall|j: int| 0 <= j < s2.len() - 2 implies (#[trigger] s2[j].1) > s2[j + 1].1 by {
        assert(s2[j] == combined[j] && s2[j + 1] == combined[j + 1]);
        assert(combined[j].1 > combined[j + 1].1);
    }
    if s2.len() >= 2 {
        assert(s2[s2.len() - 2] == combined[k - 1]);
        assert(combined[k - 1].1 > combined[k].1);
    }
    assert(stack_ok_loose(s2, vals, depth));
}

/// Re-wrapping the top entry's subtree handle preserves the invariant, as
/// long as the held tree value is unchanged.
pub proof fn lemma_rewrap_top(
    s: Seq<(MaybeArced<Tree>, usize, usize)>,
    e0: (MaybeArced<Tree>, usize, usize),
    e1: (MaybeArced<Tree>, usize, usize),
    vals: Seq<u64>,
    depth: int,
)
    requires
        stack_ok_loose(s.push(e0), vals, depth),
        e1.0.value() == e0.0.value(),
        e1.1 == e0.1,
        e1.2 == e0.2,
    ensures
        stack_ok_loose(s.push(e1), vals, depth),
{
    let c0 = s.push(e0);
    let c1 = s.push(e1);
    assert forall|j: int| 0 <= j < c1.len() implies entry_ok(#[trigger] c1[j], vals, sum_lens(
        c1,
        j,
    )) && c1[j].1 <= depth by {
        lemma_sum_lens_agree(c0, c1, j);
        assert(entry_ok(c0[j], vals, sum_lens(c0, j)));
        if j < c1.len() - 1 {
            assert(c1[j] == c0[j]);
        }
    }
    lemma_sum_lens_agree(c0, c1, c0.len() - 1);
    assert(sum_lens(c1, c1.len() as int) == sum_lens(c0, c0.len() as int));
    assert forall|j: int| 0 <= j < c1.len() - 1 implies entry_full(#[trigger] c1[j]) by {
        assert(c1[j] == c0[j]);
    }
    assert forall|j: int| 0 <= j < c1.len() - 2 implies (#[trigger] c1[j].1) > c1[j + 1].1 by {
        assert(c1[j] == c0[j] && c1[j + 1] == c0[j + 1]);
    }
    if c1.len() >= 2 {
        assert(c1[c1.len() - 2] == c0[c0.len() - 2]);
    }
}

/// Builder for a tree of the configured depth.
pub struct Builder {
    /// Merge stack of `(subtree, depth, fill)` entries.
    pub stack: Vec<(MaybeArced<Tree>, usize, usize)>,
    /// The depth of the tree excluding the packing depth.
    pub depth: usize,
    /// The level (depth counted from the values) at which whole subtrees are
    /// pushed by `push_node`.
    pub level: usize,
    /// Number of values pushed so far.
    pub length: Length,
    /// Cached capacity: `2^(depth + packing_depth)`.
    pub capacity: u64,
    /// All values pushed so far.
    pub vals: Ghost<Seq<u64>>,
}

impl Builder {
    /// Fixed configuration facts.
    pub open spec fn inv_config(self) -> bool {
        &&& self.depth + PACKING_DEPTH <= MAX_TREE_DEPTH
        &&& self.capacity == capacity(self.depth as nat, PACKING_DEPTH as nat)
        &&& self.capacity <= usize::MAX as u64
        &&& self.length.0 as int == self.vals@.len()
        &&& self.vals@.len() <= self.capacity
    }

    /// Builder invariant.
    pub open spec fn inv(self) -> bool {
        &&& self.inv_config()
        &&& stack_ok(self.stack@, self.vals@, self.depth as int)
    }

    /// Whether a plain value may be pushed next: either a new packed leaf
    /// starts here, or the top of the stack is the open packed leaf.
    pub open spec fn value_pushable(self) -> bool {
        ||| self.length.0 % PACKING_FACTOR == 0
        ||| {
            &&& self.stack@.len() > 0
            &&& self.stack@.last().1 == 0
            &&& self.stack@.last().2 == self.length.0 % PACKING_FACTOR
            &&& match self.stack@.last().0 {
                MaybeArced::Unarced(t) => t is PackedLeaf,
                MaybeArced::Arced(_) => false,
            }
        }
    }

    /// Whether a whole subtree may be pushed next: the top of the stack is
    /// complete.
    pub open spec fn node_pushable(self) -> bool {
        self.stack@.len() == 0 || entry_full(self.stack@.last())
    }

    pub fn new(depth: usize, level: usize) -> (r: Result<Builder, Error>)
        ensures
            match r {
                Ok(b) => {
                    &&& depth + PACKING_DEPTH <= MAX_TREE_DEPTH
                    &&& b.inv()
                    &&& b.vals@ == Seq::<u64>::empty()
                    &&& b.depth == depth
                    &&& b.level == level
                    &&& b.length.0 == 0
                    &&& b.value_pushable()
                    &&& b.node_pushable()
                },
                Err(e) => {
                    &&& depth + PACKING_DEPTH > MAX_TREE_DEPTH || capacity(
                        depth as nat,
                        PACKING_DEPTH as nat,
                    ) > usize::MAX
                    &&& e == (Error::BuilderInvalidDepth { depth })
                },
            },
    {
        if depth > MAX_TREE_DEPTH - PACKING_DEPTH {
            return Err(Error::BuilderInvalidDepth { depth });
        }
        let cap = pow2_u64(depth + PACKING_DEPTH);
        if cap > (usize::MAX as u64) {
            Err(Error::BuilderInvalidDepth { depth })
        } else {
            let b = Builder {
                stack: Vec::new(),
                depth,
                level,
                length: Length(0),
                capacity: cap,
                vals: Ghost(Seq::empty()),
            };
            Ok(b)
        }
    }

    /// Merge a pending entry into the stack: while the entry is complete and
    /// the stack top has the same depth, the two become one node one level
    /// up; finally the entry is pushed.
    fn settle(&mut self, entry: (MaybeArced<Tree>, usize, usize))
        requires
            old(self).inv_config(),
            stack_ok_loose(
                old(self).stack@.push(entry),
                old(self).vals@,
                old(self).depth as int,
            ),
            forall|j: int|
                0 <= j < old(self).stack@.len() ==> entry_full(#[trigger] old(self).stack@[j]),
        ensures
            final(self).inv(),
            final(self).depth == old(self).depth,
            final(self).level == old(self).level,
            final(self).length == old(self).length,
            final(self).capacity == old(self).capacity,
            final(self).vals == old(self).vals,
            final(self).stack@.len() > 0,
            !entry_full(entry) ==> final(self).stack@.last() == entry,
            entry_full(entry) ==> entry_full(final(self).stack@.last()),
            final(self).stack@.last().1 >= entry.1,
    {
        let ghost vals = self.vals@;
        let ghost depth_bound = self.depth as int;
        let (mut cur_m, mut cur_d, mut cur_n) = entry;
        loop
            invariant
                self.inv_config(),
                self.vals@ == vals,
                self.depth as int == depth_bound,
                self.depth == old(self).depth,
                self.level == old(self).level,
                self.length == old(self).length,
                self.capacity == old(self).capacity,
                self.vals == old(self).vals,
                stack_ok_loose(self.stack@.push((cur_m, cur_d, cur_n)), vals, depth_bound),
                forall|j: int| 0 <= j < self.stack@.len() ==> entry_full(#[trigger] self.stack@[j]),
                !entry_full(entry) ==> (cur_m, cur_d, cur_n) == entry,
                entry_full(entry) ==> entry_full((cur_m, cur_d, cur_n)),
                cur_d >= entry.1,
            ensures
                self.inv_config(),
                self.vals@ == vals,
                self.depth == old(self).depth,
                self.level == old(self).level,
                self.length == old(self).length,
                self.capacity == old(self).capacity,
                self.vals == old(self).vals,
                stack_ok_loose(self.stack@.push((cur_m, cur_d, cur_n)), vals, depth_bound),
                forall|j: int| 0 <= j < self.stack@.len() ==> entry_full(#[trigger] self.stack@[j]),
                !entry_full(entry) ==> (cur_m, cur_d, cur_n) == entry,
                entry_full(entry) ==> entry_full((cur_m, cur_d, cur_n)),
                cur_d >= entry.1,
                self.stack@.len() == 0 || self.stack@.last().1 != cur_d || !entry_full(
                    (cur_m, cur_d, cur_n),
                ),
            decreases self.stack@.len(),
        {
            let ghost combined = self.stack@.push((cur_m, cur_d, cur_n));
            if self.stack.len() == 0 {
                break ;
            }
            let top_index = self.stack.len() - 1;
            let below_d = self.stack[top_index].1;
            if below_d != cur_d {
                break ;
            }
            proof {
                assert(entry_ok(combined[combined.len() - 1], vals, sum_lens(
                    combined,
                    combined.len() - 1,
                )));
            }
            let cap_cur = pow2_u64(cur_d + PACKING_DEPTH);
            if (cur_n as u64) != cap_cur {
                break ;
            }
            // merge: the stack top becomes the left child of the pending entry
            let below = self.stack.pop().unwrap();
            let (below_m, below_d2, below_n) = below;
            let ghost below_entry = (below_m, below_d2, below_n);
            let ghost cur_entry = (cur_m, cur_d, cur_n);
            let left_arc = below_m.arced();
            let right_arc = cur_m.arced();
            let ghost la = left_arc;
            let ghost ra = right_arc;
            let merged = Tree::node_unboxed(left_arc, right_arc);
            let new_n = below_n + cur_n;
            let new_d = cur_d + 1;
            proof {
                assert(combined == self.stack@.push(below_entry).push(cur_entry));
                lemma_merge_step(
                    self.stack@,
                    below_entry,
                    cur_entry,
                    (MaybeArced::Unarced(merged), new_d, new_n),
                    la,
                    ra,
                    vals,
                    depth_bound,
                );
            }
            cur_m = MaybeArced::Unarced(merged);
            cur_d = new_d;
            cur_n = new_n;
        }
        proof {
            if self.stack@.len() > 0 {
                assert(self.stack@.push((cur_m, cur_d, cur_n)).last().1 == cur_d);
                assert(self.stack@.push((cur_m, cur_d, cur_n))[self.stack@.len() - 1]
                    == self.stack@.last());
            }
        }
        self.stack.push((cur_m, cur_d, cur_n));
    }
}

/// Extending the pushed values does not disturb existing stack entries.
pub proof fn lemma_entry_ok_extend(
    e: (MaybeArced<Tree>, usize, usize),
    vals: Seq<u64>,
    vals2: Seq<u64>,
    off: int,
)
    requires
        entry_ok(e, vals, off),
        vals2.len() >= vals.len(),
        vals2.subrange(0, vals.len() as int) == vals,
    ensures
        entry_ok(e, vals2, off),
{
    let n = e.2 as int;
    assert(vals2.subrange(off, off + n) =~= vals.subrange(off, off + n)) by {
        assert forall|i: int| 0 <= i < n implies #[trigger] vals2.subrange(off, off + n)[i]
            == vals.subrange(off, off + n)[i] by {
            assert(vals.subrange(0, vals.len() as int)[off + i] == vals2.subrange(
                0,
                vals.len() as int,
            )[off + i]);
        }
    }
}

/// Extending the pushed values keeps every stack entry valid.
pub proof fn lemma_stack_extend(
    s: Seq<(MaybeArced<Tree>, usize, usize)>,
    vals: Seq<u64>,
    vals2: Seq<u64>,
)
    requires
        forall|j: int| 0 <= j < s.len() ==> entry_ok(#[trigger] s[j], vals, sum_lens(s, j)),
        vals2.len() >= vals.len(),
        vals2.subrange(0, vals.len() as int) == vals,
    ensures
        forall|j: int| 0 <= j < s.len() ==> entry_ok(#[trigger] s[j], vals2, sum_lens(s, j)),
{
    assert forall|j: int| 0 <= j < s.len() implies entry_ok(
        #[trigger] s[j],
        vals2,
        sum_lens(s, j),
    ) by {
        lemma_entry_ok_extend(s[j], vals, vals2, sum_lens(s, j));
    }
}

/// A packed leaf whose values are the tail of the pushed values is a valid
/// open stack entry at depth 0.
pub proof fn lemma_leaf_entry(leaf: PackedLeaf, vals2: Seq<u64>, off: int, n: usize)
    requires
        1 <= n <= PACKING_FACTOR,
        leaf.values@.len() == n,
        0 <= off,
        off + n <= vals2.len(),
        leaf.values@ == vals2.subrange(off, off + n),
    ensures
        entry_ok((MaybeArced::Unarced(Tree::PackedLeaf(leaf)), 0usize, n), vals2, off),
{
    let pd = PACKING_DEPTH as nat;
    let t = Tree::PackedLeaf(leaf);
    vstd::arithmetic::power2::lemma2_to64();
    assert(t.wf(0, pd));
    assert(t.proper(0, pd, n as int, 0));
    assert(t.leaves(0, pd).subrange(0, n as int) =~= leaf.values@);
}

/// Appending a fresh valid entry to a stack of complete, strictly
/// descending entries keeps the loose stack invariant.
pub proof fn lemma_append_entry(
    s: Seq<(MaybeArced<Tree>, usize, usize)>,
    vals2: Seq<u64>,
    entry: (MaybeArced<Tree>, usize, usize),
    depth: int,
)
    requires
        forall|j: int|
            0 <= j < s.len() ==> entry_ok(#[trigger] s[j], vals2, sum_lens(s, j)) && s[j].1
                <= depth,
        forall|j: int| 0 <= j < s.len() ==> entry_full(#[trigger] s[j]),
        forall|j: int| 0 <= j < s.len() - 1 ==> (#[trigger] s[j].1) > s[j + 1].1,
        entry_ok(entry, vals2, sum_lens(s, s.len() as int)),
        sum_lens(s, s.len() as int) + entry.2 == vals2.len(),
        entry.1 <= depth,
        s.len() > 0 ==> s.last().1 >= entry.1,
    ensures
        stack_ok_loose(s.push(entry), vals2, depth),
{
    let c = s.push(entry);
    let k = s.len() as int;
    lemma_sum_lens_agree(s, c, k);
    assert forall|j: int| 0 <= j < c.len() implies entry_ok(#[trigger] c[j], vals2, sum_lens(c, j))
        && c[j].1 <= depth by {
        if j < k {
            assert(c[j] == s[j]);
            assert(entry_ok(s[j], vals2, sum_lens(s, j)));
            lemma_sum_lens_agree(s, c, j);
        }
    }
    assert forall|j: int| 0 <= j < c.len() - 1 implies entry_full(#[trigger] c[j]) by {
        assert(c[j] == s[j]);
    }
    assert forall|j: int| 0 <= j < c.len() - 2 implies (#[trigger] c[j].1) > c[j + 1].1 by {
        assert(c[j] == s[j] && c[j + 1] == s[j + 1]);
    }
    if c.len() >= 2 {
        assert(c[c.len() - 2] == s.last());
    }
}


/// A fresh single-value packed leaf is a valid entry on top of a settled
/// stack, with the new value appended.
#[verifier::rlimit(100)]
pub proof fn lemma_push_fresh_entry(
    s: Seq<(MaybeArced<Tree>, usize, usize)>,
    vals: Seq<u64>,
    value: u64,
    leaf: PackedLeaf,
    depth: int,
)
    requires
        stack_ok(s, vals, depth),
        s.len() > 0 ==> entry_full(s.last()),
        leaf.values@ == seq![value],
        0 <= depth,
    ensures
        stack_ok_loose(
            s.push((MaybeArced::Unarced(Tree::PackedLeaf(leaf)), 0usize, 1usize)),
            vals.push(value),
            depth,
        ),
        forall|j: int| 0 <= j < s.len() ==> entry_full(#[trigger] s[j]),
{
    let vals2 = vals.push(value);
    let entry = (MaybeArced::Unarced(Tree::PackedLeaf(leaf)), 0usize, 1usize);
    let k = s.len() as int;
    let off = sum_lens(s, k);
    assert(vals2.subrange(0, vals.len() as int) =~= vals);
    lemma_stack_extend(s, vals, vals2);
    assert(leaf.values@ =~= vals2.subrange(off, off + 1));
    lemma_leaf_entry(leaf, vals2, off, 1);
    if k > 0 {
        assert(entry_ok(s.last(), vals, sum_lens(s, k - 1)));
    }
    lemma_append_entry(s, vals2, entry, depth);
}

/// A whole pre-built subtree is a valid entry on top of a settled stack,
/// with its stored values appended.
#[verifier::rlimit(100)]
pub proof fn lemma_push_node_entry(
    s: Seq<(MaybeArced<Tree>, usize, usize)>,
    vals: Seq<u64>,
    node: Arc<Tree>,
    td: usize,
    len: usize,
    depth: int,
)
    requires
        stack_ok(s, vals, depth),
        s.len() > 0 ==> entry_full(s.last()),
        s.len() > 0 ==> s.last().1 >= td,
        (*node).wf(td as nat, PACKING_DEPTH as nat),
        (*node).proper(td as nat, PACKING_DEPTH as nat, len as int, 0),
        1 <= len,
        len as int <= capacity(td as nat, PACKING_DEPTH as nat),
        td <= depth,
        0 <= depth,
    ensures
        stack_ok_loose(
            s.push((MaybeArced::Arced(node), td, len)),
            vals + (*node).leaves(td as nat, PACKING_DEPTH as nat).subrange(0, len as int),
            depth,
        ),
{
    let pd = PACKING_DEPTH as nat;
    let vals2 = vals + leaves_of(&node, td as nat, pd).subrange(0, len as int);
    let entry = (MaybeArced::Arced(node), td, len);
    let k = s.len() as int;
    let off = sum_lens(s, k);
    assert(vals2.subrange(0, vals.len() as int) =~= vals);
    lemma_stack_extend(s, vals, vals2);
    lemma_leaves_len(&*node, td as nat, pd);
    assert(leaves_of(&node, td as nat, pd).subrange(0, len as int) =~= vals2.subrange(
        off,
        off + len,
    ));
    assert(entry_ok(entry, vals2, off));
    if k > 0 {
        assert(entry_ok(s.last(), vals, sum_lens(s, k - 1)));
    }
    lemma_append_entry(s, vals2, entry, depth);
}

impl Builder {
    /// Append one value.
    ///
    /// Starts a fresh packed leaf on a packing boundary, otherwise folds the
    /// value into the open leaf on top of the stack, then merges completed
    /// neighbours up the spine.
    /// Append one value.
    ///
    /// Starts a fresh packed leaf on a packing boundary, otherwise folds the
    /// value into the open leaf on top of the stack, then merges completed
    /// neighbours up the spine.
    pub fn push(&mut self, value: u64) -> (r: Result<(), Error>)
        requires
            old(self).inv(),
            old(self).value_pushable(),
            old(self).length.0 % PACKING_FACTOR == 0 ==> old(self).node_pushable(),
        ensures
            final(self).inv(),
            final(self).depth == old(self).depth,
            final(self).level == old(self).level,
            final(self).capacity == old(self).capacity,
            match r {
                Ok(()) => {
                    &&& old(self).vals@.len() < old(self).capacity
                    &&& final(self).vals@ == old(self).vals@.push(value)
                    &&& final(self).length.0 == old(self).length.0 + 1
                    &&& final(self).value_pushable()
                    &&& final(self).length.0 % PACKING_FACTOR == 0 ==> final(self).node_pushable()
                },
                Err(e) => {
                    &&& old(self).vals@.len() == old(self).capacity
                    &&& e == Error::BuilderFull
                    &&& *final(self) == *old(self)
                },
            },
    {
        if (self.length.as_usize() as u64) == self.capacity {
            return Err(Error::BuilderFull);
        }
        let index = self.length.as_usize();
        if index % PACKING_FACTOR == 0 {
            self.push_fresh(value)
        } else {
            self.push_fold(value)
        }
    }

    /// Start a new packed leaf holding `value`.
    #[verifier::rlimit(100)]
    fn push_fresh(&mut self, value: u64) -> (r: Result<(), Error>)
        requires
            old(self).inv(),
            old(self).length.0 % PACKING_FACTOR == 0,
            old(self).node_pushable(),
            old(self).vals@.len() < old(self).capacity,
        ensures
            final(self).inv(),
            final(self).depth == old(self).depth,
            final(self).level == old(self).level,
            final(self).capacity == old(self).capacity,
            r is Ok,
            final(self).vals@ == old(self).vals@.push(value),
            final(self).length.0 == old(self).length.0 + 1,
            final(self).value_pushable(),
            final(self).length.0 % PACKING_FACTOR == 0 ==> final(self).node_pushable(),
    {
        let ghost old_vals = self.vals@;
        let ghost new_vals = self.vals@.push(value);
        let ghost depth_bound = self.depth as int;
        let leaf = PackedLeaf::single(value);
        let entry = (MaybeArced::Unarced(Tree::PackedLeaf(leaf)), 0usize, 1usize);
        *self.length.as_mut() += 1;
        proof {
            self.vals@ = new_vals;
        }
        proof {
            lemma_push_fresh_entry(self.stack@, old_vals, value, leaf, depth_bound);
        }
        self.settle(entry);
        proof {
            vstd::arithmetic::power2::lemma2_to64();
            assert(capacity(0, PACKING_DEPTH as nat) == 4);
            assert(!entry_full(entry));
            assert(self.stack@.last() == entry);
            let l0 = old(self).length.0 as int;
            assert(self.length.0 as int == l0 + 1);
            assert((l0 + 1) % (PACKING_FACTOR as int) == 1) by (nonlinear_arith)
                requires
                    l0 % (PACKING_FACTOR as int) == 0,
                    l0 >= 0,
                    PACKING_FACTOR == 4,
            ;
            assert(self.value_pushable());
        }
        Ok(())
    }

    /// Fold `value` into the open packed leaf on top of the stack.
    #[verifier::rlimit(100)]
    fn push_fold(&mut self, value: u64) -> (r: Result<(), Error>)
        requires
            old(self).inv(),
            old(self).value_pushable(),
            old(self).length.0 % PACKING_FACTOR != 0,
            old(self).vals@.len() < old(self).capacity,
        ensures
            final(self).inv(),
            final(self).depth == old(self).depth,
            final(self).level == old(self).level,
            final(self).capacity == old(self).capacity,
            r is Ok,
            final(self).vals@ == old(self).vals@.push(value),
            final(self).length.0 == old(self).length.0 + 1,
            final(self).value_pushable(),
            final(self).length.0 % PACKING_FACTOR == 0 ==> final(self).node_pushable(),
    {
        let ghost old_vals = self.vals@;
        let ghost new_vals = self.vals@.push(value);
        let ghost depth_bound = self.depth as int;
        let top = match self.stack.pop() {
            Some(t) => t,
            None => {
                proof {
                    assert(false);
                }
                return Err(Error::BuilderExpectedLeaf);
            },
        };
        let (top_m, top_d, top_n) = top;
        match top_m {
            MaybeArced::Unarced(Tree::PackedLeaf(mut leaf)) => {
                let ghost orig_values = leaf.values@;
                proof {
                    assert(entry_ok(
                        old(self).stack@.last(),
                        old_vals,
                        sum_lens(old(self).stack@, old(self).stack@.len() - 1),
                    ));
                    vstd::arithmetic::power2::lemma2_to64();
                }
                match leaf.push(value) {
                    Ok(()) => {},
                    Err(_) => {
                        proof {
                            assert(false);
                        }
                        return Err(Error::BuilderExpectedLeaf);
                    },
                }
                let entry = (MaybeArced::Unarced(Tree::PackedLeaf(leaf)), 0usize, top_n + 1);
                *self.length.as_mut() += 1;
                proof {
                    self.vals@ = new_vals;
                }
                proof {
                    let k = self.stack@.len() as int;
                    let off = sum_lens(old(self).stack@, k);
                    lemma_sum_lens_agree(old(self).stack@, self.stack@, k);
                    assert forall|j: int| 0 <= j < k implies entry_ok(
                        #[trigger] self.stack@[j],
                        old_vals,
                        sum_lens(self.stack@, j),
                    ) && self.stack@[j].1 <= depth_bound && entry_full(self.stack@[j]) by {
                        assert(self.stack@[j] == old(self).stack@[j]);
                        assert(entry_ok(
                            old(self).stack@[j],
                            old_vals,
                            sum_lens(old(self).stack@, j),
                        ));
                        lemma_sum_lens_agree(old(self).stack@, self.stack@, j);
                    }
                    assert(new_vals.subrange(0, old_vals.len() as int) =~= old_vals);
                    lemma_stack_extend(self.stack@, old_vals, new_vals);
                    let t0 = old(self).stack@.last().0.value();
                    assert(t0.leaves(0, PACKING_DEPTH as nat).subrange(0, top_n as int)
                        == old_vals.subrange(off, off + top_n));
                    assert(t0.leaves(0, PACKING_DEPTH as nat).subrange(0, top_n as int)
                        =~= orig_values);
                    assert(leaf.values@ == orig_values.push(value));
                    assert(leaf.values@ =~= new_vals.subrange(off, off + top_n + 1));
                    lemma_leaf_entry(leaf, new_vals, off, (top_n + 1) as usize);
                    assert forall|j: int| 0 <= j < k - 1 implies (#[trigger] self.stack@[j].1)
                        > self.stack@[j + 1].1 by {
                        assert(self.stack@[j] == old(self).stack@[j]);
                        assert(self.stack@[j + 1] == old(self).stack@[j + 1]);
                    }
                    lemma_append_entry(self.stack@, new_vals, entry, depth_bound);
                }
                self.settle(entry);
                proof {
                    vstd::arithmetic::power2::lemma2_to64();
                    assert(capacity(0, PACKING_DEPTH as nat) == 4);
                    let l0 = old(self).length.0 as int;
                    let n0 = top_n as int;
                    assert((l0 + 1) % (PACKING_FACTOR as int) == (n0 + 1) % (
                    PACKING_FACTOR as int)) by (nonlinear_arith)
                        requires
                            l0 % (PACKING_FACTOR as int) == n0,
                            l0 >= 0,
                            0 <= n0 < 4,
                            PACKING_FACTOR == 4,
                    ;
                    if top_n + 1 < 4 {
                        assert(!entry_full(entry));
                        assert(self.stack@.last() == entry);
                        assert(self.value_pushable());
                    } else {
                        assert(entry_full(entry));
                        assert(self.length.0 % PACKING_FACTOR == 0);
                        assert(self.value_pushable());
                        assert(entry_full(self.stack@.last()));
                    }
                }
                Ok(())
            },
            _ => {
                proof {
                    assert(false);
                }
                Err(Error::BuilderExpectedLeaf)
            },
        }
    }
}

/// Padding an entry with a zero sibling on the right lifts it one level
/// without changing its contents.
#[verifier::rlimit(100)]
pub proof fn lemma_pad_step(
    s: Seq<(MaybeArced<Tree>, usize, usize)>,
    cur: (MaybeArced<Tree>, usize, usize),
    padded: (MaybeArced<Tree>, usize, usize),
    la: Arc<Tree>,
    za: Arc<Tree>,
    vals: Seq<u64>,
    depth: int,
)
    requires
        stack_ok_loose(s.push(cur), vals, depth),
        forall|j: int| 0 <= j < s.len() ==> entry_full(#[trigger] s[j]),
        cur.1 + 1 <= depth,
        s.len() > 0 ==> s.last().1 >= cur.1 + 1,
        padded.0.value() == (Tree::Node { left: la, right: za }),
        *la == cur.0.value(),
        *za == Tree::Zero(cur.1),
        padded.1 as int == cur.1 + 1,
        padded.2 == cur.2,
    ensures
        stack_ok_loose(s.push(padded), vals, depth),
{
    let pd = PACKING_DEPTH as nat;
    let c = s.push(cur);
    let c2 = s.push(padded);
    let k = s.len() as int;
    let off = sum_lens(c, k);
    let dd = cur.1 as nat;
    let cur_t = cur.0.value();
    let pad_t = padded.0.value();
    assert(entry_ok(c[k], vals, off));
    assert(capacity((dd + 1) as nat, pd) == 2 * capacity(dd, pd)) by {
        vstd::arithmetic::power2::lemma_pow2_adds((dd + pd) as nat, 1);
        vstd::arithmetic::power2::lemma2_to64();
    }
    lemma_leaves_len(&cur_t, dd, pd);
    assert((*la).wf(dd, pd));
    assert((Tree::Zero(cur.1)).wf(dd, pd));
    assert(pad_t.wf((dd + 1) as nat, pd));
    assert((*la).proper(dd, pd, cur.2 as int, 0));
    assert((Tree::Zero(cur.1)).proper(dd, pd, cur.2 as int, capacity(dd, pd) as int));
    assert(pad_t.proper((dd + 1) as nat, pd, cur.2 as int, 0));
    assert(pad_t.leaves((dd + 1) as nat, pd).subrange(0, cur.2 as int) =~= cur_t.leaves(
        dd,
        pd,
    ).subrange(0, cur.2 as int));
    lemma_sum_lens_agree(c, c2, k);
    assert(sum_lens(c2, c2.len() as int) == vals.len());
    assert forall|j: int| 0 <= j < c2.len() implies entry_ok(#[trigger] c2[j], vals, sum_lens(
        c2,
        j,
    )) && c2[j].1 <= depth by {
        if j < k {
            assert(c2[j] == c[j]);
            assert(entry_ok(c[j], vals, sum_lens(c, j)));
            lemma_sum_lens_agree(c, c2, j);
        }
    }
    assert forall|j: int| 0 <= j < c2.len() - 1 implies entry_full(#[trigger] c2[j]) by {
        assert(c2[j] == s[j]);
    }
    assert forall|j: int| 0 <= j < c2.len() - 2 implies (#[trigger] c2[j].1) > c2[j + 1].1 by {
        assert(c2[j] == c[j] && c2[j + 1] == c[j + 1]);
        assert(c[j].1 > c[j + 1].1);
    }
    if c2.len() >= 2 {
        assert(c2[c2.len() - 2] == s.last());
    }
}

impl Builder {
    /// Append a whole pre-built subtree holding `len` values, sitting at the
    /// builder's configured level.
    #[verifier::rlimit(100)]
    pub fn push_node(&mut self, node: Arc<Tree>, len: usize) -> (r: Result<(), Error>)
        requires
            old(self).inv(),
            old(self).node_pushable(),
            PACKING_DEPTH <= old(self).level,
            old(self).level <= old(self).depth + PACKING_DEPTH,
            (*node).wf(
                (old(self).level - PACKING_DEPTH) as nat,
                PACKING_DEPTH as nat,
            ),
            (*node).proper(
                (old(self).level - PACKING_DEPTH) as nat,
                PACKING_DEPTH as nat,
                len as int,
                0,
            ),
            1 <= len,
            len as int <= capacity(
                (old(self).level - PACKING_DEPTH) as nat,
                PACKING_DEPTH as nat,
            ),
            old(self).vals@.len() + len <= old(self).capacity,
            old(self).stack@.len() > 0 ==> old(self).stack@.last().1 as int >= old(self).level
                - PACKING_DEPTH,
        ensures
            final(self).inv(),
            final(self).depth == old(self).depth,
            final(self).level == old(self).level,
            final(self).capacity == old(self).capacity,
            r is Ok,
            final(self).vals@ == old(self).vals@ + (*node).leaves(
                (old(self).level - PACKING_DEPTH) as nat,
                PACKING_DEPTH as nat,
            ).subrange(0, len as int),
            final(self).length.0 == old(self).length.0 + len,
            final(self).stack@.len() > 0,
            final(self).stack@.last().1 as int >= old(self).level - PACKING_DEPTH,
            len as int == capacity(
                (old(self).level - PACKING_DEPTH) as nat,
                PACKING_DEPTH as nat,
            ) ==> final(self).node_pushable(),
    {
        let ghost old_vals = self.vals@;
        let ghost depth_bound = self.depth as int;
        let ghost pd = PACKING_DEPTH as nat;
        let td = self.level - PACKING_DEPTH;
        let ghost tdn = td as nat;
        let ghost new_vals = self.vals@ + leaves_of(&node, tdn, pd).subrange(0, len as int);
        let entry = (MaybeArced::Arced(node), td, len);
        proof {
            vstd::arithmetic::power2::lemma_pow2_pos((self.depth as nat + pd) as nat);
        }
        *self.length.as_mut() += len;
        proof {
            self.vals@ = new_vals;
        }
        proof {
            assert(td <= self.depth) by {
                if td > self.depth {
                    vstd::arithmetic::power2::lemma_pow2_strictly_increases(
                        (self.depth as nat + pd) as nat,
                        (tdn + pd) as nat,
                    );
                }
            }
            lemma_push_node_entry(self.stack@, old_vals, node, td, len, depth_bound);
            assert(capacity(tdn, pd) >= 1) by {
                vstd::arithmetic::power2::lemma_pow2_pos((tdn + pd) as nat);
            }
        }
        self.settle(entry);
        Ok(())
    }

    /// Pad the remainder of the tree with zero subtrees, merge everything to
    /// a single root and hand it back with the depth and length.
    #[verifier::rlimit(100)]
    #[verifier::spinoff_prover]
    pub fn finish(self) -> (r: Result<(Arc<Tree>, usize, Length), Error>)
        requires
            self.inv(),
        ensures
            match r {
                Ok(t) => {
                    &&& t.1 == self.depth
                    &&& t.2 == self.length
                    &&& (*t.0).wf(self.depth as nat, PACKING_DEPTH as nat)
                    &&& (*t.0).proper(
                        self.depth as nat,
                        PACKING_DEPTH as nat,
                        self.length.0 as int,
                        0,
                    )
                    &&& (*t.0).leaves(self.depth as nat, PACKING_DEPTH as nat).subrange(
                        0,
                        self.length.0 as int,
                    ) == self.vals@
                },
                Err(_) => false,
            },
    {
        let ghost pd = PACKING_DEPTH as nat;
        let ghost vals = self.vals@;
        let ghost depth_bound = self.depth as int;
        let Builder { mut stack, depth, level, length, capacity: cap, vals: gvals } = self;
        let ghost orig_stack = stack@;
        if stack.len() == 0 {
            let t = Tree::zero(depth);
            proof {
                assert(vals =~= Seq::<u64>::empty());
                assert((*t).leaves(depth as nat, pd).subrange(0, 0) =~= vals);
            }
            return Ok((t, depth, length));
        }
        let top_entry = stack.pop().unwrap();
        let (top_m, top_d0, top_n0) = top_entry;
        let mut top: Arc<Tree> = top_m.arced();
        let mut top_d = top_d0;
        let mut top_n = top_n0;
        proof {
            assert(orig_stack =~= stack@.push(top_entry));
            lemma_rewrap_top(
                stack@,
                top_entry,
                (MaybeArced::Arced(top), top_d, top_n),
                vals,
                depth_bound,
            );
            assert forall|j: int| 0 <= j < stack@.len() implies entry_full(
                #[trigger] stack@[j],
            ) by {
                assert(orig_stack[j] == stack@[j]);
                assert(entry_full(orig_stack[j]));
            }
        }
        while stack.len() > 0 || top_d < depth
            invariant
                depth + PACKING_DEPTH <= MAX_TREE_DEPTH,
                top_d <= depth,
                stack_ok_loose(
                    stack@.push((MaybeArced::Arced(top), top_d, top_n)),
                    vals,
                    depth_bound,
                ),
                forall|j: int| 0 <= j < stack@.len() ==> entry_full(#[trigger] stack@[j]),
                depth_bound == depth as int,
                vals.len() <= usize::MAX,
                vals.len() <= capacity(depth as nat, PACKING_DEPTH as nat),
            decreases stack@.len(), depth as int - top_d,
        {
            let ghost combined = stack@.push((MaybeArced::Arced(top), top_d, top_n));
            let mut do_merge = false;
            if stack.len() > 0 {
                let below_d = stack[stack.len() - 1].1;
                proof {
                    assert(combined[combined.len() - 2] == stack@.last());
                    assert(stack@.last().1 >= top_d);
                }
                if below_d == top_d {
                    do_merge = true;
                }
            }
            if do_merge {
                let below = stack.pop().unwrap();
                let (below_m, below_d2, below_n) = below;
                let ghost below_entry = (below_m, below_d2, below_n);
                let left_arc = below_m.arced();
                let ghost la = left_arc;
                let ghost ta = top;
                proof {
                    assert(combined =~= stack@.push(below_entry).push(
                        (MaybeArced::Arced(ta), top_d, top_n),
                    ));
                    assert(entry_ok(combined[combined.len() - 1], vals, sum_lens(
                        combined,
                        combined.len() - 1,
                    )));
                    assert(entry_full(combined[combined.len() - 2]));
                    lemma_sum_lens_bounds(combined);
                    assert(below_n + top_n <= vals.len());
                }
                let merged = Tree::node(left_arc, top);
                let new_n = below_n + top_n;
                let new_d = top_d + 1;
                proof {
                    lemma_merge_step(
                        stack@,
                        below_entry,
                        (MaybeArced::Arced(ta), top_d, top_n),
                        (MaybeArced::Arced(merged), new_d, new_n),
                        la,
                        ta,
                        vals,
                        depth_bound,
                    );
                }
                top = merged;
                top_d = new_d;
                top_n = new_n;
            } else {
                // pad with a zero subtree on the right and go one level up
                let zero_arc = Tree::zero(top_d);
                let ghost za = zero_arc;
                let ghost ta = top;
                let padded = Tree::node(top, zero_arc);
                proof {
                    if stack@.len() > 0 {
                        assert(combined[combined.len() - 2] == stack@.last());
                        assert(stack@.last().1 >= top_d);
                        assert(stack@.last().1 != top_d);
                    }
                    lemma_pad_step(
                        stack@,
                        (MaybeArced::Arced(ta), top_d, top_n),
                        (MaybeArced::Arced(padded), (top_d + 1) as usize, top_n),
                        ta,
                        za,
                        vals,
                        depth_bound,
                    );
                }
                top = padded;
                top_d = top_d + 1;
            }
        }
        proof {
            let c = stack@.push((MaybeArced::Arced(top), top_d, top_n));
            assert(entry_ok(c[0], vals, sum_lens(c, 0)));
            assert(top_n == vals.len());
            assert((*top).leaves(depth as nat, pd).subrange(0, top_n as int) == vals.subrange(
                0,
                vals.len() as int,
            ));
            assert(vals.subrange(0, vals.len() as int) =~= vals);
        }
        Ok((top, depth, length))
    }
}

} // verus!
