//! Traversal that yields whole subtrees at a requested level.
//!
//! Iterating level `l` from an index aligned to `2^l` yields the aligned
//! subtrees holding `2^l` values each, so that a suffix of a list can be
//! rebuilt from shared subtrees instead of value by value.

use vstd::prelude::*;

use crate::error::Error;
use crate::iter::range_values;
use crate::tree::{capacity, lemma_leaves_len, pow2_u64, Tree};
use crate::utils::Length;
use crate::MAX_TREE_DEPTH;
use crate::PACKING_DEPTH;
use std::sync::Arc;
use vstd::arithmetic::power2::pow2;

verus! {

/// Item yielded when iterating a level: a whole internal subtree, or a
/// single value when iterating below the packing depth.
#[derive(Debug)]
pub enum LevelNode {
    Internal(Arc<Tree>),
    PackedLeaf(u64),
}

/// The subtrees at depth `td` whose slot ranges begin in `[start, length)`,
/// left to right, each paired with the list position of its first slot,
/// within a subtree based at `base`.
pub open spec fn level_nodes(
    t: Tree,
    depth: nat,
    td: nat,
    base: int,
    start: int,
    length: int,
) -> Seq<(Tree, int)>
    decreases t,
{
    let cap = capacity(depth, PACKING_DEPTH as nat) as int;
    if base >= length || base + cap <= start {
        Seq::empty()
    } else if depth <= td {
        seq![(t, base)]
    } else {
        match t {
            Tree::Node { left, right } => level_nodes(
                *left,
                (depth - 1) as nat,
                td,
                base,
                start,
                length,
            ) + level_nodes(
                *right,
                (depth - 1) as nat,
                td,
                base + capacity((depth - 1) as nat, PACKING_DEPTH as nat) as int,
                start,
                length,
            ),
            _ => Seq::empty(),
        }
    }
}

/// The level decomposition of a shared subtree handle.
pub open spec fn level_nodes_of(
    a: &Arc<Tree>,
    depth: nat,
    td: nat,
    base: int,
    start: int,
    length: int,
) -> Seq<(Tree, int)> {
    level_nodes(**a, depth, td, base, start, length)
}

/// Every collected pair holds the corresponding subtree and its base.
pub open spec fn arcs_eq(arcs: Seq<(Arc<Tree>, usize)>, items: Seq<(Tree, int)>) -> bool {
    &&& arcs.len() == items.len()
    &&& forall|j: int|
        0 <= j < arcs.len() ==> *(#[trigger] arcs[j]).0 == items[j].0 && arcs[j].1 == items[j].1
}

/// First yielded base of the window `[start, length)` within `[base, base + cap)`.
pub open spec fn window_lo(base: int, start: int) -> int {
    if start > base {
        start
    } else {
        base
    }
}

/// End of the window `[start, length)` within `[base, base + cap)`.
pub open spec fn window_hi(base: int, cap: int, length: int) -> int {
    if length < base + cap {
        length
    } else {
        base + cap
    }
}

/// A power of two divides every larger power of two.
pub proof fn lemma_pow2_divides(b: nat, a: nat)
    requires
        b <= a,
    ensures
        (pow2(a) as int) % (pow2(b) as int) == 0,
{
    vstd::arithmetic::power2::lemma_pow2_adds((a - b) as nat, b);
    vstd::arithmetic::power2::lemma_pow2_pos(b);
    vstd::arithmetic::power2::lemma_pow2_pos((a - b) as nat);
    vstd::arithmetic::div_mod::lemma_mod_multiples_basic(
        pow2((a - b) as nat) as int,
        pow2(b) as int,
    );
}

/// A multiple of `m` is a multiple of every divisor `c` of `m`.
pub proof fn lemma_align_divides(x: int, m: int, c: int)
    requires
        c > 0,
        m > 0,
        x % m == 0,
        m % c == 0,
    ensures
        x % c == 0,
{
    vstd::arithmetic::div_mod::lemma_fundamental_div_mod(x, m);
    vstd::arithmetic::div_mod::lemma_fundamental_div_mod(m, c);
    let q = x / m;
    let k = m / c;
    assert(x == c * (k * q)) by (nonlinear_arith)
        requires
            x == m * q,
            m == c * k,
    ;
    vstd::arithmetic::div_mod::lemma_mod_multiples_basic(k * q, c);
}

/// The sum of two multiples of `c` is a multiple of `c`.
pub proof fn lemma_align_add(x: int, y: int, c: int)
    requires
        c > 0,
        x % c == 0,
        y % c == 0,
    ensures
        (x + y) % c == 0,
{
    vstd::arithmetic::div_mod::lemma_add_mod_noop(x, y, c);
    vstd::arithmetic::div_mod::lemma_small_mod(0nat, c as nat);
}

/// Two values aligned to `c` within distance `c` of each other are equal.
pub proof fn lemma_aligned_unique(x: int, m: int, c: int)
    requires
        c > 0,
        x % c == 0,
        m % c == 0,
        m <= x < m + c,
    ensures
        x == m,
{
    vstd::arithmetic::div_mod::lemma_fundamental_div_mod(x, c);
    vstd::arithmetic::div_mod::lemma_fundamental_div_mod(m, c);
    let qx = x / c;
    let qm = m / c;
    assert(x == m) by (nonlinear_arith)
        requires
            x == c * qx,
            m == c * qm,
            m <= x < m + c,
            c > 0,
    ;
}

/// An aligned value strictly below another aligned value is at least one
/// whole step below it.
pub proof fn lemma_aligned_below(x: int, y: int, c: int)
    requires
        c > 0,
        x % c == 0,
        y % c == 0,
        x < y,
    ensures
        x + c <= y,
{
    vstd::arithmetic::div_mod::lemma_fundamental_div_mod(x, c);
    vstd::arithmetic::div_mod::lemma_fundamental_div_mod(y, c);
    let qx = x / c;
    let qy = y / c;
    assert(x + c <= y) by (nonlinear_arith)
        requires
            x == c * qx,
            y == c * qy,
            x < y,
            c > 0,
    ;
}

/// A value whose low `k` bits are all zero is a multiple of `2^k`.
proof fn lemma_low_bits_zero_divides(v: u64, k: u64)
    requires
        k <= 63,
        forall|j: u64| 0 <= j < k ==> #[trigger] (v >> j) & 1u64 == 0u64,
    ensures
        (v as int) % (pow2(k as nat) as int) == 0,
    decreases k,
{
    vstd::arithmetic::power2::lemma2_to64();
    if k == 0 {
        assert((v as int) % 1 == 0);
    } else {
        lemma_low_bits_zero_divides(v, (k - 1) as u64);
        vstd::arithmetic::power2::lemma_pow2_pos((k - 1) as nat);
        vstd::bits::lemma_u64_shr_is_div(v, (k - 1) as u64);
        assert((v >> ((k - 1) as u64)) & 1u64 == 0u64);
        assert(forall|x: u64| #[trigger] (x & 1u64) == x % 2) by (bit_vector);
        assert(((v as int) / (pow2((k - 1) as nat) as int)) % 2 == 0);
        vstd::arithmetic::div_mod::lemma_mod_breakdown(
            v as int,
            pow2((k - 1) as nat) as int,
            2,
        );
        vstd::arithmetic::power2::lemma_pow2_adds((k - 1) as nat, 1);
    }
}

/// A positive value is a multiple of, and at least, two to its number of
/// trailing zero bits.
pub proof fn lemma_tz_divides(v: u64)
    requires
        v > 0,
    ensures
        (v as int) % (pow2(vstd::std_specs::bits::u64_trailing_zeros(v) as nat) as int) == 0,
        v as int >= pow2(vstd::std_specs::bits::u64_trailing_zeros(v) as nat),
{
    let tz = vstd::std_specs::bits::u64_trailing_zeros(v) as u64;
    vstd::std_specs::bits::axiom_u64_trailing_zeros(v);
    assert(tz < 64);
    lemma_low_bits_zero_divides(v, tz);
    vstd::bits::lemma_u64_shr_is_div(v, tz);
    assert((v >> tz) & 1u64 == 1u64);
    assert(v >> tz >= 1) by (bit_vector)
        requires
            (v >> tz) & 1u64 == 1u64,
    ;
    vstd::arithmetic::power2::lemma_pow2_pos(tz as nat);
    vstd::arithmetic::div_mod::lemma_fundamental_div_mod(v as int, pow2(tz as nat) as int);
    vstd::arithmetic::div_mod::lemma_mod_division_less_than_divisor(
        v as int,
        pow2(tz as nat) as int,
    );
    let q = (v as int) / (pow2(tz as nat) as int);
    assert(v as int >= pow2(tz as nat)) by (nonlinear_arith)
        requires
            v as int == (pow2(tz as nat) as int) * q + (v as int) % (pow2(tz as nat) as int),
            q >= 1,
            (v as int) % (pow2(tz as nat) as int) >= 0,
            pow2(tz as nat) as int > 0,
    ;
}

/// Shape of the level decomposition: each yielded subtree is well-formed and
/// dense at its own base, bases are aligned, consecutive, begin at the
/// window's start and reach its end, and each subtree holds exactly the
/// matching slots of the root.
#[verifier::rlimit(100)]
#[verifier::spinoff_prover]
pub proof fn lemma_level_nodes_props(
    t: &Tree,
    depth: nat,
    td: nat,
    base: int,
    start: int,
    length: int,
)
    requires
        t.wf(depth, PACKING_DEPTH as nat),
        t.proper(depth, PACKING_DEPTH as nat, length, base),
        td <= depth,
        0 <= base,
        0 <= start,
        start % (capacity(td, PACKING_DEPTH as nat) as int) == 0,
        base % (capacity(depth, PACKING_DEPTH as nat) as int) == 0,
    ensures
        ({
            let csize = capacity(td, PACKING_DEPTH as nat) as int;
            let cap = capacity(depth, PACKING_DEPTH as nat) as int;
            let lo = window_lo(base, start);
            let hi = window_hi(base, cap, length);
            let items = level_nodes(*t, depth, td, base, start, length);
            &&& forall|j: int|
                0 <= j < items.len() ==> {
                    &&& (#[trigger] items[j]).0.wf(td, PACKING_DEPTH as nat)
                    &&& items[j].0.proper(td, PACKING_DEPTH as nat, length, items[j].1)
                    &&& items[j].1 % csize == 0
                    &&& lo <= items[j].1 < hi
                    &&& items[j].0.leaves(td, PACKING_DEPTH as nat) == t.leaves(
                        depth,
                        PACKING_DEPTH as nat,
                    ).subrange(items[j].1 - base, items[j].1 - base + csize)
                }
            &&& forall|j: int|
                0 <= j < items.len() - 1 ==> (#[trigger] items[j + 1]).1 == items[j].1 + csize
            &&& items.len() > 0 ==> items[0].1 == lo
            &&& items.len() > 0 ==> items.last().1 + csize >= hi
            &&& lo < hi <==> items.len() > 0
        }),
    decreases t,
{
    let pd = PACKING_DEPTH as nat;
    let csize = capacity(td, pd) as int;
    let cap = capacity(depth, pd) as int;
    let lo = window_lo(base, start);
    let hi = window_hi(base, cap, length);
    let items = level_nodes(*t, depth, td, base, start, length);
    vstd::arithmetic::power2::lemma_pow2_pos((td + pd) as nat);
    vstd::arithmetic::power2::lemma_pow2_pos((depth + pd) as nat);
    lemma_pow2_divides((td + pd) as nat, (depth + pd) as nat);
    lemma_align_divides(base, cap, csize);
    lemma_leaves_len(t, depth, pd);
    if base >= length || base + cap <= start {
        // pruned: the window is empty
        assert(items.len() == 0);
        if base >= length {
            assert(lo >= hi);
        } else {
            assert(lo >= base + cap >= hi);
        }
    } else if depth <= td {
        // td == depth: the node itself is one aligned item
        assert(td == depth);
        assert(csize == cap);
        if base < start {
            lemma_aligned_below(base, start, csize);
            assert(false);
        }
        assert(lo == base);
        assert(items == seq![(*t, base)]);
        assert(items[0].0.leaves(td, pd) =~= t.leaves(depth, pd).subrange(0, csize));
        assert(items[0].1 % csize == 0);
        assert(lo < hi);
    } else {
        match t {
            Tree::Node { left, right } => {
                let half = capacity((depth - 1) as nat, pd) as int;
                let mid = base + half;
                assert(cap == 2 * half) by {
                    vstd::arithmetic::power2::lemma_pow2_adds(((depth - 1) as nat + pd) as nat, 1);
                    vstd::arithmetic::power2::lemma2_to64();
                }
                crate::tree::lemma_align_half(base, ((depth - 1) as nat + pd) as nat);
                lemma_pow2_divides((td + pd) as nat, ((depth - 1) as nat + pd) as nat);
                vstd::arithmetic::power2::lemma_pow2_pos(((depth - 1) as nat + pd) as nat);
                lemma_align_divides(mid, half, csize);
                let items_l = level_nodes_of(left, (depth - 1) as nat, td, base, start, length);
                let items_r = level_nodes_of(right, (depth - 1) as nat, td, mid, start, length);
                lemma_level_nodes_props(&**left, (depth - 1) as nat, td, base, start, length);
                lemma_level_nodes_props(&**right, (depth - 1) as nat, td, mid, start, length);
                lemma_leaves_len(&**left, (depth - 1) as nat, pd);
                lemma_leaves_len(&**right, (depth - 1) as nat, pd);
                let lo_l = window_lo(base, start);
                let hi_l = window_hi(base, half, length);
                let lo_r = window_lo(mid, start);
                let hi_r = window_hi(mid, half, length);
                assert(items == items_l + items_r);
                assert(hi_r == hi);
                // per-item facts transfer to the whole node
                assert forall|j: int| 0 <= j < items.len() implies {
                    &&& (#[trigger] items[j]).0.wf(td, pd)
                    &&& items[j].0.proper(td, pd, length, items[j].1)
                    &&& items[j].1 % csize == 0
                    &&& lo <= items[j].1 < hi
                    &&& items[j].0.leaves(td, pd) == t.leaves(depth, pd).subrange(
                        items[j].1 - base,
                        items[j].1 - base + csize,
                    )
                } by {
                    if j < items_l.len() {
                        assert(items[j] == items_l[j]);
                        let b = items_l[j].1;
                        assert(b < hi_l <= mid);
                        lemma_aligned_below(b, mid, csize);
                        assert(items_l[j].0.leaves(td, pd) == (**left).leaves(
                            (depth - 1) as nat,
                            pd,
                        ).subrange(b - base, b - base + csize));
                        assert(items[j].0.leaves(td, pd) =~= t.leaves(depth, pd).subrange(
                            b - base,
                            b - base + csize,
                        ));
                    } else {
                        assert(items[j] == items_r[j - items_l.len()]);
                        let b = items_r[j - items_l.len()].1;
                        assert(b >= lo_r >= mid);
                        assert(b < hi_r);
                        lemma_align_add(base, cap, csize);
                        lemma_aligned_below(b, base + cap, csize);
                        assert(b - base + csize <= cap);
                        assert(items_r[j - items_l.len()].0.leaves(td, pd) == (**right).leaves(
                            (depth - 1) as nat,
                            pd,
                        ).subrange(b - mid, b - mid + csize));
                        assert(t.leaves(depth, pd) == (**left).leaves((depth - 1) as nat, pd) + (
                        **right).leaves((depth - 1) as nat, pd));
                        assert(items[j].0.leaves(td, pd) =~= t.leaves(depth, pd).subrange(
                            b - base,
                            b - base + csize,
                        ));
                    }
                }
                // the bases are consecutive across the seam
                assert forall|j: int|
                    0 <= j < items.len() - 1 implies (#[trigger] items[j + 1]).1 == items[j].1
                    + csize by {
                    if j + 1 < items_l.len() {
                        assert(items[j] == items_l[j] && items[j + 1] == items_l[j + 1]);
                        assert((items_l[j + 1]).1 == items_l[j].1 + csize);
                    } else if j >= items_l.len() {
                        let k = j - items_l.len();
                        assert(items[j] == items_r[k]);
                        assert(items[j + 1] == items_r[k + 1]);
                        assert((items_r[k + 1]).1 == items_r[k].1 + csize);
                    } else {
                        // the seam: the left half's last item ends exactly at mid
                        assert(items_l.len() > 0 && items_r.len() > 0);
                        assert(items[j] == items_l.last());
                        assert(items[j + 1] == items_r[0]);
                        let b = items_l.last().1;
                        assert(b + csize >= hi_l);
                        assert(lo_l <= b < hi_l);
                        assert(b % csize == 0);
                        assert(items_r[0].1 == lo_r);
                        // both halves hold items, so both windows are nonempty
                        assert(lo_l < hi_l);
                        assert(lo_r < hi_r);
                        // hence the split point lies strictly inside the range
                        assert(mid < length) by {
                            assert(lo_r >= mid);
                            assert(hi_r <= length);
                        }
                        assert(hi_l == mid);
                        // and the start does not reach past it
                        assert(start <= mid) by {
                            if start > mid {
                                assert(lo_l == start);
                                assert(hi_l <= mid);
                                assert(lo_l < hi_l);
                                assert(false);
                            }
                        }
                        assert(lo_r == mid);
                        lemma_align_add(b, csize, csize);
                        lemma_aligned_unique(b + csize, mid, csize);
                        assert(items[j + 1].1 == items[j].1 + csize);
                    }
                }
                // window endpoints
                if items.len() > 0 {
                    if items_l.len() > 0 {
                        assert(items[0].1 == items_l[0].1);
                        assert(lo_l == lo);
                    } else {
                        // only the right half holds items: the start is at or
                        // past the split point
                        assert(items[0].1 == items_r[0].1);
                        assert(items_r.len() > 0);
                        assert(lo_r < hi_r);
                        assert(lo_l >= hi_l);
                        assert(start >= mid) by {
                            if start < mid {
                                assert(lo_l < mid);
                                assert(hi_l == length);
                                assert(length <= lo_l);
                                assert(base < length);
                                assert(length <= start);
                                assert(lo_r >= start);
                                assert(hi_r <= length);
                                assert(false);
                            }
                        }
                        assert(lo_r == start);
                        assert(lo == start);
                    }
                    if items_r.len() > 0 {
                        assert(items.last() == items_r.last());
                    } else {
                        assert(items.last() == items_l.last());
                        assert(lo_r >= hi_r);
                        assert(items.last().1 + csize >= hi) by {
                            if length > mid {
                                assert(lo_r == if start > mid {
                                    start
                                } else {
                                    mid
                                });
                                assert(hi_r == hi);
                                assert(start < hi_l);
                                assert(lo_r == mid);
                                assert(false);
                            }
                        }
                    }
                }
                // a nonempty window yields at least one item
                if lo < hi {
                    assert(half > 0);
                    if start >= mid {
                        assert(lo_r == start && lo == start);
                        assert(hi_r == hi);
                        assert(lo_r < hi_r);
                        assert(items_r.len() > 0);
                    } else if length <= mid {
                        assert(hi_l == length);
                        assert(hi == length);
                        assert(lo_l == lo);
                        assert(lo_l < hi_l);
                        assert(items_l.len() > 0);
                    } else {
                        assert(length > mid);
                        assert(hi_l == base + half);
                        assert(lo_l == lo);
                        assert(start < mid);
                        assert(base < mid);
                        assert(lo < mid);
                        assert(lo_l < hi_l);
                        assert(items_l.len() > 0);
                    }
                }
                if items.len() > 0 {
                    assert(lo < hi) by {
                        if items_l.len() > 0 {
                            assert(lo_l < hi_l);
                        } else {
                            assert(lo_r < hi_r);
                            assert(lo <= lo_r);
                        }
                    }
                }
            },
            _ => {
                // a zero subtree overlapping the window contradicts density;
                // leaves cannot appear above the target depth
                assert(false);
            },
        }
    }
}

impl Tree {
    /// Collect the whole subtrees at depth `td` whose slot ranges begin in
    /// `[start, length)`, each paired with its base position, in ascending
    /// order.
    pub fn collect_level(
        t: &Arc<Tree>,
        depth: usize,
        td: usize,
        base: usize,
        start: usize,
        length: usize,
        out: &mut Vec<(Arc<Tree>, usize)>,
    )
        requires
            (**t).wf(depth as nat, PACKING_DEPTH as nat),
            (**t).proper(depth as nat, PACKING_DEPTH as nat, length as int, base as int),
            td <= depth,
            depth + PACKING_DEPTH < 64,
            (base as int) + (capacity(depth as nat, PACKING_DEPTH as nat) as int) <= usize::MAX,
        ensures
            final(out)@.len() == old(out)@.len() + level_nodes_of(
                t,
                depth as nat,
                td as nat,
                base as int,
                start as int,
                length as int,
            ).len(),
            forall|j: int| 0 <= j < old(out)@.len() ==> final(out)@[j] == #[trigger] old(out)@[j],
            arcs_eq(
                final(out)@.skip(old(out)@.len() as int),
                level_nodes_of(
                    t,
                    depth as nat,
                    td as nat,
                    base as int,
                    start as int,
                    length as int,
                ),
            ),
        decreases depth,
    {
        let ghost pd = PACKING_DEPTH as nat;
        let ghost items = level_nodes_of(
            t,
            depth as nat,
            td as nat,
            base as int,
            start as int,
            length as int,
        );
        proof {
            lemma_leaves_len(&**t, depth as nat, pd);
            vstd::arithmetic::power2::lemma_pow2_pos((depth as nat + pd) as nat);
        }
        let cap64 = pow2_u64(depth + PACKING_DEPTH);
        if base >= length || (base as u64) + cap64 <= start as u64 {
            proof {
                assert(items.len() == 0);
                assert(out@.skip(old(out)@.len() as int) =~= Seq::<(Arc<Tree>, usize)>::empty());
                assert(arcs_eq(out@.skip(old(out)@.len() as int), items));
            }
            return ;
        }
        if depth <= td {
            let tc = t.clone();
            let ghost gtc = tc;
            out.push((tc, base));
            proof {
                assert(items =~= seq![(**t, base as int)]);
                assert(out@.skip(old(out)@.len() as int) =~= seq![(gtc, base)]);
                assert(arcs_eq(out@.skip(old(out)@.len() as int), items));
            }
            return ;
        }
        match &**t {
            Tree::Node { left, right } => {
                let new_depth = depth - 1;
                proof {
                    assert(capacity(depth as nat, pd) == 2 * capacity(
                        (depth - 1) as nat,
                        pd,
                    )) by {
                        vstd::arithmetic::power2::lemma_pow2_adds(
                            ((depth - 1) as nat + pd) as nat,
                            1,
                        );
                        vstd::arithmetic::power2::lemma2_to64();
                    }
                }
                let half64 = pow2_u64(new_depth + PACKING_DEPTH);
                let half = half64 as usize;
                let ghost items_l = level_nodes_of(
                    left,
                    (depth - 1) as nat,
                    td as nat,
                    base as int,
                    start as int,
                    length as int,
                );
                let ghost items_r = level_nodes_of(
                    right,
                    (depth - 1) as nat,
                    td as nat,
                    base as int + half as int,
                    start as int,
                    length as int,
                );
                Tree::collect_level(left, new_depth, td, base, start, length, out);
                let ghost after_left = out@;
                Tree::collect_level(right, new_depth, td, base + half, start, length, out);
                proof {
                    assert(items == items_l + items_r);
                    let n0 = old(out)@.len() as int;
                    assert forall|j: int| 0 <= j < items.len() implies *(#[trigger] out@.skip(
                        n0,
                    )[j]).0 == items[j].0 && out@.skip(n0)[j].1 == items[j].1 by {
                        if j < items_l.len() {
                            assert(out@[n0 + j] == after_left[n0 + j]);
                            assert(*after_left.skip(n0)[j].0 == items_l[j].0);
                            assert(after_left.skip(n0)[j].1 == items_l[j].1);
                        } else {
                            assert(*out@.skip(after_left.len() as int)[j - items_l.len()].0
                                == items_r[j - items_l.len()].0);
                            assert(out@.skip(after_left.len() as int)[j - items_l.len()].1
                                == items_r[j - items_l.len()].1);
                        }
                    }
                    assert(arcs_eq(out@.skip(n0), items));
                }
            },
            _ => {
                proof {
                    assert(false);
                }
            },
        }
    }
}

/// Iterator over the whole subtrees (or single values) on one level of a
/// tree, starting from an aligned index.
#[derive(Debug)]
pub struct LevelIter {
    pub items: Vec<LevelNode>,
    pub index: usize,
}

impl LevelIter {
    /// Iterate the nodes at the level of `index` covering positions
    /// `[index, length)`.
    ///
    /// At or above the packing depth, whole shared subtrees are yielded; an
    /// index below the packing depth falls back to yielding each value.
    pub fn from_index(index: usize, root: &Arc<Tree>, depth: usize, length: Length) -> (r:
        LevelIter)
        requires
            (**root).wf(depth as nat, PACKING_DEPTH as nat),
            (**root).proper(depth as nat, PACKING_DEPTH as nat, length.0 as int, 0),
            depth + PACKING_DEPTH <= MAX_TREE_DEPTH,
            length.0 as int <= capacity(depth as nat, PACKING_DEPTH as nat),
            capacity(depth as nat, PACKING_DEPTH as nat) <= usize::MAX,
            index <= length.0,
        ensures
            r.index == 0,
            ({
                let level = crate::utils::compute_level_spec(index, depth, PACKING_DEPTH);
                if level >= PACKING_DEPTH {
                    let spec_items = level_nodes_of(
                        root,
                        depth as nat,
                        (level - PACKING_DEPTH) as nat,
                        0,
                        index as int,
                        length.0 as int,
                    );
                    &&& r.items@.len() == spec_items.len()
                    &&& forall|j: int|
                        0 <= j < spec_items.len() ==> match #[trigger] r.items@[j] {
                            LevelNode::Internal(a) => *a == spec_items[j].0,
                            LevelNode::PackedLeaf(_) => false,
                        }
                } else {
                    &&& r.items@.len() == length.0 - index
                    &&& forall|j: int|
                        0 <= j < r.items@.len() ==> match #[trigger] r.items@[j] {
                            LevelNode::PackedLeaf(v) => v == (**root).leaves(
                                depth as nat,
                                PACKING_DEPTH as nat,
                            )[index + j],
                            LevelNode::Internal(_) => false,
                        }
                }
            }),
    {
        let ghost pd = PACKING_DEPTH as nat;
        let ghost d = depth as nat;
        proof {
            lemma_leaves_len(&**root, d, pd);
        }
        let level = crate::utils::compute_level(index, depth, PACKING_DEPTH);
        let mut items: Vec<LevelNode> = Vec::new();
        if level >= PACKING_DEPTH {
            proof {
                if index > 0 {
                    vstd::std_specs::bits::axiom_u64_trailing_zeros(index as u64);
                    lemma_tz_divides(index as u64);
                    if (level as nat) > d + pd {
                        vstd::arithmetic::power2::lemma_pow2_strictly_increases(
                            (d + pd) as nat,
                            level as nat,
                        );
                        assert(false);
                    }
                }
            }
            let td = level - PACKING_DEPTH;
            let ghost spec_items = level_nodes_of(
                root,
                d,
                td as nat,
                0,
                index as int,
                length.0 as int,
            );
            let mut pairs: Vec<(Arc<Tree>, usize)> = Vec::new();
            Tree::collect_level(root, depth, td, 0, index, length.0, &mut pairs);
            proof {
                assert(pairs@.skip(0) =~= pairs@);
                assert(arcs_eq(pairs@, spec_items));
            }
            let mut j: usize = 0;
            while j < pairs.len()
                invariant
                    j <= pairs@.len(),
                    arcs_eq(pairs@, spec_items),
                    items@.len() == j,
                    forall|k: int|
                        0 <= k < j ==> match #[trigger] items@[k] {
                            LevelNode::Internal(a) => *a == spec_items[k].0,
                            LevelNode::PackedLeaf(_) => false,
                        },
                decreases pairs@.len() - j,
            {
                items.push(LevelNode::Internal(pairs[j].0.clone()));
                j = j + 1;
            }
        } else {
            let mut values: Vec<u64> = Vec::new();
            root.collect_range(
                depth,
                PACKING_DEPTH,
                0,
                index,
                length.0,
                &mut values,
                Ghost(length.0 as int),
            );
            proof {
                assert(values@ =~= range_values(
                    **root,
                    d,
                    pd,
                    0,
                    index as int,
                    length.0 as int,
                ));
                if index < length.0 {
                    assert(values@ =~= (**root).leaves(d, pd).subrange(
                        index as int,
                        length.0 as int,
                    ));
                } else {
                    assert(values@.len() == 0);
                }
            }
            let mut j: usize = 0;
            while j < values.len()
                invariant
                    j <= values@.len(),
                    values@.len() == length.0 - index,
                    forall|k: int|
                        0 <= k < values@.len() ==> values@[k] == (**root).leaves(
                            depth as nat,
                            PACKING_DEPTH as nat,
                        )[index + k],
                    items@.len() == j,
                    forall|k: int|
                        0 <= k < j ==> match #[trigger] items@[k] {
                            LevelNode::PackedLeaf(v) => v == (**root).leaves(
                                depth as nat,
                                PACKING_DEPTH as nat,
                            )[index + k],
                            LevelNode::Internal(_) => false,
                        },
                decreases values@.len() - j,
            {
                items.push(LevelNode::PackedLeaf(values[j]));
                j = j + 1;
            }
        }
        LevelIter { items, index: 0 }
    }

    /// The next item, advancing the iterator.
    pub fn next(&mut self) -> (r: Option<LevelNode>)
        ensures
            match r {
                Some(item) => {
                    &&& old(self).index < old(self).items@.len()
                    &&& final(self).index == old(self).index + 1
                    &&& final(self).items == old(self).items
                    &&& match (item, old(self).items@[old(self).index as int]) {
                        (LevelNode::Internal(a), LevelNode::Internal(b)) => a == b,
                        (LevelNode::PackedLeaf(v), LevelNode::PackedLeaf(w)) => v == w,
                        _ => false,
                    }
                },
                None => old(self).index >= old(self).items@.len() && *final(self) == *old(self),
            },
    {
        if self.index < self.items.len() {
            let item = match &self.items[self.index] {
                LevelNode::Internal(t) => LevelNode::Internal(t.clone()),
                LevelNode::PackedLeaf(v) => LevelNode::PackedLeaf(*v),
            };
            self.index = self.index + 1;
            Some(item)
        } else {
            None
        }
    }
}

} // verus!
