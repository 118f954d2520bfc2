//! Efficient construction of a list holding `n` copies of one element.
//!
//! Instead of `n` pushes, the tree is built with O(log n) allocations: at
//! each level the layer holds at most two distinct subtrees — the bulk
//! repeated subtree with a multiplicity, and at most one partially-filled
//! subtree on the right.

use vstd::prelude::*;

use crate::error::Error;
use crate::list::{canonical_depth, depth_feasible, depth_ok, List};
use crate::packed_leaf::PackedLeaf;
use crate::tree::{
    capacity, lemma_leaves_len, lemma_proper_full_region, lemma_proper_shift, Tree,
};
use crate::utils::Length;
use crate::{PACKING_DEPTH, PACKING_FACTOR};
use std::sync::Arc;
use vstd::arithmetic::power2::pow2;

verus! {

/// `cap` leaf slots of which the first `fill` hold `elem` and the rest zero.
pub open spec fn rep_seq(elem: u64, fill: int, cap: int) -> Seq<u64> {
    Seq::new(
        cap as nat,
        |i: int|
            if i < fill {
                elem
            } else {
                0u64
            },
    )
}

/// A subtree filled with `fill` copies of `elem` and zero beyond.
pub open spec fn rep_tree(t: Arc<Tree>, level: nat, elem: u64, fill: int) -> bool {
    &&& (*t).wf(level, PACKING_DEPTH as nat)
    &&& (*t).proper(level, PACKING_DEPTH as nat, fill, 0)
    &&& (*t).leaves(level, PACKING_DEPTH as nat) == rep_seq(
        elem,
        fill,
        capacity(level, PACKING_DEPTH as nat) as int,
    )
}

/// Joining a fully repeated subtree with another repeated subtree stacks
/// their contents.
proof fn lemma_rep_node(la: Arc<Tree>, ra: Arc<Tree>, joined: Arc<Tree>, level: nat, elem: u64, fill2: int)
    requires
        rep_tree(la, level, elem, capacity(level, PACKING_DEPTH as nat) as int),
        rep_tree(ra, level, elem, fill2),
        0 <= fill2 <= capacity(level, PACKING_DEPTH as nat),
        *joined == (Tree::Node { left: la, right: ra }),
    ensures
        rep_tree(
            joined,
            (level + 1) as nat,
            elem,
            capacity(level, PACKING_DEPTH as nat) as int + fill2,
        ),
{
    let pd = PACKING_DEPTH as nat;
    let cap = capacity(level, pd) as int;
    assert(capacity((level + 1) as nat, pd) == 2 * cap) by {
        vstd::arithmetic::power2::lemma_pow2_adds((level + pd) as nat, 1);
        vstd::arithmetic::power2::lemma2_to64();
    }
    lemma_leaves_len(&*la, level, pd);
    lemma_leaves_len(&*ra, level, pd);
    assert((*joined).wf((level + 1) as nat, pd));
    lemma_proper_full_region(&*la, level, pd, cap, 0, cap + fill2);
    lemma_proper_shift(&*ra, level, pd, fill2, 0, cap);
    assert((*joined).proper((level + 1) as nat, pd, cap + fill2, 0));
    assert((*joined).leaves((level + 1) as nat, pd) =~= rep_seq(elem, cap + fill2, 2 * cap));
}

/// Padding a repeated subtree with a zero sibling keeps its contents.
proof fn lemma_rep_pad(la: Arc<Tree>, za: Arc<Tree>, joined: Arc<Tree>, level: nat, elem: u64, fill: int)
    requires
        rep_tree(la, level, elem, fill),
        0 <= fill <= capacity(level, PACKING_DEPTH as nat),
        level <= 63,
        *za == Tree::Zero(level as usize),
        *joined == (Tree::Node { left: la, right: za }),
    ensures
        rep_tree(joined, (level + 1) as nat, elem, fill),
{
    let pd = PACKING_DEPTH as nat;
    let cap = capacity(level, pd) as int;
    assert(capacity((level + 1) as nat, pd) == 2 * cap) by {
        vstd::arithmetic::power2::lemma_pow2_adds((level + pd) as nat, 1);
        vstd::arithmetic::power2::lemma2_to64();
    }
    lemma_leaves_len(&*la, level, pd);
    assert((*za).wf(level, pd));
    assert((*joined).wf((level + 1) as nat, pd));
    assert((*za).proper(level, pd, fill, cap));
    assert((*joined).proper((level + 1) as nat, pd, fill, 0));
    assert((*za).leaves(level, pd) == Seq::new(capacity(level, pd), |i: int| 0u64));
    assert((*joined).leaves((level + 1) as nat, pd) == (*la).leaves(level, pd) + (*za).leaves(
        level,
        pd,
    ));
    assert((*joined).leaves((level + 1) as nat, pd) =~= rep_seq(elem, fill, 2 * cap));
}

/// Efficiently construct a list from `n` copies of `elem`.
#[verifier::rlimit(100)]
pub fn repeat_list(max: usize, elem: u64, n: usize) -> (r: Result<List, Error>)
    ensures
        match r {
            Ok(l) => {
                &&& n <= max
                &&& l.wf()
                &&& l.spec_max() == max
                &&& l@ == Seq::new(n as nat, |i: int| elem)
                &&& l.interface.updates.is_empty_spec()
                &&& canonical_depth(l.interface.depth, max)
            },
            Err(e) => {
                ||| (e == (Error::ListFull { len: max }) && n > max)
                ||| (e matches Error::BuilderInvalidDepth { .. } && !depth_feasible(max))
            },
        },
{
    let ghost pd = PACKING_DEPTH as nat;
    let depth = match List::compute_depth(max) {
        Ok(depth) => depth,
        Err(e) => {
            return Err(e);
        },
    };
    if n > max {
        return Err(Error::ListFull { len: max });
    }
    if n == 0 {
        let tree = Tree::empty(depth);
        let l = List::from_parts(tree, depth, Length(0), max);
        proof {
            assert(l@ =~= Seq::new(0, |i: int| elem));
        }
        return Ok(l);
    }
    proof {
        vstd::arithmetic::power2::lemma2_to64();
    }
    let repeat_count = n / PACKING_FACTOR;
    let lonely_count = n % PACKING_FACTOR;
    let mut a: Arc<Tree>;
    let mut c: usize;
    let mut b: Option<Arc<Tree>>;
    let ghost mut a_fill: int;
    let ghost mut b_fill: int;
    if repeat_count == 0 {
        a = Arc::new(Tree::PackedLeaf(PackedLeaf::repeat(elem, lonely_count)));
        c = 1;
        b = None;
        proof {
            a_fill = lonely_count as int;
            b_fill = 0;
            assert((*a).leaves(0, pd) =~= rep_seq(elem, a_fill, 4));
        }
    } else if lonely_count == 0 {
        a = Arc::new(Tree::PackedLeaf(PackedLeaf::repeat(elem, PACKING_FACTOR)));
        c = repeat_count;
        b = None;
        proof {
            a_fill = 4;
            b_fill = 0;
            assert((*a).leaves(0, pd) =~= rep_seq(elem, a_fill, 4));
        }
    } else {
        a = Arc::new(Tree::PackedLeaf(PackedLeaf::repeat(elem, PACKING_FACTOR)));
        c = repeat_count;
        let lonely = Arc::new(Tree::PackedLeaf(PackedLeaf::repeat(elem, lonely_count)));
        proof {
            a_fill = 4;
            b_fill = lonely_count as int;
            assert((*a).leaves(0, pd) =~= rep_seq(elem, a_fill, 4));
            assert((*lonely).leaves(0, pd) =~= rep_seq(elem, b_fill, 4));
        }
        b = Some(lonely);
    }
    let mut level: usize = 0;
    proof {
        vstd::arithmetic::div_mod::lemma_fundamental_div_mod(n as int, 4);
    }
    while level < depth
        invariant
            level <= depth,
            depth_ok(depth, max),
            n <= max,
            1 <= c,
            rep_tree(a, level as nat, elem, a_fill),
            1 <= a_fill <= capacity(level as nat, pd) as int,
            c > 1 ==> a_fill == capacity(level as nat, pd) as int,
            pd == PACKING_DEPTH as nat,
            match b {
                None => n as int == (c - 1) * (capacity(level as nat, pd) as int) + a_fill,
                Some(bt) => {
                    &&& a_fill == capacity(level as nat, pd) as int
                    &&& rep_tree(bt, level as nat, elem, b_fill)
                    &&& 1 <= b_fill < capacity(level as nat, pd) as int
                    &&& n as int == c * (capacity(level as nat, pd) as int) + b_fill
                },
            },
        decreases depth - level,
    {
        let ghost cap = capacity(level as nat, pd) as int;
        let ghost cap2 = capacity((level + 1) as nat, pd) as int;
        proof {
            assert(cap2 == 2 * cap) by {
                vstd::arithmetic::power2::lemma_pow2_adds((level as nat + pd) as nat, 1);
                vstd::arithmetic::power2::lemma2_to64();
            }
            vstd::arithmetic::power2::lemma_pow2_pos((level as nat + pd) as nat);
        }
        let cur_b = b;
        match cur_b {
            None => {
                if c == 1 {
                    let ghost la = a;
                    let za = Tree::zero(level);
                    let ghost zg = za;
                    let padded = Tree::node(a, za);
                    proof {
                        lemma_rep_pad(la, zg, padded, level as nat, elem, a_fill);
                    }
                    a = padded;
                    b = None;
                } else if c % 2 == 0 {
                    let a2 = a.clone();
                    let ghost la = a2;
                    let ghost ra = a;
                    let joined = Tree::node(a2, a);
                    proof {
                        lemma_rep_node(la, ra, joined, level as nat, elem, cap);
                        assert((c / 2 - 1) * cap2 + cap2 == (c - 1) * cap + cap) by (nonlinear_arith)
                            requires
                                cap2 == 2 * cap,
                                c % 2 == 0,
                                c >= 2,
                        ;
                        a_fill = cap2;
                    }
                    a = joined;
                    c = c / 2;
                    b = None;
                } else {
                    let a2 = a.clone();
                    let a3 = a.clone();
                    let za = Tree::zero(level);
                    let ghost la = a2;
                    let ghost lb = a3;
                    let ghost ra = a;
                    let ghost zg = za;
                    let lonely = Tree::node(a2, za);
                    let joined = Tree::node(a3, a);
                    proof {
                        lemma_rep_pad(la, zg, lonely, level as nat, elem, a_fill);
                        lemma_rep_node(lb, ra, joined, level as nat, elem, cap);
                        assert((c / 2) * cap2 + cap == (c - 1) * cap + cap) by (nonlinear_arith)
                            requires
                                cap2 == 2 * cap,
                                c % 2 == 1,
                                c >= 3,
                        ;
                        b_fill = cap;
                        a_fill = cap2;
                    }
                    a = joined;
                    c = c / 2;
                    b = Some(lonely);
                }
            },
            Some(bt) => {
                if c == 1 {
                    let ghost la = a;
                    let ghost ra = bt;
                    let joined = Tree::node(a, bt);
                    proof {
                        lemma_rep_node(la, ra, joined, level as nat, elem, b_fill);
                        a_fill = cap + b_fill;
                    }
                    a = joined;
                    b = None;
                } else if c % 2 == 0 {
                    let a2 = a.clone();
                    let za = Tree::zero(level);
                    let ghost la = a2;
                    let ghost ra = a;
                    let ghost lb = bt;
                    let ghost zg = za;
                    let lonely = Tree::node(bt, za);
                    let joined = Tree::node(a2, a);
                    proof {
                        lemma_rep_pad(lb, zg, lonely, level as nat, elem, b_fill);
                        lemma_rep_node(la, ra, joined, level as nat, elem, cap);
                        assert((c / 2) * cap2 + b_fill == c * cap + b_fill) by (nonlinear_arith)
                            requires
                                cap2 == 2 * cap,
                                c % 2 == 0,
                                c >= 2,
                        ;
                        a_fill = cap2;
                    }
                    a = joined;
                    c = c / 2;
                    b = Some(lonely);
                } else {
                    let a2 = a.clone();
                    let a3 = a.clone();
                    let ghost la = a2;
                    let ghost lb = a3;
                    let ghost ra = a;
                    let ghost rb = bt;
                    let lonely = Tree::node(a3, bt);
                    let joined = Tree::node(a2, a);
                    proof {
                        lemma_rep_node(lb, rb, lonely, level as nat, elem, b_fill);
                        lemma_rep_node(la, ra, joined, level as nat, elem, cap);
                        assert((c / 2) * cap2 + (cap + b_fill) == c * cap + b_fill) by (
                        nonlinear_arith)
                            requires
                                cap2 == 2 * cap,
                                c % 2 == 1,
                                c >= 3,
                        ;
                        b_fill = cap + b_fill;
                        a_fill = cap2;
                    }
                    a = joined;
                    c = c / 2;
                    b = Some(lonely);
                }
            },
        }
        level = level + 1;
    }
    proof {
        let cap = capacity(depth as nat, pd) as int;
        assert(n as int <= cap);
        match b {
            Some(_) => {
                assert(n as int >= cap + 1) by (nonlinear_arith)
                    requires
                        c >= 1,
                        b_fill >= 1,
                        n as int == c * cap + b_fill,
                        cap >= 1,
                ;
                assert(false);
            },
            None => {
                if c > 1 {
                    assert(n as int > cap) by (nonlinear_arith)
                        requires
                            c >= 2,
                            a_fill == cap,
                            n as int == (c - 1) * cap + a_fill,
                            cap >= 1,
                    ;
                    assert(false);
                }
            },
        }
        assert(a_fill == n);
    }
    let l = List::from_parts(a, depth, Length(n), max);
    proof {
        assert(l@ =~= Seq::new(n as nat, |i: int| elem));
    }
    Ok(l)
}

impl List {
    /// A list of `n` copies of `elem`, built with O(log n) allocations.
    pub fn repeat(max: usize, elem: u64, n: usize) -> (r: Result<List, Error>)
        ensures
            match r {
                Ok(l) => {
                    &&& n <= max
                    &&& l.wf()
                    &&& l.spec_max() == max
                    &&& l@ == Seq::new(n as nat, |i: int| elem)
                    &&& l.interface.updates.is_empty_spec()
                    &&& canonical_depth(l.interface.depth, max)
                },
                Err(e) => {
                    ||| (e == (Error::ListFull { len: max }) && n > max)
                    ||| (e matches Error::BuilderInvalidDepth { .. } && !depth_feasible(max))
                },
            },
    {
        repeat_list(max, elem, n)
    }

    /// A list of `n` copies of `elem`, built in bulk from a vector holding
    /// the copies.
    pub fn repeat_slow(max: usize, elem: u64, n: usize) -> (r: Result<List, Error>)
        ensures
            match r {
                Ok(l) => {
                    &&& n <= max
                    &&& l.wf()
                    &&& l.spec_max() == max
                    &&& l@ == Seq::new(n as nat, |i: int| elem)
                    &&& l.interface.updates.is_empty_spec()
                    &&& canonical_depth(l.interface.depth, max)
                },
                Err(e) => {
                    ||| (e == Error::BuilderFull && n > max)
                    ||| (e matches Error::BuilderInvalidDepth { .. } && !depth_feasible(max))
                },
            },
    {
        let values: Vec<u64> = vec![elem; n];
        let r = List::try_from_iter(max, &values);
        proof {
            assert(values@ =~= Seq::new(n as nat, |i: int| elem));
        }
        r
    }
}

/// Repeat equivalence: the layered construction and the bulk construction
/// from a vector of copies reach the same outcome.  For every count within a
/// feasible bound both succeed, with `n` copies of the element.
///
/// The hypotheses are the outcome contracts of `repeat` and `repeat_slow` on
/// the same inputs.
pub proof fn lemma_repeat_equivalence(
    fast: Result<List, Error>,
    slow: Result<List, Error>,
    max: usize,
    elem: u64,
    n: usize,
)
    requires
        match fast {
            Ok(l) => l@ == Seq::new(n as nat, |i: int| elem),
            Err(e) => {
                ||| (e == (Error::ListFull { len: max }) && n > max)
                ||| (e matches Error::BuilderInvalidDepth { .. } && !depth_feasible(max))
            },
        },
        match slow {
            Ok(l) => l@ == Seq::new(n as nat, |i: int| elem),
            Err(e) => {
                ||| (e == Error::BuilderFull && n > max)
                ||| (e matches Error::BuilderInvalidDepth { .. } && !depth_feasible(max))
            },
        },
        n <= max,
        depth_feasible(max),
    ensures
        match (fast, slow) {
            (Ok(a), Ok(b)) => a@ == b@ && a@ == Seq::new(n as nat, |i: int| elem),
            _ => false,
        },
{
}

} // verus!
