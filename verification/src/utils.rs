//! Small shared helpers: lengths, optionally-shared nodes, and level arithmetic.

use vstd::prelude::*;

use std::sync::Arc;
use vstd::arithmetic::power2::pow2;
use vstd::std_specs::bits::u64_trailing_zeros;

verus! {

/// Type to abstract over whether a value is wrapped in an `Arc` or not.
#[derive(Debug)]
pub enum MaybeArced<T> {
    Arced(Arc<T>),
    Unarced(T),
}

impl<T> MaybeArced<T> {
    /// The wrapped value, ignoring how it is owned.
    pub open spec fn value(self) -> T {
        match self {
            MaybeArced::Arced(arc) => *arc,
            MaybeArced::Unarced(v) => v,
        }
    }

    pub fn arced(self) -> (r: Arc<T>)
        ensures
            *r == self.value(),
    {
        match self {
            MaybeArced::Arced(arc) => arc,
            MaybeArced::Unarced(value) => Arc::new(value),
        }
    }
}

/// Length type, to avoid confusion with depth and other `usize` parameters.
#[derive(Debug, PartialEq, Eq, Clone, Copy, Structural)]
pub struct Length(pub usize);

impl Length {
    pub fn as_mut(&mut self) -> (r: &mut usize)
        ensures
            *r == old(self).0,
            final(self).0 == *final(r),
    {
        &mut self.0
    }

    pub fn as_usize(&self) -> (r: usize)
        ensures
            r == self.0,
    {
        self.0
    }
}

/// Smallest number of bits `d` so that `n <= 2^d`.
pub fn int_log(n: usize) -> (r: usize)
    ensures
        r <= 64,
        n <= pow2(r as nat),
        r > 0 ==> pow2((r - 1) as nat) < n,
{
    let mut d: usize = 0;
    proof {
        vstd::arithmetic::power2::lemma2_to64();
    }
    while d < 64 && (1u64 << (d as u64)) < (n as u64)
        invariant
            d <= 64,
            d > 0 ==> pow2((d - 1) as nat) < n,
        decreases 64 - d,
    {
        proof {
            vstd::bits::lemma_u64_pow2_no_overflow(d as nat);
            vstd::bits::lemma_u64_shl_is_mul(1u64, d as u64);
        }
        d = d + 1;
    }
    proof {
        if d < 64 {
            vstd::bits::lemma_u64_pow2_no_overflow(d as nat);
            vstd::bits::lemma_u64_shl_is_mul(1u64, d as u64);
        } else {
            vstd::arithmetic::power2::lemma2_to64_rest();
            assert(n <= usize::MAX < pow2(64));
        }
    }
    d
}

/// The level of the largest aligned subtree that has the `index`th element as
/// its first leaf: `depth + packing_depth` for index 0, otherwise the number
/// of trailing zero bits of `index`, forced down to 0 below the packing depth.
pub open spec fn compute_level_spec(index: usize, depth: usize, packing_depth: usize) -> usize {
    let raw = if index == 0 {
        (depth + packing_depth) as usize
    } else {
        u64_trailing_zeros(index as u64) as usize
    };
    if raw < packing_depth {
        0
    } else {
        raw
    }
}

/// Compute the depth of the largest subtree which has the `index`th element as its 0th leaf.
///
/// A level is fundamentally the same as a depth: a subtree at level `l` contains up to
/// `2^l` elements at its leaves.  Level 0 is the level of leaves and packed leaves.
pub fn compute_level(index: usize, depth: usize, packing_depth: usize) -> (r: usize)
    requires
        depth + packing_depth <= 64,
    ensures
        r == compute_level_spec(index, depth, packing_depth),
{
    let raw_level: usize = if index == 0 {
        depth + packing_depth
    } else {
        proof {
            vstd::std_specs::bits::axiom_u64_trailing_zeros(index as u64);
        }
        (index as u64).trailing_zeros() as usize
    };
    if raw_level < packing_depth {
        0
    } else {
        raw_level
    }
}

} // verus!
