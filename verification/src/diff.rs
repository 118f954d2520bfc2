//! Diffs that carry one list state onto another.

use vstd::prelude::*;

use crate::error::Error;
use crate::list::List;

verus! {

/// Trait for diffs that can be applied to a given target type.
///
/// A computed diff reproduces the newer of the two states it was computed
/// from when applied to any target.
pub trait Diff: Sized {
    /// The type acted upon.
    type Target;

    /// Validity of a diff value.
    spec fn diff_wf(&self) -> bool;

    /// The state the diff reproduces.
    spec fn diff_view(&self) -> Seq<u64>;

    /// Validity of a target value.
    spec fn target_wf(t: &Self::Target) -> bool;

    /// The observable contents of a target value.
    spec fn target_view(t: &Self::Target) -> Seq<u64>;

    /// Produce a diff between `orig` and `other`, where `other` is an
    /// updated version of `orig`.
    fn compute_diff(orig: &Self::Target, other: &Self::Target) -> (r: Result<Self, Error>)
        requires
            Self::target_wf(orig),
            Self::target_wf(other),
        ensures
            r is Ok,
            r matches Ok(d) ==> d.diff_wf() && d.diff_view() == Self::target_view(other),
    ;

    /// Apply the diff to `target`, updating it in place.
    fn apply_diff(self, target: &mut Self::Target) -> (r: Result<(), Error>)
        requires
            self.diff_wf(),
            Self::target_wf(old(target)),
        ensures
            r is Ok,
            r matches Ok(()) ==> Self::target_wf(final(target)) && Self::target_view(
                final(target),
            ) == self.diff_view(),
    ;
}

/// The most primitive diff: it stores the entire updated list.
pub struct CloneDiff(pub List);

impl Diff for CloneDiff {
    type Target = List;

    open spec fn diff_wf(&self) -> bool {
        self.0.wf()
    }

    open spec fn diff_view(&self) -> Seq<u64> {
        self.0@
    }

    open spec fn target_wf(t: &List) -> bool {
        t.wf()
    }

    open spec fn target_view(t: &List) -> Seq<u64> {
        t@
    }

    fn compute_diff(orig: &List, other: &List) -> (r: Result<Self, Error>)
        ensures
            r is Ok,
            r matches Ok(d) ==> d.diff_wf() && d.diff_view() == other@,
    {
        Ok(CloneDiff(other.clone()))
    }

    fn apply_diff(self, target: &mut List) -> (r: Result<(), Error>)
        ensures
            r is Ok,
            r matches Ok(()) ==> Self::target_wf(final(target)) && Self::target_view(
                final(target),
            ) == self.diff_view(),
    {
        *target = self.0;
        Ok(())
    }
}

} // verus!
