//! Sparse buffer of pending writes keyed by list index.
//!
//! `MaxMap` is a dense, index-keyed map (a vector of optional entries) wrapped
//! by a cache of the maximum inserted key, so that the maximum is available in
//! O(1) when the map is non-empty.

use vstd::prelude::*;

use std::sync::Arc;

verus! {

/// Number of present entries in a prefix of the backing vector.
pub open spec fn count_keys<T>(s: Seq<Option<T>>) -> nat
    decreases s.len(),
{
    if s.len() == 0 {
        0
    } else {
        count_keys(s.drop_last()) + if s.last() is Some {
            1nat
        } else {
            0nat
        }
    }
}

proof fn lemma_count_zero<T>(s: Seq<Option<T>>)
    ensures
        (count_keys(s) == 0) <==> (forall|i: int| 0 <= i < s.len() ==> s[i] is None),
    decreases s.len(),
{
    if s.len() > 0 {
        lemma_count_zero(s.drop_last());
        if count_keys(s) == 0 {
            assert forall|i: int| 0 <= i < s.len() implies s[i] is None by {
                if i < s.len() - 1 {
                    assert(s.drop_last()[i] == s[i]);
                } else {
                    assert(s.last() == s[i]);
                }
            }
        } else {
            if s.last() is None {
                let i = choose|i: int| 0 <= i < s.len() - 1 && s.drop_last()[i] is Some;
                assert(s[i] is Some);
            }
        }
    }
}

proof fn lemma_count_update<T>(s: Seq<Option<T>>, k: int, v: T)
    requires
        0 <= k < s.len(),
    ensures
        count_keys(s.update(k, Some(v))) == count_keys(s) + if s[k] is Some {
            0int
        } else {
            1int
        },
    decreases s.len(),
{
    let t = s.update(k, Some(v));
    if k == s.len() - 1 {
        assert(t.drop_last() =~= s.drop_last());
    } else {
        assert(t.drop_last() =~= s.drop_last().update(k, Some(v)));
        lemma_count_update(s.drop_last(), k, v);
        assert(t.last() == s.last());
    }
}

proof fn lemma_count_le_len<T>(s: Seq<Option<T>>)
    ensures
        count_keys(s) <= s.len(),
    decreases s.len(),
{
    if s.len() > 0 {
        lemma_count_le_len(s.drop_last());
    }
}

proof fn lemma_count_push_none<T>(s: Seq<Option<T>>)
    ensures
        count_keys(s.push(None)) == count_keys(s),
{
    assert(s.push(None).drop_last() =~= s);
}

/// Dense map from index to pending value, with a cached maximum key.
#[derive(Debug)]
pub struct MaxMap {
    pub entries: Vec<Option<u64>>,
    pub max_key: usize,
    pub count: usize,
}

impl MaxMap {
    /// Pending value stored for index `k`, if any.
    pub open spec fn spec_get(self, k: int) -> Option<u64> {
        if 0 <= k < self.entries@.len() {
            self.entries@[k]
        } else {
            None
        }
    }

    /// Whether index `k` has a pending value.
    pub open spec fn has_key(self, k: int) -> bool {
        self.spec_get(k) is Some
    }

    /// The pending value stored for index `k` (0 when absent).
    pub open spec fn spec_val(self, k: int) -> u64 {
        match self.spec_get(k) {
            Some(v) => v,
            None => 0,
        }
    }

    pub open spec fn is_empty_spec(self) -> bool {
        forall|k: int| !self.has_key(k)
    }

    pub open spec fn wf(self) -> bool {
        &&& self.count == count_keys(self.entries@)
        &&& self.is_empty_spec() ==> self.max_key == 0
        &&& !self.is_empty_spec() ==> {
            &&& self.has_key(self.max_key as int)
            &&& forall|k: int| self.has_key(k) ==> k <= self.max_key
        }
    }

    pub fn new() -> (r: Self)
        ensures
            r.wf(),
            r.is_empty_spec(),
            forall|k: int| r.spec_get(k) == Option::<u64>::None,
    {
        MaxMap { entries: Vec::new(), max_key: 0, count: 0 }
    }

    pub fn get(&self, k: usize) -> (r: Option<u64>)
        ensures
            r == self.spec_get(k as int),
    {
        if k < self.entries.len() {
            self.entries[k]
        } else {
            None
        }
    }

    pub fn insert(&mut self, k: usize, value: u64) -> (prev: Option<u64>)
        requires
            old(self).wf(),
            k < usize::MAX,
        ensures
            final(self).wf(),
            prev == old(self).spec_get(k as int),
            final(self).spec_get(k as int) == Some(value),
            forall|j: int| j != k ==> final(self).spec_get(j) == old(self).spec_get(j),
            !final(self).is_empty_spec(),
    {
        if k > self.max_key {
            self.max_key = k;
        }
        while self.entries.len() <= k
            invariant
                k < usize::MAX,
                count_keys(self.entries@) == count_keys(old(self).entries@),
                self.entries@.len() >= old(self).entries@.len(),
                forall|j: int|
                    0 <= j < self.entries@.len() ==> self.entries@[j] == old(self).spec_get(j),
                self.max_key == if k > old(self).max_key {
                    k
                } else {
                    old(self).max_key
                },
                self.count == old(self).count,
            decreases k + 1 - self.entries@.len(),
        {
            proof {
                lemma_count_push_none(self.entries@);
            }
            self.entries.push(None);
        }
        let prev = self.entries[k];
        proof {
            lemma_count_update(self.entries@, k as int, value);
            lemma_count_le_len(self.entries@.update(k as int, Some(value)));
        }
        self.entries[k] = Some(value);
        if prev.is_none() {
            self.count = self.count + 1;
        }
        proof {
            let m = self.max_key as int;
            assert(self.has_key(k as int));
            if k as int != m {
                assert(old(self).has_key(m) ==> self.has_key(m));
                if old(self).is_empty_spec() {
                    assert(m == 0);
                    assert(k > 0 ==> self.max_key == k);
                } else {
                    assert(old(self).has_key(m));
                }
            }
            assert forall|j: int| self.has_key(j) implies j <= self.max_key by {
                if j != k {
                    assert(old(self).has_key(j));
                }
            }
        }
        prev
    }

    pub fn max_index(&self) -> (r: Option<usize>)
        requires
            self.wf(),
        ensures
            match r {
                Some(m) => {
                    &&& !self.is_empty_spec()
                    &&& self.has_key(m as int)
                    &&& forall|k: int| self.has_key(k) ==> k <= m
                },
                None => self.is_empty_spec(),
            },
    {
        if self.is_empty() {
            None
        } else {
            Some(self.max_key)
        }
    }

    pub fn len(&self) -> (r: usize)
        requires
            self.wf(),
        ensures
            r == count_keys(self.entries@),
    {
        self.count
    }

    pub fn is_empty(&self) -> (r: bool)
        requires
            self.wf(),
        ensures
            r == self.is_empty_spec(),
    {
        proof {
            lemma_count_zero(self.entries@);
            if self.count == 0 {
                assert forall|k: int| !self.has_key(k) by {
                    if 0 <= k < self.entries@.len() {
                        assert(self.entries@[k] is None);
                    }
                }
            } else {
                assert(!(forall|i: int| 0 <= i < self.entries@.len() ==> self.entries@[i] is None));
                let i = choose|i: int|
                    !(0 <= i < self.entries@.len() ==> self.entries@[i] is None);
                assert(self.has_key(i));
            }
        }
        self.count == 0
    }

    /// Whether any pending key falls in `[start, end)`.
    ///
    /// This is the ranged scan with early break used to decide whether a
    /// subtree holds any updates.
    pub fn has_key_in_range(&self, start: usize, end: usize) -> (r: bool)
        ensures
            r == exists|k: int| start <= k < end && self.has_key(k),
    {
        let mut k = start;
        let cap = self.entries.len();
        let stop = if end < cap {
            end
        } else {
            cap
        };
        while k < stop
            invariant
                start <= k,
                stop <= self.entries@.len(),
                stop <= end,
                (end < self.entries@.len() ==> stop == end),
                (end >= self.entries@.len() ==> stop == self.entries@.len()),
                forall|j: int| start <= j < k ==> !self.has_key(j),
            decreases stop - k,
        {
            if self.entries[k].is_some() {
                proof {
                    assert(self.has_key(k as int));
                }
                return true;
            }
            k = k + 1;
        }
        proof {
            assert forall|j: int| start <= j < end implies !self.has_key(j) by {}
        }
        false
    }
}

impl Clone for MaxMap {
    fn clone(&self) -> (r: Self)
        ensures
            r.entries@ == self.entries@,
            r.max_key == self.max_key,
            r.count == self.count,
            forall|k: int| r.spec_get(k) == self.spec_get(k),
            r.wf() == self.wf(),
    {
        let mut entries: Vec<Option<u64>> = Vec::new();
        let mut i: usize = 0;
        while i < self.entries.len()
            invariant
                i <= self.entries@.len(),
                entries@ == self.entries@.take(i as int),
            decreases self.entries@.len() - i,
        {
            entries.push(self.entries[i]);
            proof {
                assert(entries@ =~= self.entries@.take(i + 1));
            }
            i = i + 1;
        }
        proof {
            assert(entries@ =~= self.entries@);
        }
        let r = MaxMap { entries, max_key: self.max_key, count: self.count };
        proof {
            assert forall|k: int| r.spec_get(k) == self.spec_get(k) by {}
            if self.is_empty_spec() {
                assert forall|k: int| !r.has_key(k) by {
                    assert(!self.has_key(k));
                }
                assert(r.is_empty_spec());
            } else {
                let w = choose|k: int| self.has_key(k);
                assert(r.has_key(w));
            }
            if r.is_empty_spec() {
                assert(self.is_empty_spec());
            }
            if self.wf() {
                if !r.is_empty_spec() {
                    assert forall|k: int| r.has_key(k) implies k <= r.max_key by {
                        assert(self.has_key(k));
                    }
                }
                assert(r.wf());
            }
            if r.wf() {
                if !self.is_empty_spec() {
                    assert forall|k: int| self.has_key(k) implies k <= self.max_key by {
                        assert(r.has_key(k));
                    }
                }
                assert(self.wf());
            }
        }
        r
    }
}

impl Default for MaxMap {
    fn default() -> (r: Self)
        ensures
            r.wf(),
            r.is_empty_spec(),
    {
        MaxMap::new()
    }
}


/// Update map whose values are shared handles, so that cloning the map
/// shares the stored values instead of copying them.
#[derive(Debug)]
pub struct ArcMap {
    pub entries: Vec<Option<Arc<u64>>>,
    pub max_key: usize,
    pub count: usize,
}

impl ArcMap {
    /// Pending value stored for index `k`, if any.
    pub open spec fn spec_get(self, k: int) -> Option<u64> {
        if 0 <= k < self.entries@.len() {
            match self.entries@[k] {
                Some(a) => Some(*a),
                None => None,
            }
        } else {
            None
        }
    }

    pub open spec fn has_key(self, k: int) -> bool {
        self.spec_get(k) is Some
    }

    pub open spec fn is_empty_spec(self) -> bool {
        forall|k: int| !self.has_key(k)
    }

    pub open spec fn wf(self) -> bool {
        &&& self.count == count_keys(self.entries@)
        &&& self.is_empty_spec() ==> self.max_key == 0
        &&& !self.is_empty_spec() ==> {
            &&& self.has_key(self.max_key as int)
            &&& forall|k: int| self.has_key(k) ==> k <= self.max_key
        }
    }

    pub fn new() -> (r: Self)
        ensures
            r.wf(),
            r.is_empty_spec(),
    {
        ArcMap { entries: Vec::new(), max_key: 0, count: 0 }
    }

    pub fn get(&self, k: usize) -> (r: Option<u64>)
        ensures
            r == self.spec_get(k as int),
    {
        if k < self.entries.len() {
            match &self.entries[k] {
                Some(a) => Some(**a),
                None => None,
            }
        } else {
            None
        }
    }

    /// The shared handle stored for index `k`, if any.
    pub fn get_arc(&self, k: usize) -> (r: Option<Arc<u64>>)
        ensures
            match r {
                Some(a) => self.spec_get(k as int) == Some(*a),
                None => self.spec_get(k as int) is None,
            },
    {
        if k < self.entries.len() {
            match &self.entries[k] {
                Some(a) => Some(a.clone()),
                None => None,
            }
        } else {
            None
        }
    }

    pub fn insert(&mut self, k: usize, value: u64) -> (prev: Option<u64>)
        requires
            old(self).wf(),
            k < usize::MAX,
        ensures
            final(self).wf(),
            prev == old(self).spec_get(k as int),
            final(self).spec_get(k as int) == Some(value),
            forall|j: int| j != k ==> final(self).spec_get(j) == old(self).spec_get(j),
            !final(self).is_empty_spec(),
    {
        if k > self.max_key {
            self.max_key = k;
        }
        while self.entries.len() <= k
            invariant
                k < usize::MAX,
                count_keys(self.entries@) == count_keys(old(self).entries@),
                self.entries@.len() >= old(self).entries@.len(),
                forall|j: int|
                    0 <= j < self.entries@.len() ==> (self.entries@[j] is Some
                        == old(self).has_key(j)) && (self.entries@[j] is Some
                        ==> self.spec_get(j) == old(self).spec_get(j)),
                self.max_key == if k > old(self).max_key {
                    k
                } else {
                    old(self).max_key
                },
                self.count == old(self).count,
            decreases k + 1 - self.entries@.len(),
        {
            proof {
                lemma_count_push_none(self.entries@);
            }
            self.entries.push(None);
        }
        let prev = self.get(k);
        proof {
            lemma_count_update(self.entries@, k as int, Arc::new(value));
            lemma_count_le_len(self.entries@.update(k as int, Some(Arc::new(value))));
        }
        let was_some = self.entries[k].is_some();
        self.entries[k] = Some(Arc::new(value));
        if !was_some {
            self.count = self.count + 1;
        }
        proof {
            let m = self.max_key as int;
            assert(self.has_key(k as int));
            assert forall|j: int| self.has_key(j) implies j <= self.max_key by {
                if j != k {
                    assert(old(self).has_key(j));
                }
            }
        }
        prev
    }

    pub fn max_index(&self) -> (r: Option<usize>)
        requires
            self.wf(),
        ensures
            match r {
                Some(m) => {
                    &&& !self.is_empty_spec()
                    &&& self.has_key(m as int)
                    &&& forall|k: int| self.has_key(k) ==> k <= m
                },
                None => self.is_empty_spec(),
            },
    {
        if self.is_empty() {
            None
        } else {
            Some(self.max_key)
        }
    }

    pub fn len(&self) -> (r: usize)
        requires
            self.wf(),
        ensures
            r == count_keys(self.entries@),
    {
        self.count
    }

    pub fn is_empty(&self) -> (r: bool)
        requires
            self.wf(),
        ensures
            r == self.is_empty_spec(),
    {
        proof {
            lemma_count_zero(self.entries@);
            if self.count == 0 {
                assert forall|k: int| !self.has_key(k) by {
                    if 0 <= k < self.entries@.len() {
                        assert(self.entries@[k] is None);
                    }
                }
            } else {
                assert(!(forall|i: int|
                    0 <= i < self.entries@.len() ==> self.entries@[i] is None));
                let i = choose|i: int|
                    !(0 <= i < self.entries@.len() ==> self.entries@[i] is None);
                assert(self.has_key(i));
            }
        }
        self.count == 0
    }
}

} // verus!
