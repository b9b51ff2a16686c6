//! Sparse per-entity side tables, keyed by entity slot index.

use vstd::prelude::*;

verus! {

/// A sparse map from entity slot indices to values, backed by a vector of
/// options.  Every side table of the style store is one of these.
pub struct SparseSet<V> {
    /// `data[i]` holds the value for slot `i`, if any.
    pub data: Vec<Option<V>>,
}

impl<V> SparseSet<V> {
    /// The value stored for key `k`, if any.
    pub open spec fn spec_get(self, k: int) -> Option<V> {
        if 0 <= k < self.data.len() {
            self.data@[k]
        } else {
            None
        }
    }

    /// Is a value stored for key `k`?
    pub open spec fn spec_contains(self, k: int) -> bool {
        self.spec_get(k) is Some
    }

    /// An empty table.
    pub fn new() -> (s: SparseSet<V>)
        ensures
            forall|k: int| s.spec_get(k) is None,
    {
        SparseSet { data: Vec::new() }
    }

    /// Look up the value for key `k`.
    pub fn get(&self, k: usize) -> (r: Option<&V>)
        ensures
            match r {
                Some(v) => self.spec_get(k as int) == Some(*v),
                None => self.spec_get(k as int) is None,
            },
    {
        if k < self.data.len() {
            match &self.data[k] {
                Some(v) => Some(v),
                None => None,
            }
        } else {
            None
        }
    }

    /// Is a value stored for key `k`?
    pub fn contains(&self, k: usize) -> (r: bool)
        ensures
            r == self.spec_contains(k as int),
    {
        match self.get(k) {
            Some(_) => true,
            None => false,
        }
    }

    /// Store `v` for key `k`, growing the table as needed.
    pub fn insert(&mut self, k: usize, v: V)
        requires
            k < usize::MAX,
        ensures
            final(self).spec_get(k as int) == Some(v),
            forall|k2: int| k2 != k ==> final(self).spec_get(k2) == old(self).spec_get(k2),
    {
        while self.data.len() <= k
            invariant
                k < usize::MAX,
                forall|k2: int| self.spec_get(k2) == old(self).spec_get(k2),
            decreases k + 1 - self.data.len(),
        {
            self.data.push(None);
        }
        self.data.set(k, Some(v));
    }

    /// Drop the value for key `k`, if any.
    pub fn remove(&mut self, k: usize)
        ensures
            final(self).spec_get(k as int) is None,
            forall|k2: int| k2 != k ==> final(self).spec_get(k2) == old(self).spec_get(k2),
    {
        if k < self.data.len() {
            self.data.set(k, None);
        }
    }

    /// Drop every entry.
    pub fn clear(&mut self)
        ensures
            forall|k2: int| final(self).spec_get(k2) is None,
    {
        self.data = Vec::new();
    }

    /// Is the table empty?
    pub fn is_empty(&self) -> (r: bool)
        ensures
            r == (forall|k: int| self.spec_get(k) is None),
    {
        let mut i: usize = 0;
        while i < self.data.len()
            invariant
                i <= self.data.len(),
                forall|k: int| 0 <= k < i ==> self.data@[k] is None,
            decreases self.data.len() - i,
        {
            if self.data[i].is_some() {
                proof {
                    assert(self.spec_get(i as int) is Some);
                }
                return false;
            }
            i = i + 1;
        }
        true
    }
}

} // verus!
