//! The element-kind table: which kind of view ("label", "button", ...) each
//! entity presents for type selectors.
//!
//! The table is kept in a `hashbrown` hash map behind trusted wrappers; its
//! contents are named by an uninterpreted map from slot indices to kind names.

use vstd::prelude::*;

verus! {

/// Maps entity slot indices to element-kind names.
#[verifier::external_body]
pub struct ElementMap {
    map: hashbrown::HashMap<u64, String>,
}

/// The entries of an element map: slot index to element-kind name.
pub uninterp spec fn element_entries(m: ElementMap) -> Map<u64, Seq<char>>;

impl ElementMap {
    /// Relies on hashbrown::HashMap::new: a fresh map holds no entries.
    #[verifier::external_body]
    pub fn new() -> (r: ElementMap)
        ensures
            forall|k: u64| !element_entries(r).dom().contains(k),
    {
        ElementMap { map: hashbrown::HashMap::new() }
    }

    /// Relies on hashbrown::HashMap::insert: after the call the key maps to
    /// the given value and every other key is untouched.
    #[verifier::external_body]
    pub fn set(&mut self, k: u64, v: String)
        ensures
            element_entries(*final(self)) == element_entries(*old(self)).insert(k, v@),
    {
        self.map.insert(k, v);
    }

    /// Relies on hashbrown::HashMap::get: returns the value stored for the
    /// key, if any.
    #[verifier::external_body]
    pub fn get(&self, k: u64) -> (r: Option<String>)
        ensures
            r is Some <==> element_entries(*self).dom().contains(k),
            r is Some ==> r->Some_0@ == element_entries(*self)[k],
    {
        self.map.get(&k).cloned()
    }

    /// Relies on hashbrown::HashMap::remove: drops the entry for the key, if
    /// any, and leaves every other key untouched.
    #[verifier::external_body]
    pub fn remove(&mut self, k: u64)
        ensures
            element_entries(*final(self)) == element_entries(*old(self)).remove(k),
    {
        self.map.remove(&k);
    }
}

} // verus!
