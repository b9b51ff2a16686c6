//! Entity handles: opaque identifiers for nodes of the UI tree.

use vstd::prelude::*;

verus! {

/// An opaque handle to one node of the UI tree.
///
/// An entity pairs an arena slot index with a generation counter.  The
/// generation distinguishes a live node from an older node whose slot was
/// reused after removal, so a stale handle never aliases a new node.
#[derive(Clone, Copy, PartialEq, Eq, Structural, Debug, Hash)]
pub struct Entity {
    /// Arena slot this entity occupies.
    pub index: usize,
    /// Generation of the slot at the time the entity was created.
    pub generation: u32,
}

impl Entity {
    /// The root entity: slot zero, generation zero, always live.
    pub fn root() -> (e: Entity)
        ensures
            e == Entity::spec_root(),
    {
        Entity { index: 0, generation: 0 }
    }

    /// The root handle as a specification-level constant.
    pub open spec fn spec_root() -> Entity {
        Entity { index: 0, generation: 0 }
    }
}

} // verus!
