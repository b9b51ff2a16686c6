//! Model data attached to entities: a capability-tagged variant store.
//!
//! Each entity may carry values under caller-chosen type tags; a lookup
//! walks the structural ancestor chain and returns the nearest value for a
//! tag.  This keeps "model data attached at any ancestor" semantics without
//! open-ended reflection: the payload is an opaque word whose meaning
//! belongs to the tag's owner.

use vstd::prelude::*;

use crate::entity::Entity;
use crate::storage::SparseSet;
use crate::tree::Tree;

verus! {

/// One tagged payload attached to an entity.
#[derive(Clone, Copy, PartialEq, Eq, Structural, Debug)]
pub struct ModelEntry {
    /// The capability tag: which kind of data this is.
    pub tag: u64,
    /// The payload, opaque to the engine.
    pub value: u64,
}

/// The value stored for `tag` in one entity's entry list: the latest entry
/// wins, so rebinding a tag shadows the old value.
pub open spec fn spec_entry_lookup(entries: Seq<ModelEntry>, tag: u64) -> Option<u64>
    decreases entries.len(),
{
    if entries.len() == 0 {
        None
    } else if entries.last().tag == tag {
        Some(entries.last().value)
    } else {
        spec_entry_lookup(entries.drop_last(), tag)
    }
}

/// Per-entity model data.
pub struct ModelStore {
    /// Entry lists keyed by entity slot index.
    pub data: SparseSet<Vec<ModelEntry>>,
}

impl ModelStore {
    /// The entries attached to slot `idx`.
    pub open spec fn entries_of(self, idx: int) -> Seq<ModelEntry> {
        match self.data.spec_get(idx) {
            Some(v) => v@,
            None => Seq::empty(),
        }
    }

    /// An empty store.
    pub fn new() -> (s: ModelStore)
        ensures
            forall|idx: int| s.entries_of(idx) =~= Seq::<ModelEntry>::empty(),
    {
        ModelStore { data: SparseSet::new() }
    }

    /// Attach `value` under `tag` to slot `idx`, shadowing any earlier
    /// binding of the same tag there.
    pub fn bind(&mut self, idx: usize, tag: u64, value: u64)
        requires
            idx < usize::MAX,
        ensures
            final(self).entries_of(idx as int) == old(self).entries_of(idx as int).push(
                ModelEntry { tag, value },
            ),
            forall|idx2: int| idx2 != idx ==> final(self).entries_of(idx2) == old(self).entries_of(
                idx2,
            ),
            spec_entry_lookup(final(self).entries_of(idx as int), tag) == Some(value),
    {
        let mut entries: Vec<ModelEntry> = match self.data.get(idx) {
            Some(v) => {
                let mut copy: Vec<ModelEntry> = Vec::new();
                let mut i: usize = 0;
                while i < v.len()
                    invariant
                        i <= v.len(),
                        copy@ == v@.subrange(0, i as int),
                    decreases v.len() - i,
                {
                    copy.push(v[i]);
                    proof {
                        assert(copy@ =~= v@.subrange(0, i + 1));
                    }
                    i = i + 1;
                }
                proof {
                    assert(v@.subrange(0, v@.len() as int) =~= v@);
                }
                copy
            },
            None => Vec::new(),
        };
        entries.push(ModelEntry { tag, value });
        proof {
            assert(entries@.last() == (ModelEntry { tag, value }));
            assert(entries@.drop_last() =~= old(self).entries_of(idx as int));
        }
        self.data.insert(idx, entries);
    }

    /// Drop every entry of slot `idx`.
    pub fn clear_entity(&mut self, idx: usize)
        ensures
            final(self).entries_of(idx as int) =~= Seq::<ModelEntry>::empty(),
            forall|idx2: int| idx2 != idx ==> final(self).entries_of(idx2) == old(self).entries_of(
                idx2,
            ),
    {
        self.data.remove(idx);
    }

    /// The value bound to `tag` on slot `idx`, if any.
    pub fn lookup(&self, idx: usize, tag: u64) -> (r: Option<u64>)
        ensures
            r == spec_entry_lookup(self.entries_of(idx as int), tag),
    {
        match self.data.get(idx) {
            Some(v) => {
                let mut n: usize = v.len();
                proof {
                    assert(v@.subrange(0, v@.len() as int) =~= v@);
                }
                while n > 0
                    invariant
                        n <= v.len(),
                        self.data.spec_get(idx as int) == Some(*v),
                        spec_entry_lookup(v@, tag) == spec_entry_lookup(
                            v@.subrange(0, n as int),
                            tag,
                        ),
                    decreases n,
                {
                    proof {
                        assert(v@.subrange(0, n as int).last() == v@[n - 1]);
                        assert(v@.subrange(0, n as int).drop_last() =~= v@.subrange(0, n - 1));
                    }
                    if v[n - 1].tag == tag {
                        return Some(v[n - 1].value);
                    }
                    n = n - 1;
                }
                proof {
                    assert(v@.subrange(0, 0) =~= Seq::<ModelEntry>::empty());
                }
                None
            },
            None => None,
        }
    }
}

/// The nearest value bound to `tag` on `e` or one of its structural
/// ancestors.
pub open spec fn spec_nearest_model(t: Tree, s: ModelStore, e: Entity, tag: u64) -> Option<u64>
    decreases t.depth_of(e),
        when t.wf() && t.spec_alive(e)
        via Self_spec_nearest_model_decreases
{
    match spec_entry_lookup(s.entries_of(e.index as int), tag) {
        Some(v) => Some(v),
        None => match t.node_of(e).parent {
            Some(p) => spec_nearest_model(t, s, p, tag),
            None => None,
        },
    }
}

#[via_fn]
proof fn Self_spec_nearest_model_decreases(t: Tree, s: ModelStore, e: Entity, tag: u64) {
    if t.wf() && t.spec_alive(e) && t.node_of(e).parent is Some {
        assert(t.slot_wf(e.index as int));
    }
}

/// Look up the nearest binding of `tag` on `e` or its ancestors.
pub fn nearest_model(t: &Tree, s: &ModelStore, e: Entity, tag: u64) -> (r: Option<u64>)
    requires
        t.wf(),
        t.spec_alive(e),
    ensures
        r == spec_nearest_model(*t, *s, e, tag),
    decreases t.depth_of(e),
{
    proof {
        assert(t.slot_wf(e.index as int));
    }
    match s.lookup(e.index, tag) {
        Some(v) => Some(v),
        None => match t.parent(e) {
            Some(p) => nearest_model(t, s, p, tag),
            None => None,
        },
    }
}

} // verus!
