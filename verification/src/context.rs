//! The owning context: the entity tree, the style store, and the queues
//! consumed by downstream subsystems, passed explicitly to every operation
//! instead of living in ambient globals.

use vstd::prelude::*;

use crate::entity::Entity;
use crate::events::Event;
use crate::models::ModelStore;
use crate::style::{Style, StyleError, StyleRule};
use crate::systems;
use crate::systems::RestyleReport;
use crate::tree::Tree;

verus! {

/// The owning context.  One of these exists per application; every style
/// operation threads through it, and a restyle pass has it exclusively.
pub struct Context {
    /// The entity tree.
    pub tree: Tree,
    /// The style store.
    pub style: Style,
    /// The entity operations currently apply to.
    pub current: Entity,
    /// How many children the current entity has been given this build.
    pub count: usize,
    /// The entity capturing input, if any.
    pub captured: Option<Entity>,
    /// The entity under the pointer.
    pub hovered: Entity,
    /// The entity holding keyboard focus.
    pub focused: Entity,
    /// Events waiting to be delivered.
    pub event_queue: Vec<Event>,
    /// Entities that need repainting, consumed by the renderer.
    pub redraw_list: Vec<Entity>,
    /// Model data attached to entities, looked up along the ancestor chain.
    pub models: ModelStore,
}

impl Context {
    /// The tree and the style store are both sound.
    pub open spec fn wf(self) -> bool {
        &&& self.tree.wf()
        &&& self.style.wf()
    }

    /// The style entries and model data at slot `idx` equal those of `other`:
    /// nothing of an entity's styling was touched.
    pub open spec fn spec_entity_state_preserved(self, other: Context, idx: int) -> bool {
        &&& (forall|p: int| self.style.inline_of(p, idx) == other.style.inline_of(p, idx))
        &&& (forall|p: int| self.style.shared_of(p, idx) == other.style.shared_of(p, idx))
        &&& (forall|p: int| self.style.inherited_of(p, idx) == other.style.inherited_of(p, idx))
        &&& self.style.ids.spec_get(idx) == other.style.ids.spec_get(idx)
        &&& self.style.classes.spec_get(idx) == other.style.classes.spec_get(idx)
        &&& self.style.pseudo.spec_get(idx) == other.style.pseudo.spec_get(idx)
        &&& crate::elements::element_entries(self.style.elements).dom().contains(idx as u64)
            == crate::elements::element_entries(other.style.elements).dom().contains(idx as u64)
        &&& (crate::elements::element_entries(other.style.elements).dom().contains(idx as u64)
            ==> crate::elements::element_entries(self.style.elements)[idx as u64]
            == crate::elements::element_entries(other.style.elements)[idx as u64])
        &&& self.style.restyle.spec_get(idx) == other.style.restyle.spec_get(idx)
        &&& self.style.text_update.spec_get(idx) == other.style.text_update.spec_get(idx)
        &&& self.models.entries_of(idx) == other.models.entries_of(idx)
    }

    /// The same preservation, against snapshots of the style store and the
    /// model store.
    pub open spec fn spec_entity_state_untouched(
        self,
        st: crate::style::Style,
        models: ModelStore,
        idx: int,
    ) -> bool {
        &&& (forall|p: int| self.style.inline_of(p, idx) == st.inline_of(p, idx))
        &&& (forall|p: int| self.style.shared_of(p, idx) == st.shared_of(p, idx))
        &&& (forall|p: int| self.style.inherited_of(p, idx) == st.inherited_of(p, idx))
        &&& self.style.ids.spec_get(idx) == st.ids.spec_get(idx)
        &&& self.style.classes.spec_get(idx) == st.classes.spec_get(idx)
        &&& self.style.pseudo.spec_get(idx) == st.pseudo.spec_get(idx)
        &&& crate::elements::element_entries(self.style.elements).dom().contains(idx as u64)
            == crate::elements::element_entries(st.elements).dom().contains(idx as u64)
        &&& (crate::elements::element_entries(st.elements).dom().contains(idx as u64)
            ==> crate::elements::element_entries(self.style.elements)[idx as u64]
            == crate::elements::element_entries(st.elements)[idx as u64])
        &&& self.style.restyle.spec_get(idx) == st.restyle.spec_get(idx)
        &&& self.style.text_update.spec_get(idx) == st.text_update.spec_get(idx)
        &&& self.models.entries_of(idx) == models.entries_of(idx)
    }

    /// Slot `idx` holds nothing in any style table or the model store: the
    /// state of a fully evicted entity.
    pub open spec fn spec_entity_state_cleared(self, idx: int) -> bool {
        &&& (forall|p: int| self.style.inline_of(p, idx) is None)
        &&& (forall|p: int| self.style.shared_of(p, idx) is None)
        &&& (forall|p: int| self.style.inherited_of(p, idx) is None)
        &&& self.style.ids.spec_get(idx) is None
        &&& self.style.classes.spec_get(idx) is None
        &&& self.style.pseudo.spec_get(idx) is None
        &&& !crate::elements::element_entries(self.style.elements).dom().contains(idx as u64)
        &&& self.style.restyle.spec_get(idx) is None
        &&& self.style.text_update.spec_get(idx) is None
        &&& self.models.entries_of(idx) =~= Seq::<crate::models::ModelEntry>::empty()
    }

    /// A fresh context: a tree holding only the root, an empty style store,
    /// and empty queues.
    pub fn new() -> (cx: Context)
        ensures
            cx.wf(),
            cx.tree.spec_alive(Entity::spec_root()),
            forall|x: Entity| cx.tree.spec_alive(x) ==> x == Entity::spec_root(),
            cx.tree.node_of(Entity::spec_root()).children.len() == 0,
            cx.current == Entity::spec_root(),
            cx.captured is None,
            cx.event_queue@.len() == 0,
            cx.redraw_list@.len() == 0,
            cx.style.rules.len() == 0,
            cx.style.props.len() == 2,
            cx.style.props@[crate::style::PROP_DISPLAY as int] == (crate::style::PropertyDef {
                inheritable: false,
                relayout: true,
                redraw: true,
                reflow: false,
                default_value: crate::style::DISPLAY_FLEX,
            }),
            cx.style.props@[crate::style::PROP_DISABLED as int] == (crate::style::PropertyDef {
                inheritable: true,
                relayout: false,
                redraw: true,
                reflow: false,
                default_value: 0,
            }),
            forall|p: int, idx: int| cx.style.inline_of(p, idx) is None,
            forall|p: int, idx: int| cx.style.shared_of(p, idx) is None,
            forall|p: int, idx: int| cx.style.inherited_of(p, idx) is None,
            forall|idx: int| cx.style.ids.spec_get(idx) is None,
            forall|idx: int| cx.style.classes.spec_get(idx) is None,
            forall|idx: int| cx.style.pseudo.spec_get(idx) is None,
            forall|ku: u64| !crate::elements::element_entries(cx.style.elements).dom().contains(ku),
            forall|idx: int| cx.style.restyle.spec_get(idx) is None,
            forall|idx: int| cx.style.text_update.spec_get(idx) is None,
            forall|idx: int| cx.models.entries_of(idx) =~= Seq::<crate::models::ModelEntry>::empty(),
    {
        Context {
            tree: Tree::new(),
            style: Style::new(),
            current: Entity::root(),
            count: 0,
            captured: None,
            hovered: Entity::root(),
            focused: Entity::root(),
            event_queue: Vec::new(),
            redraw_list: Vec::new(),
            models: ModelStore::new(),
        }
    }

    /// Create a fresh entity as the last child of `parent` and mark it for
    /// restyling.
    pub fn create(&mut self, parent: Entity, ignored: bool) -> (e: Entity)
        requires
            old(self).wf(),
            old(self).tree.spec_alive(parent),
        ensures
            final(self).wf(),
            final(self).tree.spec_alive(e),
            !old(self).tree.spec_alive(e),
            final(self).tree.node_of(e).parent == Some(parent),
            final(self).tree.node_of(e).ignored == ignored,
            forall|x: Entity| old(self).tree.spec_alive(x) ==> final(self).tree.spec_alive(x),
            forall|x: Entity|
                final(self).tree.spec_alive(x) && x != e ==> old(self).tree.spec_alive(x),
            forall|x: Entity|
                old(self).tree.spec_alive(x) && x != parent ==> final(self).tree.node_of(x)
                    == old(self).tree.node_of(x),
            final(self).tree.node_of(parent).parent == old(self).tree.node_of(parent).parent,
            final(self).tree.node_of(parent).ignored == old(self).tree.node_of(parent).ignored,
            final(self).tree.node_of(parent).depth == old(self).tree.node_of(parent).depth,
            final(self).tree.node_of(parent).children@ == old(self).tree.node_of(
                parent,
            ).children@.push(e),
            final(self).tree.node_of(e).children.len() == 0,
            final(self).style.restyle.spec_get(e.index as int) is Some,
            forall|idx: int|
                idx != e.index ==> final(self).style.restyle.spec_get(idx) == old(
                    self,
                ).style.restyle.spec_get(idx),
            final(self).style.needs_restyle,
            final(self).style.props@ == old(self).style.props@,
            final(self).style.rules@ == old(self).style.rules@,
            forall|p: int, idx: int|
                final(self).style.inline_of(p, idx) == old(self).style.inline_of(p, idx),
            forall|p: int, idx: int|
                final(self).style.shared_of(p, idx) == old(self).style.shared_of(p, idx),
            forall|p: int, idx: int|
                final(self).style.inherited_of(p, idx) == old(self).style.inherited_of(p, idx),
            final(self).style.ids == old(self).style.ids,
            final(self).style.classes == old(self).style.classes,
            final(self).style.pseudo == old(self).style.pseudo,
            final(self).style.elements == old(self).style.elements,
            final(self).style.text_update == old(self).style.text_update,
            final(self).models == old(self).models,
            final(self).current == old(self).current,
            final(self).count == old(self).count,
            final(self).captured == old(self).captured,
            final(self).hovered == old(self).hovered,
            final(self).focused == old(self).focused,
            final(self).event_queue@ == old(self).event_queue@,
            final(self).redraw_list@ == old(self).redraw_list@,
    {
        let e = self.tree.insert(parent, ignored);
        proof {
            assert(self.tree.slot_wf(e.index as int));
        }
        self.style.mark_restyle(e.index);
        e
    }

    /// Remove `e` and its whole subtree: the tree nodes die and every style
    /// table forgets every removed entity in the same step, so no later pass
    /// can dereference a stale entity.
    #[verifier::loop_isolation(false)]
    pub fn remove(&mut self, e: Entity)
        requires
            old(self).wf(),
            old(self).tree.spec_alive(e),
            e != Entity::spec_root(),
        ensures
            final(self).wf(),
            forall|x: Entity|
                final(self).tree.spec_alive(x) <==> (old(self).tree.spec_alive(x) && !old(self).tree.in_subtree(x, e)),
            forall|x: Entity|
                old(self).tree.spec_alive(x) && old(self).tree.in_subtree(x, e)
                    ==> final(self).spec_entity_state_cleared((#[trigger] x.index) as int),
            final(self).style.needs_restyle,
            final(self).style.needs_relayout,
            final(self).style.needs_redraw,
            final(self).style.props@ == old(self).style.props@,
            final(self).style.rules@ == old(self).style.rules@,
            final(self).current == old(self).current,
            final(self).count == old(self).count,
            final(self).hovered == old(self).hovered,
            final(self).focused == old(self).focused,
            final(self).event_queue@ == old(self).event_queue@,
            final(self).redraw_list@ == old(self).redraw_list@,
            forall|x: Entity|
                final(self).tree.spec_alive(x) && x != old(self).tree.node_of(e).parent->Some_0
                    ==> final(self).tree.node_of(x) == old(self).tree.node_of(x),
            old(self).tree.spec_alive(old(self).tree.node_of(e).parent->Some_0) && !old(
                self,
            ).tree.in_subtree(old(self).tree.node_of(e).parent->Some_0, e) ==> {
                let pe = old(self).tree.node_of(e).parent->Some_0;
                &&& final(self).tree.node_of(pe).parent == old(self).tree.node_of(pe).parent
                &&& final(self).tree.node_of(pe).ignored == old(self).tree.node_of(pe).ignored
                &&& final(self).tree.node_of(pe).depth == old(self).tree.node_of(pe).depth
                &&& exists|j: int|
                    0 <= j < old(self).tree.node_of(pe).children.len() && old(self).tree.node_of(
                        pe,
                    ).children@[j] == e && final(self).tree.node_of(pe).children@ == old(
                        self,
                    ).tree.node_of(pe).children@.remove(j)
            },
            forall|x: Entity|
                old(self).tree.spec_alive(x) && !old(self).tree.in_subtree(x, e)
                    ==> final(self).spec_entity_state_preserved(*old(self), (#[trigger] x.index) as int),
            forall|idx: int|
                0 <= idx <= usize::MAX && (forall|x: Entity|
                    old(self).tree.spec_alive(x) ==> (#[trigger] x.index) as int != idx)
                    ==> #[trigger] final(self).spec_entity_state_preserved(*old(self), idx),
            final(self).captured == (match old(self).captured {
                Some(c) => if old(self).tree.spec_alive(c) && !old(self).tree.in_subtree(c, e) {
                    Some(c)
                } else {
                    None
                },
                None => None::<Entity>,
            }),
    {
        let mut doomed: Vec<Entity> = Vec::new();
        self.tree.collect_subtree(e, &mut doomed);
        let ghost t0 = self.tree;
        self.tree.remove(e);
        match self.captured {
            Some(c) => {
                if !self.tree.alive(c) {
                    self.captured = None;
                }
            },
            None => {},
        }
        let ghost st0 = self.style;
        let ghost models0 = self.models;
        let ghost cap1 = self.captured;
        let ghost t1 = self.tree;
        let mut i: usize = 0;
        while i < doomed.len()
            invariant
                i <= doomed.len(),
                self.tree == t1,
                self.current == old(self).current,
                self.count == old(self).count,
                self.hovered == old(self).hovered,
                self.focused == old(self).focused,
                self.captured == cap1,
                self.event_queue@ == old(self).event_queue@,
                self.redraw_list@ == old(self).redraw_list@,
                forall|idx: int|
                    0 <= idx <= usize::MAX && (forall|k: int|
                        0 <= k < i ==> (#[trigger] doomed@[k]).index as int != idx)
                        ==> #[trigger] self.spec_entity_state_untouched(st0, models0, idx),
                self.style.wf(),
                self.style.props@ == st0.props@,
                self.style.rules@ == st0.rules@,
                self.style.rules_position_independent == st0.rules_position_independent,
                i > 0 ==> self.style.needs_restyle && self.style.needs_relayout
                    && self.style.needs_redraw,
                forall|k: int|
                    0 <= k < i ==> {
                        &&& (forall|p: int|
                            self.style.inline_of(
                                p,
                                (#[trigger] doomed@[k]).index as int,
                            ) is None)
                        &&& (forall|p: int|
                            self.style.shared_of(p, doomed@[k].index as int) is None)
                        &&& (forall|p: int|
                            self.style.inherited_of(p, doomed@[k].index as int) is None)
                        &&& self.style.ids.spec_get(doomed@[k].index as int) is None
                        &&& self.style.classes.spec_get(doomed@[k].index as int) is None
                        &&& self.style.pseudo.spec_get(doomed@[k].index as int) is None
                        &&& !crate::elements::element_entries(self.style.elements).dom().contains(
                            doomed@[k].index as u64,
                        )
                        &&& self.style.restyle.spec_get(doomed@[k].index as int) is None
                        &&& self.style.text_update.spec_get(doomed@[k].index as int) is None
                        &&& self.models.entries_of(doomed@[k].index as int) =~= Seq::<
                            crate::models::ModelEntry,
                        >::empty()
                    },
            decreases doomed.len() - i,
        {
            let x = doomed[i];
            proof {
                assert(t0.spec_alive(x));
                assert(t0.slot_wf(x.index as int));
            }
            let ghost cx_pre = *self;
            let ghost st_pre = self.style;
            self.style.remove_entity(x.index);
            let ghost models_pre = self.models;
            self.models.clear_entity(x.index);
            proof {
                // Entries cleared for earlier subtree members stay cleared:
                // each step empties one more slot and touches no other.
                assert forall|k: int|
                    0 <= k < i + 1 implies {
                    &&& (forall|p: int|
                        self.style.inline_of(p, (#[trigger] doomed@[k]).index as int) is None)
                    &&& (forall|p: int| self.style.shared_of(p, doomed@[k].index as int) is None)
                    &&& (forall|p: int|
                        self.style.inherited_of(p, doomed@[k].index as int) is None)
                    &&& self.style.ids.spec_get(doomed@[k].index as int) is None
                    &&& self.style.classes.spec_get(doomed@[k].index as int) is None
                    &&& self.style.pseudo.spec_get(doomed@[k].index as int) is None
                    &&& !crate::elements::element_entries(self.style.elements).dom().contains(
                        doomed@[k].index as u64,
                    )
                    &&& self.style.restyle.spec_get(doomed@[k].index as int) is None
                    &&& self.style.text_update.spec_get(doomed@[k].index as int) is None
                    &&& self.models.entries_of(doomed@[k].index as int) =~= Seq::<
                        crate::models::ModelEntry,
                    >::empty()
                } by {
                    if k < i {
                        if doomed@[k].index == x.index {
                        } else {
                            assert(doomed@[k].index as u64 != x.index as u64);
                            assert(self.models.entries_of(doomed@[k].index as int)
                                == models_pre.entries_of(doomed@[k].index as int));
                        }
                    }
                }
                assert forall|idx: int|
                    0 <= idx <= usize::MAX && (forall|k: int|
                        0 <= k < i + 1 ==> (#[trigger] doomed@[k]).index as int != idx)
                    implies #[trigger] self.spec_entity_state_untouched(st0, models0, idx) by {
                    assert(doomed@[i as int].index as int != idx);
                    assert(cx_pre.spec_entity_state_untouched(st0, models0, idx));
                    assert(idx as u64 != x.index as u64);
                    assert(self.models.entries_of(idx) == models_pre.entries_of(idx));
                }
            }
            i = i + 1;
        }
        proof {
            assert forall|x: Entity|
                old(self).tree.spec_alive(x) && old(self).tree.in_subtree(x, e) implies {
                &&& (forall|p: int|
                    self.style.inline_of(p, (#[trigger] x.index) as int) is None)
                &&& (forall|p: int| self.style.shared_of(p, x.index as int) is None)
                &&& (forall|p: int| self.style.inherited_of(p, x.index as int) is None)
                &&& self.style.ids.spec_get(x.index as int) is None
                &&& self.style.classes.spec_get(x.index as int) is None
                &&& self.style.pseudo.spec_get(x.index as int) is None
                &&& !crate::elements::element_entries(self.style.elements).dom().contains(
                    x.index as u64,
                )
                &&& self.style.restyle.spec_get(x.index as int) is None
                &&& self.style.text_update.spec_get(x.index as int) is None
                &&& self.models.entries_of(x.index as int) =~= Seq::<
                    crate::models::ModelEntry,
                >::empty()
            } by {
                let k = choose|k: int| 0 <= k < doomed@.len() && doomed@[k] == x;
                assert(doomed@[k] == x);
            }
            assert(doomed@.len() > 0) by {
                assert(t0.in_subtree(e, e));
            }
            assert(st0 == old(self).style);
            assert(models0 == old(self).models);
            assert forall|x: Entity|
                old(self).tree.spec_alive(x) && !old(self).tree.in_subtree(x, e)
                implies (*self).spec_entity_state_preserved(*old(self), (#[trigger] x.index) as int) by {
                assert forall|k: int|
                    0 <= k < doomed.len() implies (#[trigger] doomed@[k]).index as int
                    != x.index as int by {
                    if doomed@[k].index == x.index {
                        assert(old(self).tree.spec_alive(doomed@[k]));
                        assert(doomed@[k] == x);
                    }
                }
                assert(self.spec_entity_state_untouched(st0, models0, x.index as int));
            }
            assert forall|idx: int|
                0 <= idx <= usize::MAX && (forall|x: Entity|
                    old(self).tree.spec_alive(x) ==> (#[trigger] x.index) as int != idx)
                implies #[trigger] (*self).spec_entity_state_preserved(*old(self), idx) by {
                assert forall|k: int|
                    0 <= k < doomed.len() implies (#[trigger] doomed@[k]).index as int != idx by {
                    assert(old(self).tree.spec_alive(doomed@[k]));
                }
                assert(self.spec_entity_state_untouched(st0, models0, idx));
            }
        }
    }

    /// Remove every child of `e`, with their subtrees: the children's
    /// subtrees die and are evicted exactly as `remove` leaves them, while
    /// `e` and everything outside keep their entries.
    #[verifier::loop_isolation(false)]
    pub fn remove_children(&mut self, e: Entity)
        requires
            old(self).wf(),
            old(self).tree.spec_alive(e),
        ensures
            final(self).wf(),
            final(self).tree.spec_alive(e),
            final(self).tree.node_of(e).children.len() == 0,
            forall|x: Entity|
                final(self).tree.spec_alive(x) <==> (old(self).tree.spec_alive(x) && (x == e
                    || !old(self).tree.in_subtree(x, e))),
            forall|x: Entity|
                old(self).tree.spec_alive(x) && x != e && old(self).tree.in_subtree(x, e)
                    ==> final(self).spec_entity_state_cleared((#[trigger] x.index) as int),
            forall|x: Entity|
                old(self).tree.spec_alive(x) && (x == e || !old(self).tree.in_subtree(x, e))
                    ==> final(self).spec_entity_state_preserved(*old(self), (#[trigger] x.index) as int),
            forall|idx: int|
                0 <= idx <= usize::MAX && (forall|x: Entity|
                    old(self).tree.spec_alive(x) ==> (#[trigger] x.index) as int != idx)
                    ==> #[trigger] final(self).spec_entity_state_preserved(*old(self), idx),
        decreases old(self).tree.node_of(e).children.len(),
    {
        proof {
            assert(self.tree.slot_wf(e.index as int));
        }
        let cs = self.tree.children(e);
        if cs.len() == 0 {
            proof {
                // An empty child list means the subtree is e alone.
                assert forall|x: Entity|
                    old(self).tree.spec_alive(x) && #[trigger] old(self).tree.in_subtree(x, e)
                    implies x == e by {
                    if x != e {
                        old(self).tree.lemma_subtree_via_child(x, e);
                    }
                }
            }
        } else {
            let c = cs[0];
            proof {
                assert(self.tree.spec_alive(c));
                assert(self.tree.slot_wf(c.index as int));
                assert(c != Entity::spec_root());
                if self.tree.in_subtree(e, c) {
                    self.tree.lemma_subtree_depth(e, c);
                }
            }
            proof {
                assert(old(self).tree.entity_at(e.index as int) == e);
                assert(old(self).tree.node_of(c).parent == Some(e));
                assert(c != e);
                assert(old(self).tree.in_subtree(e, e));
                assert(old(self).tree.in_subtree(c, e));
            }
            self.remove(c);
            let ghost mid = *self;
            proof {
                let jw = choose|jw: int|
                    0 <= jw < old(self).tree.node_of(e).children.len() && old(self).tree.node_of(e).children@[jw] == c && self.tree.node_of(e).children@ == old(self).tree.node_of(e).children@.remove(jw);
                assert(self.tree.node_of(e).children.len() < old(self).tree.node_of(e).children.len());
                // Survivors keep their parent links and depths, so subtree
                // membership below e is unchanged.
                assert forall|y: Entity| mid.tree.spec_alive(y) implies old(self).tree.spec_alive(
                    y,
                ) && mid.tree.node_of(y).parent == old(self).tree.node_of(y).parent
                    && mid.tree.node_of(y).depth == old(self).tree.node_of(y).depth by {
                    if y != e {
                        assert(mid.tree.node_of(y) == old(self).tree.node_of(y));
                    } else {
                        assert(old(self).tree.spec_alive(e) && !old(self).tree.in_subtree(e, c));
                        assert(old(self).tree.node_of(c).parent->Some_0 == e);
                        assert(mid.tree.node_of(e).parent == old(self).tree.node_of(e).parent);
                        assert(mid.tree.node_of(e).depth == old(self).tree.node_of(e).depth);
                    }
                }
            }
            self.remove_children(e);
            proof {
                let olds = *old(self);
                assert forall|y: Entity| mid.tree.spec_alive(y) implies olds.tree.spec_alive(y)
                    && mid.tree.node_of(y).parent == olds.tree.node_of(y).parent
                    && mid.tree.node_of(y).depth == olds.tree.node_of(y).depth by {
                    if y != e {
                        assert(mid.tree.node_of(y) == olds.tree.node_of(y));
                    } else {
                        assert(olds.tree.spec_alive(e) && !olds.tree.in_subtree(e, c));
                    }
                }
                // Membership transfer between the pre and mid trees.
                assert forall|x: Entity| mid.tree.spec_alive(x) implies #[trigger] mid.tree.in_subtree(
                    x,
                    e,
                ) == olds.tree.in_subtree(x, e) by {
                    Tree::lemma_in_subtree_preserved(olds.tree, mid.tree, x, e);
                }
                // Alive exactly outside the children's subtrees.
                assert forall|x: Entity| #[trigger] (*self).tree.spec_alive(x) implies (
                olds.tree.spec_alive(x) && (x == e || !olds.tree.in_subtree(x, e))) by {
                    assert(mid.tree.spec_alive(x));
                }
                assert forall|x: Entity|
                    olds.tree.spec_alive(x) && (x == e || !olds.tree.in_subtree(x, e))
                    implies #[trigger] (*self).tree.spec_alive(x) by {
                    if olds.tree.in_subtree(x, c) {
                        if x == e {
                            olds.tree.lemma_subtree_depth(e, c);
                            assert(olds.tree.slot_wf(c.index as int));
                            assert(false);
                        } else {
                            olds.tree.lemma_subtree_trans(x, c, e);
                            assert(false);
                        }
                    }
                    assert(mid.tree.spec_alive(x));
                }
                // Eviction for every removed child subtree member.
                assert forall|x: Entity|
                    olds.tree.spec_alive(x) && x != e && olds.tree.in_subtree(x, e)
                    implies (*self).spec_entity_state_cleared((#[trigger] x.index) as int) by {
                    if olds.tree.in_subtree(x, c) {
                        assert(mid.spec_entity_state_cleared(x.index as int));
                        assert(!mid.tree.spec_alive(x));
                        assert forall|y: Entity|
                            mid.tree.spec_alive(y) implies (#[trigger] y.index) as int
                            != x.index as int by {
                            if y.index == x.index {
                                assert(olds.tree.spec_alive(y));
                                assert(y == x);
                            }
                        }
                        assert((*self).spec_entity_state_preserved(mid, x.index as int));
                    } else {
                        assert(mid.tree.spec_alive(x));
                        assert(mid.tree.in_subtree(x, e));
                        assert((*self).spec_entity_state_cleared(x.index as int));
                    }
                }
                // Preservation for e and everything outside.
                assert forall|x: Entity|
                    olds.tree.spec_alive(x) && (x == e || !olds.tree.in_subtree(x, e))
                    implies (*self).spec_entity_state_preserved(
                    olds,
                    (#[trigger] x.index) as int,
                ) by {
                    if olds.tree.in_subtree(x, c) {
                        if x == e {
                            olds.tree.lemma_subtree_depth(e, c);
                            assert(false);
                        } else {
                            olds.tree.lemma_subtree_trans(x, c, e);
                            assert(false);
                        }
                    }
                    assert(olds.tree.spec_alive(x));
                    assert(!olds.tree.in_subtree(x, c));
                    assert(mid.tree.spec_alive(x));
                    assert(mid.spec_entity_state_preserved(olds, x.index as int));
                    assert((*self).spec_entity_state_preserved(mid, x.index as int));
                }
                assert forall|idx: int|
                    0 <= idx <= usize::MAX && (forall|x: Entity|
                        olds.tree.spec_alive(x) ==> (#[trigger] x.index) as int != idx)
                    implies #[trigger] (*self).spec_entity_state_preserved(olds, idx) by {
                    assert(mid.spec_entity_state_preserved(olds, idx));
                    assert forall|x: Entity|
                        mid.tree.spec_alive(x) implies (#[trigger] x.index) as int != idx by {
                        assert(olds.tree.spec_alive(x));
                    }
                    assert((*self).spec_entity_state_preserved(mid, idx));
                }
            }
        }
    }

    /// Remove any children of the current entity beyond the `count` built
    /// this pass: they were cached in the tree but are no longer required.
    pub fn remove_trailing_children(&mut self)
        requires
            old(self).wf(),
            old(self).tree.spec_alive(old(self).current),
        ensures
            final(self).wf(),
            final(self).current == old(self).current,
            final(self).tree.spec_alive(final(self).current),
            final(self).tree.node_of(final(self).current).children.len() <= final(self).count,
            final(self).count == old(self).count,
        decreases old(self).tree.node_of(old(self).current).children.len(),
    {
        proof {
            assert(self.tree.slot_wf(self.current.index as int));
        }
        let cs = self.tree.children(self.current);
        if cs.len() > self.count {
            let c = cs[self.count];
            proof {
                assert(self.tree.spec_alive(c));
                assert(self.tree.slot_wf(c.index as int));
                assert(c != Entity::spec_root());
                if self.tree.in_subtree(self.current, c) {
                    self.tree.lemma_subtree_depth(self.current, c);
                }
            }
            let current = self.current;
            proof {
                assert(old(self).tree.entity_at(current.index as int) == current);
                assert(old(self).tree.node_of(c).parent == Some(current));
            }
            self.remove(c);
            proof {
                let jw = choose|jw: int|
                    0 <= jw < old(self).tree.node_of(current).children.len() && old(self).tree.node_of(current).children@[jw] == c && self.tree.node_of(
                        current,
                    ).children@ == old(self).tree.node_of(current).children@.remove(jw);
                assert(self.tree.node_of(current).children.len() < old(self).tree.node_of(
                    current,
                ).children.len());
                assert(!old(self).tree.in_subtree(current, c));
                assert(self.tree.spec_alive(current));
                assert(self.current == current);
                assert(self.wf());
            }
            self.remove_trailing_children();
        }
    }

    /// Queue a message from the current entity, propagating up the tree.
    pub fn emit(&mut self, message: crate::events::Message)
        ensures
            final(self).event_queue@.len() == old(self).event_queue@.len() + 1,
            final(self).event_queue@.subrange(0, old(self).event_queue@.len() as int) == old(self).event_queue@,
            final(self).event_queue@.last().message == message,
            final(self).event_queue@.last().target == old(self).current,
            final(self).event_queue@.last().origin == old(self).current,
            final(self).event_queue@.last().propagation == crate::events::Propagation::Up,
            !final(self).event_queue@.last().trace,
            final(self).tree == old(self).tree,
            final(self).style == old(self).style,
    {
        let event = Event::new(message).target(self.current).origin(self.current).propagate(
            crate::events::Propagation::Up,
        );
        self.event_queue.push(event);
        proof {
            assert(self.event_queue@.subrange(0, old(self).event_queue@.len() as int)
                =~= old(self).event_queue@);
        }
    }

    /// Queue a message delivered directly to `target`.
    pub fn emit_to(&mut self, target: Entity, message: crate::events::Message)
        ensures
            final(self).event_queue@.len() == old(self).event_queue@.len() + 1,
            final(self).event_queue@.subrange(0, old(self).event_queue@.len() as int) == old(self).event_queue@,
            final(self).event_queue@.last().message == message,
            final(self).event_queue@.last().target == target,
            final(self).event_queue@.last().origin == old(self).current,
            final(self).event_queue@.last().propagation == crate::events::Propagation::Direct,
            final(self).tree == old(self).tree,
            final(self).style == old(self).style,
    {
        let event = Event::new(message).target(target).origin(self.current).propagate(
            crate::events::Propagation::Direct,
        );
        self.event_queue.push(event);
        proof {
            assert(self.event_queue@.subrange(0, old(self).event_queue@.len() as int)
                =~= old(self).event_queue@);
        }
    }

    /// Queue a message from the current entity with delivery tracing on.
    pub fn emit_trace(&mut self, message: crate::events::Message)
        ensures
            final(self).event_queue@.len() == old(self).event_queue@.len() + 1,
            final(self).event_queue@.subrange(0, old(self).event_queue@.len() as int) == old(self).event_queue@,
            final(self).event_queue@.last().message == message,
            final(self).event_queue@.last().trace,
            final(self).tree == old(self).tree,
            final(self).style == old(self).style,
    {
        let event = Event::new(message).target(self.current).origin(self.current).propagate(
            crate::events::Propagation::Up,
        ).trace();
        self.event_queue.push(event);
        proof {
            assert(self.event_queue@.subrange(0, old(self).event_queue@.len() as int)
                =~= old(self).event_queue@);
        }
    }

    /// Replace the rule set; on success every live entity is marked dirty,
    /// since any entity's matches may have changed.  A rule set using an
    /// unimplemented or malformed selector is rejected whole, leaving the
    /// previous rules in effect.
    #[verifier::loop_isolation(false)]
    pub fn set_rules(&mut self, rules: Vec<StyleRule>) -> (r: Result<(), StyleError>)
        requires
            old(self).wf(),
        ensures
            final(self).wf(),
            r is Ok <==> (forall|i: int|
                0 <= i < rules.len() ==> (#[trigger] rules@[i]).spec_supported()),
            r is Err ==> final(self).style == old(self).style,
            r is Ok ==> {
                &&& final(self).style.rules@ == rules@
                &&& final(self).style.needs_restyle
                &&& forall|x: Entity|
                    final(self).tree.spec_alive(x) ==> final(self).style.restyle.spec_get(
                        (#[trigger] x.index) as int,
                    ) is Some
            },
            final(self).tree == old(self).tree,
            final(self).style.props@ == old(self).style.props@,
            forall|p: int, idx: int|
                final(self).style.inline_of(p, idx) == old(self).style.inline_of(p, idx),
            forall|p: int, idx: int|
                final(self).style.shared_of(p, idx) == old(self).style.shared_of(p, idx),
            forall|p: int, idx: int|
                final(self).style.inherited_of(p, idx) == old(self).style.inherited_of(p, idx),
            final(self).style.ids == old(self).style.ids,
            final(self).style.classes == old(self).style.classes,
            final(self).style.pseudo == old(self).style.pseudo,
            final(self).style.elements == old(self).style.elements,
            final(self).style.text_update == old(self).style.text_update,
            forall|idx: int|
                old(self).style.restyle.spec_get(idx) is Some
                    ==> final(self).style.restyle.spec_get(idx) is Some,
            final(self).models == old(self).models,
            final(self).current == old(self).current,
            final(self).count == old(self).count,
            final(self).captured == old(self).captured,
            final(self).hovered == old(self).hovered,
            final(self).focused == old(self).focused,
            final(self).event_queue@ == old(self).event_queue@,
            final(self).redraw_list@ == old(self).redraw_list@,
    {
        let result = self.style.set_rules(rules);
        if result.is_err() {
            return result;
        }
        let order = self.tree.breadth_order();
        let mut k: usize = 0;
        while k < order.len()
            invariant
                k <= order.len(),
                self.tree == old(self).tree,
                self.current == old(self).current,
                self.count == old(self).count,
                self.captured == old(self).captured,
                self.hovered == old(self).hovered,
                self.focused == old(self).focused,
                self.event_queue@ == old(self).event_queue@,
                self.redraw_list@ == old(self).redraw_list@,
                self.models == old(self).models,
                self.style.wf(),
                self.style.rules@ == rules@,
                self.style.needs_restyle,
                self.style.props@ == old(self).style.props@,
                forall|p: int, idx: int|
                    self.style.inline_of(p, idx) == old(self).style.inline_of(p, idx),
                forall|p: int, idx: int|
                    self.style.shared_of(p, idx) == old(self).style.shared_of(p, idx),
                forall|p: int, idx: int|
                    self.style.inherited_of(p, idx) == old(self).style.inherited_of(p, idx),
                self.style.ids == old(self).style.ids,
                self.style.classes == old(self).style.classes,
                self.style.pseudo == old(self).style.pseudo,
                self.style.elements == old(self).style.elements,
                self.style.text_update == old(self).style.text_update,
                forall|idx: int|
                    old(self).style.restyle.spec_get(idx) is Some ==> self.style.restyle.spec_get(
                        idx,
                    ) is Some,
                forall|k2: int|
                    0 <= k2 < k ==> self.style.restyle.spec_get(
                        (#[trigger] order@[k2]).index as int,
                    ) is Some,
            decreases order.len() - k,
        {
            let e = order[k];
            proof {
                assert(self.tree.spec_alive(e));
                assert(self.tree.slot_wf(e.index as int));
            }
            let ghost st_pre = self.style;
            self.style.mark_restyle(e.index);
            proof {
                assert forall|k2: int|
                    0 <= k2 < k + 1 implies self.style.restyle.spec_get(
                    (#[trigger] order@[k2]).index as int,
                ) is Some by {
                    if k2 < k {
                        if order@[k2].index != e.index {
                            assert(self.style.restyle.spec_get(order@[k2].index as int)
                                == st_pre.restyle.spec_get(order@[k2].index as int));
                        }
                    }
                }
            }
            k = k + 1;
        }
        proof {
            assert forall|x: Entity|
                self.tree.spec_alive(x) implies self.style.restyle.spec_get(
                (#[trigger] x.index) as int,
            ) is Some by {
                assert(order@.contains(x));
                let k2 = choose|k2: int| 0 <= k2 < order@.len() && order@[k2] == x;
                assert(self.style.restyle.spec_get(order@[k2].index as int) is Some);
            }
        }
        Ok(())
    }

    /// Run one restyle pass over the dirty set (see
    /// [`systems::style_system`] for the exact contract on the stores).
    pub fn restyle(&mut self) -> (report: RestyleReport)
        requires
            old(self).wf(),
        ensures
            final(self).wf(),
            final(self).tree == old(self).tree,
            forall|idx: int| final(self).style.restyle.spec_get(idx) is None,
            forall|x: Entity, p: int|
                old(self).tree.spec_alive(x) && old(self).style.restyle.spec_get(
                    x.index as int,
                ) is Some && 0 <= p < old(self).style.props.len() ==> final(self).style.shared_of(p, x.index as int) == systems::spec_link_result(
                    old(self).style,
                    systems::spec_matched_rules(old(self).tree, old(self).style, x),
                    p,
                    x.index as int,
                ),
            forall|p: int, idx: int|
                (forall|x: Entity|
                    old(self).tree.spec_alive(x) && old(self).style.restyle.spec_get(
                        (#[trigger] x.index) as int,
                    ) is Some ==> x.index as int != idx)
                    ==> #[trigger] final(self).style.shared_of(p, idx) == old(
                    self,
                ).style.shared_of(p, idx),
            (exists|idx: int| old(self).style.restyle.spec_get(idx) is Some) ==> forall|x: Entity|
                old(self).tree.spec_alive(x) ==> systems::spec_inherited_ok(
                    old(self).tree,
                    final(self).style,
                    true,
                    x,
                ),
            (forall|idx: int| old(self).style.restyle.spec_get(idx) is None) ==> forall|x: Entity|
                old(self).tree.spec_alive(x) ==> systems::spec_inherited_ok(
                    old(self).tree,
                    final(self).style,
                    false,
                    x,
                ),
            final(self).style.props@ == old(self).style.props@,
            final(self).style.rules@ == old(self).style.rules@,
            final(self).style.rules_position_independent == old(
                self,
            ).style.rules_position_independent,
            final(self).style.ids == old(self).style.ids,
            final(self).style.classes == old(self).style.classes,
            final(self).style.pseudo == old(self).style.pseudo,
            final(self).style.elements == old(self).style.elements,
            forall|p: int, idx: int|
                final(self).style.inline_of(p, idx) == old(self).style.inline_of(p, idx),
            forall|p: int, idx: int|
                !(0 <= p < old(self).style.props.len() && old(self).style.props@[p].inheritable)
                    ==> #[trigger] final(self).style.inherited_of(p, idx) == old(
                    self,
                ).style.inherited_of(p, idx),
            forall|p: int, idx: int|
                (old(self).style.inline_of(p, idx) is Some || old(self).style.shared_of(
                    p,
                    idx,
                ) is Some) ==> #[trigger] final(self).style.inherited_of(p, idx) == old(
                    self,
                ).style.inherited_of(p, idx),
            final(self).style.needs_relayout == (old(self).style.needs_relayout || exists|
                x: Entity,
            |
                old(self).tree.spec_alive(x) && old(self).style.restyle.spec_get(
                    (#[trigger] x.index) as int,
                ) is Some && systems::spec_link_triggers_relayout(
                    old(self).style,
                    systems::spec_matched_rules(old(self).tree, old(self).style, x),
                    x.index as int,
                )),
            forall|e2: int|
                final(self).style.text_update.spec_get(e2) == old(
                    self,
                ).style.text_update.spec_get(e2) || final(self).style.text_update.spec_get(e2)
                    == Some(true),
            forall|x: Entity|
                old(self).tree.spec_alive(x) && old(self).style.restyle.spec_get(
                    (#[trigger] x.index) as int,
                ) is Some && systems::spec_link_triggers_reflow(
                    old(self).style,
                    systems::spec_matched_rules(old(self).tree, old(self).style, x),
                    x.index as int,
                ) && systems::spec_reflow_target(old(self).tree, final(self).style, x) is Some
                    ==> final(self).style.text_update.spec_get(
                    (systems::spec_reflow_target(
                        old(self).tree,
                        final(self).style,
                        x,
                    )->Some_0).index as int,
                ) == Some(true),
            forall|x: Entity|
                old(self).tree.spec_alive(x) && old(self).style.restyle.spec_get(
                    (#[trigger] x.index) as int,
                ) is Some && systems::spec_link_triggers_redraw(
                    old(self).style,
                    systems::spec_matched_rules(old(self).tree, old(self).style, x),
                    x.index as int,
                ) ==> final(self).redraw_list@.contains(x),
            final(self).redraw_list@.len() >= old(self).redraw_list@.len(),
            final(self).redraw_list@.subrange(0, old(self).redraw_list@.len() as int) == old(
                self,
            ).redraw_list@,
            final(self).models == old(self).models,
            final(self).current == old(self).current,
            final(self).count == old(self).count,
            final(self).captured == old(self).captured,
            final(self).hovered == old(self).hovered,
            final(self).focused == old(self).focused,
            final(self).event_queue@ == old(self).event_queue@,
    {
        systems::style_system(&self.tree, &mut self.style, &mut self.redraw_list)
    }

    /// The resolved value of property `p` on a live entity: inline over
    /// shared over inherited over the declared default.  Asking about a
    /// removed entity is a contract violation, not a silent default.
    pub fn resolved(&self, e: Entity, p: usize) -> (r: u64)
        requires
            self.wf(),
            self.tree.spec_alive(e),
            p < self.style.props.len(),
        ensures
            r == self.style.resolved_of(p as int, e.index as int),
    {
        self.style.resolved_value(p, e.index)
    }

    /// Attach model data under a capability tag to a live entity,
    /// shadowing any earlier binding of the same tag there.
    pub fn bind_model(&mut self, e: Entity, tag: u64, value: u64)
        requires
            old(self).wf(),
            old(self).tree.spec_alive(e),
        ensures
            final(self).wf(),
            final(self).tree == old(self).tree,
            final(self).style == old(self).style,
            crate::models::spec_entry_lookup(
                final(self).models.entries_of(e.index as int),
                tag,
            ) == Some(value),
            forall|idx2: int|
                idx2 != e.index ==> final(self).models.entries_of(idx2) == old(
                    self,
                ).models.entries_of(idx2),
    {
        proof {
            assert(self.tree.slot_wf(e.index as int));
        }
        self.models.bind(e.index, tag, value);
    }

    /// The nearest model value bound under `tag` on `e` or one of its
    /// structural ancestors, if any ancestor carries one.
    pub fn data(&self, e: Entity, tag: u64) -> (r: Option<u64>)
        requires
            self.wf(),
            self.tree.spec_alive(e),
        ensures
            r == crate::models::spec_nearest_model(self.tree, self.models, e, tag),
    {
        crate::models::nearest_model(&self.tree, &self.models, e, tag)
    }

    /// Take the accumulated redraw list, leaving it empty: the renderer
    /// consumes it once per frame.
    pub fn take_redraw_list(&mut self) -> (r: Vec<Entity>)
        ensures
            r@ == old(self).redraw_list@,
            final(self).redraw_list@.len() == 0,
            final(self).tree == old(self).tree,
            final(self).style == old(self).style,
    {
        let mut out: Vec<Entity> = Vec::new();
        core::mem::swap(&mut out, &mut self.redraw_list);
        out
    }
}

} // verus!
