//! The entity tree: an arena of nodes with parent/child adjacency, a
//! layout-parent relation that skips transparent wrapper nodes, and
//! breadth-first traversal used by the restyle driver.

use vstd::prelude::*;

use crate::entity::Entity;

verus! {

/// Payload of a live arena slot.
pub struct Node {
    /// Structural parent; `None` only for the root.
    pub parent: Option<Entity>,
    /// Structural children, in insertion order.  Order is significant: it
    /// drives sibling positions and traversal order.
    pub children: Vec<Entity>,
    /// A node marked ignored is transparent for layout: selector combinators
    /// and inheritance skip it and treat its children as children of its
    /// nearest non-ignored ancestor.
    pub ignored: bool,
    /// Distance from the root along structural parent links.
    pub depth: usize,
}

/// One arena slot: a generation counter plus the node, if the slot is live.
pub struct Slot {
    /// Bumped whenever the slot's node is destroyed, so stale handles die.
    pub generation: u32,
    /// The node stored in this slot, or `None` for a free slot.
    pub node: Option<Node>,
}

/// The entity tree.  Slot 0 always holds the root.
pub struct Tree {
    /// The arena.
    pub slots: Vec<Slot>,
    /// Indices of dead slots available for reuse.
    pub free: Vec<usize>,
}

impl Tree {
    /// Does `e` refer to a live node?
    pub open spec fn spec_alive(self, e: Entity) -> bool {
        &&& e.index < self.slots.len()
        &&& self.slots@[e.index as int].generation == e.generation
        &&& self.slots@[e.index as int].node is Some
    }

    /// The node of a live entity.
    pub open spec fn node_of(self, e: Entity) -> Node
        recommends
            self.spec_alive(e),
    {
        self.slots@[e.index as int].node->Some_0
    }

    /// Depth of a live entity.
    pub open spec fn depth_of(self, e: Entity) -> int
        recommends
            self.spec_alive(e),
    {
        self.node_of(e).depth as int
    }

    /// The entity handle currently denoting slot `i`.
    pub open spec fn entity_at(self, i: int) -> Entity {
        Entity { index: i as usize, generation: self.slots@[i].generation }
    }

    /// Well-formedness of one live slot: parent link, depth, and child links.
    pub open spec fn slot_wf(self, i: int) -> bool
        recommends
            0 <= i < self.slots.len(),
            self.slots@[i].node is Some,
    {
        let n = self.slots@[i].node->Some_0;
        &&& (i == 0 <==> n.parent is None)
        &&& n.depth < self.slots.len()
        &&& (i == 0 ==> n.depth == 0 && !n.ignored)
        &&& (n.parent is Some ==> {
            let p = n.parent->Some_0;
            &&& self.spec_alive(p)
            &&& p.index != i
            &&& n.depth == self.node_of(p).depth + 1
            &&& exists|j: int|
                0 <= j < self.node_of(p).children.len() && self.node_of(p).children@[j]
                    == self.entity_at(i)
        })
        &&& forall|j: int|
            0 <= j < n.children.len() ==> {
                &&& self.spec_alive(#[trigger] n.children@[j])
                &&& self.node_of(n.children@[j]).parent == Some(self.entity_at(i))
            }
        &&& forall|j1: int, j2: int|
            0 <= j1 < j2 < n.children.len() ==> n.children@[j1] != n.children@[j2]
    }

    /// Well-formedness of the free list: dead, non-root, distinct slots.
    pub open spec fn free_wf(self) -> bool {
        &&& forall|k: int|
            0 <= k < self.free.len() ==> {
                &&& 0 < #[trigger] self.free@[k] < self.slots.len()
                &&& self.slots@[self.free@[k] as int].node is None
            }
        &&& forall|k1: int, k2: int|
            0 <= k1 < k2 < self.free.len() ==> self.free@[k1] != self.free@[k2]
    }

    /// Well-formedness of the whole arena.
    pub open spec fn wf(self) -> bool {
        &&& 0 < self.slots.len()
        &&& self.slots@[0].generation == 0
        &&& self.slots@[0].node is Some
        &&& forall|i: int|
            0 <= i < self.slots.len() && self.slots@[i].node is Some ==> self.slot_wf(i)
        &&& self.free_wf()
    }

    /// A fresh tree holding only the root.
    pub fn new() -> (t: Tree)
        ensures
            t.wf(),
            t.spec_alive(Entity::spec_root()),
            forall|x: Entity| t.spec_alive(x) ==> x == Entity::spec_root(),
            t.node_of(Entity::spec_root()).children.len() == 0,
    {
        let root = Node { parent: None, children: Vec::new(), ignored: false, depth: 0 };
        let mut slots: Vec<Slot> = Vec::new();
        slots.push(Slot { generation: 0, node: Some(root) });
        Tree { slots, free: Vec::new() }
    }

    /// Does `e` refer to a live node?
    pub fn alive(&self, e: Entity) -> (r: bool)
        ensures
            r == self.spec_alive(e),
    {
        e.index < self.slots.len() && self.slots[e.index].generation == e.generation
            && self.slots[e.index].node.is_some()
    }

    /// Structural parent of a live entity; `None` only for the root.
    pub fn parent(&self, e: Entity) -> (r: Option<Entity>)
        requires
            self.wf(),
            self.spec_alive(e),
        ensures
            r == self.node_of(e).parent,
    {
        match &self.slots[e.index].node {
            Some(n) => n.parent,
            None => None,
        }
    }

    /// Is this node transparent for layout?
    pub fn is_ignored(&self, e: Entity) -> (r: bool)
        requires
            self.wf(),
            self.spec_alive(e),
        ensures
            r == self.node_of(e).ignored,
    {
        match &self.slots[e.index].node {
            Some(n) => n.ignored,
            None => false,
        }
    }

    /// Structural children of a live entity, in order.
    pub fn children(&self, e: Entity) -> (r: Vec<Entity>)
        requires
            self.wf(),
            self.spec_alive(e),
        ensures
            r@ == self.node_of(e).children@,
    {
        match &self.slots[e.index].node {
            Some(n) => n.children.clone(),
            None => Vec::new(),
        }
    }

    /// Insert a fresh node as the last child of `parent`.
    ///
    /// A dead slot is reused when one is available (the handle differs from
    /// every earlier handle by its generation); otherwise the arena grows.
    pub fn insert(&mut self, parent: Entity, ignored: bool) -> (e: Entity)
        requires
            old(self).wf(),
            old(self).spec_alive(parent),
        ensures
            final(self).wf(),
            final(self).spec_alive(e),
            !old(self).spec_alive(e),
            e != parent,
            final(self).node_of(e).parent == Some(parent),
            final(self).node_of(e).children.len() == 0,
            final(self).node_of(e).ignored == ignored,
            final(self).depth_of(e) == old(self).depth_of(parent) + 1,
            forall|x: Entity| old(self).spec_alive(x) ==> final(self).spec_alive(x),
            forall|x: Entity|
                final(self).spec_alive(x) && x != e ==> old(self).spec_alive(x),
            forall|x: Entity|
                old(self).spec_alive(x) && x != parent ==> final(self).node_of(x) == old(
                    self,
                ).node_of(x),
            final(self).node_of(parent).parent == old(self).node_of(parent).parent,
            final(self).node_of(parent).ignored == old(self).node_of(parent).ignored,
            final(self).node_of(parent).depth == old(self).node_of(parent).depth,
            final(self).node_of(parent).children@ == old(self).node_of(parent).children@.push(e),
    {
        proof {
            assert(old(self).slot_wf(parent.index as int));
        }
        let parent_depth = match &self.slots[parent.index].node {
            Some(n) => n.depth,
            None => 0,
        };
        let new_depth = parent_depth + 1;

        let reuse = self.free.len() > 0 && new_depth < self.slots.len();
        let e: Entity;
        if reuse {
            let i = self.free[self.free.len() - 1];
            self.free.pop();
            let generation = self.slots[i].generation;
            e = Entity { index: i, generation };
            let node = Node {
                parent: Some(parent),
                children: Vec::new(),
                ignored,
                depth: new_depth,
            };
            self.slots.set(i, Slot { generation, node: Some(node) });
        } else {
            let i = self.slots.len();
            e = Entity { index: i, generation: 0 };
            let node = Node {
                parent: Some(parent),
                children: Vec::new(),
                ignored,
                depth: new_depth,
            };
            self.slots.push(Slot { generation: 0, node: Some(node) });
        }

        // Append the new entity to its parent's child list.
        let pslot = &self.slots[parent.index];
        let mut pnode = match &pslot.node {
            Some(n) => Node {
                parent: n.parent,
                children: n.children.clone(),
                ignored: n.ignored,
                depth: n.depth,
            },
            None => Node { parent: None, children: Vec::new(), ignored: false, depth: 0 },
        };
        pnode.children.push(e);
        let generation = self.slots[parent.index].generation;
        self.slots.set(parent.index, Slot { generation, node: Some(pnode) });

        proof {
            let olds = *old(self);
            assert(e.index != parent.index);
            assert(!olds.spec_alive(e));
            assert(self.spec_alive(e));
            assert(self.node_of(parent).children@ == olds.node_of(parent).children@.push(e));
            assert(forall|x: Entity| olds.spec_alive(x) ==> self.spec_alive(x));
            assert(forall|x: Entity|
                olds.spec_alive(x) && x != parent ==> self.node_of(x) == olds.node_of(x));
            assert forall|i: int|
                0 <= i < self.slots.len() && self.slots@[i].node is Some implies self.slot_wf(
                i,
            ) by {
                if i == e.index {
                    let n = self.slots@[i].node->Some_0;
                    assert(n.parent == Some(parent));
                    assert(self.node_of(parent).children@[olds.node_of(parent).children.len()
                        as int] == self.entity_at(i));
                } else if i == parent.index {
                    assert(olds.slot_wf(i));
                    let n = self.slots@[i].node->Some_0;
                    let on = olds.slots@[i].node->Some_0;
                    assert(n.children@ == on.children@.push(e));
                    assert forall|j1: int, j2: int|
                        0 <= j1 < j2 < n.children.len() implies n.children@[j1]
                        != n.children@[j2] by {
                        if j2 == n.children.len() - 1 {
                            assert(olds.spec_alive(on.children@[j1]));
                            assert(n.children@[j2] == e);
                        }
                    }
                    if on.parent is Some {
                        let pp = on.parent->Some_0;
                        let j = choose|j: int|
                            0 <= j < olds.node_of(pp).children.len() && olds.node_of(
                                pp,
                            ).children@[j] == olds.entity_at(i);
                        assert(self.node_of(pp).children@[j] == self.entity_at(i));
                    }
                } else {
                    assert(olds.slot_wf(i));
                    let n = self.slots@[i].node->Some_0;
                    if n.parent is Some {
                        let pp = n.parent->Some_0;
                        let j = choose|j: int|
                            0 <= j < olds.node_of(pp).children.len() && olds.node_of(
                                pp,
                            ).children@[j] == olds.entity_at(i);
                        assert(self.node_of(pp).children@[j] == self.entity_at(i));
                    }
                }
            }
            assert forall|k: int| 0 <= k < self.free.len() implies {
                &&& 0 < #[trigger] self.free@[k] < self.slots.len()
                &&& self.slots@[self.free@[k] as int].node is None
            } by {
                assert(olds.free@[k] == self.free@[k] || (olds.free.len() == self.free.len() + 1
                    && olds.free@[k] == self.free@[k]));
                assert(self.free@[k] != e.index);
                assert(self.free@[k] != parent.index);
            }
        }
        e
    }
    /// Is `x` inside the subtree rooted at `a` (including `a` itself)?
    ///
    /// Defined by walking the parent chain of `x` upwards.
    pub open spec fn in_subtree(self, x: Entity, a: Entity) -> bool
        recommends
            self.wf(),
            self.spec_alive(x),
        decreases self.depth_of(x),
            when self.wf() && self.spec_alive(x)
            via Self::in_subtree_decreases
    {
        if x == a {
            true
        } else {
            match self.node_of(x).parent {
                Some(p) => self.in_subtree(p, a),
                None => false,
            }
        }
    }

    #[via_fn]
    proof fn in_subtree_decreases(self, x: Entity, a: Entity) {
        if self.wf() && self.spec_alive(x) && x != a && self.node_of(x).parent is Some {
            assert(self.slot_wf(x.index as int));
        }
    }

    /// An ancestor is at most as deep as its descendant, and strictly less
    /// deep unless they coincide.
    pub proof fn lemma_subtree_depth(self, x: Entity, a: Entity)
        requires
            self.wf(),
            self.spec_alive(x),
            self.in_subtree(x, a),
        ensures
            self.spec_alive(a),
            self.depth_of(a) <= self.depth_of(x),
            self.depth_of(a) == self.depth_of(x) ==> x == a,
        decreases self.depth_of(x),
    {
        if x != a {
            assert(self.slot_wf(x.index as int));
            let p = self.node_of(x).parent->Some_0;
            self.lemma_subtree_depth(p, a);
        }
    }

    /// Subtree membership is transitive.
    pub proof fn lemma_subtree_trans(self, x: Entity, y: Entity, z: Entity)
        requires
            self.wf(),
            self.spec_alive(x),
            self.in_subtree(x, y),
            self.in_subtree(y, z),
        ensures
            self.in_subtree(x, z),
        decreases self.depth_of(x),
    {
        if x != y {
            assert(self.slot_wf(x.index as int));
            let p = self.node_of(x).parent->Some_0;
            self.lemma_subtree_trans(p, y, z);
        }
    }

    /// A strict member of `a`'s subtree lies in the subtree of one of `a`'s
    /// children.
    pub proof fn lemma_subtree_via_child(self, x: Entity, a: Entity)
        requires
            self.wf(),
            self.spec_alive(x),
            self.in_subtree(x, a),
            x != a,
        ensures
            exists|k: int|
                0 <= k < self.node_of(a).children.len() && self.in_subtree(
                    x,
                    #[trigger] self.node_of(a).children@[k],
                ),
        decreases self.depth_of(x),
    {
        assert(self.slot_wf(x.index as int));
        let p = self.node_of(x).parent->Some_0;
        if p == a {
            let j = choose|j: int|
                0 <= j < self.node_of(a).children.len() && self.node_of(a).children@[j]
                    == self.entity_at(x.index as int);
            assert(self.entity_at(x.index as int) == x);
            assert(self.in_subtree(x, self.node_of(a).children@[j]));
        } else {
            self.lemma_subtree_via_child(p, a);
            let k = choose|k: int|
                0 <= k < self.node_of(a).children.len() && self.in_subtree(
                    p,
                    #[trigger] self.node_of(a).children@[k],
                );
            assert(self.in_subtree(x, self.node_of(a).children@[k]));
        }
    }

    /// Two subtree roots at the same depth that both contain `x` are equal.
    pub proof fn lemma_subtree_same_depth(self, x: Entity, a: Entity, b: Entity)
        requires
            self.wf(),
            self.spec_alive(x),
            self.in_subtree(x, a),
            self.in_subtree(x, b),
            self.spec_alive(a),
            self.spec_alive(b),
            self.depth_of(a) == self.depth_of(b),
        ensures
            a == b,
        decreases self.depth_of(x),
    {
        if x == a {
            self.lemma_subtree_depth(x, b);
        } else if x == b {
            self.lemma_subtree_depth(x, a);
        } else {
            assert(self.slot_wf(x.index as int));
            let p = self.node_of(x).parent->Some_0;
            self.lemma_subtree_same_depth(p, a, b);
        }
    }

    /// Subtree membership is decided by parent links alone, so it survives
    /// any change that keeps the survivors' parent links and depths.
    pub proof fn lemma_in_subtree_preserved(t1: Tree, t2: Tree, x: Entity, a: Entity)
        requires
            t1.wf(),
            t2.wf(),
            t2.spec_alive(x),
            forall|y: Entity|
                t2.spec_alive(y) ==> t1.spec_alive(y) && t2.node_of(y).parent == t1.node_of(
                    y,
                ).parent && t2.node_of(y).depth == t1.node_of(y).depth,
        ensures
            t2.in_subtree(x, a) == t1.in_subtree(x, a),
        decreases t2.depth_of(x),
    {
        assert(t2.slot_wf(x.index as int));
        if x != a {
            match t2.node_of(x).parent {
                Some(p) => {
                    Self::lemma_in_subtree_preserved(t1, t2, p, a);
                },
                None => {},
            }
        }
    }

    /// Collect the subtree of `e` (including `e`) into `out`, in depth-first
    /// preorder.  The appended part holds each member of the subtree exactly
    /// once.
    pub fn collect_subtree(&self, e: Entity, out: &mut Vec<Entity>)
        requires
            self.wf(),
            self.spec_alive(e),
        ensures
            final(out).len() >= old(out).len(),
            final(out)@.subrange(0, old(out).len() as int) == old(out)@,
            forall|j: int|
                old(out).len() <= j < final(out).len() ==> self.spec_alive(
                    #[trigger] final(out)@[j],
                ) && self.in_subtree(final(out)@[j], e),
            forall|x: Entity|
                self.spec_alive(x) && self.in_subtree(x, e) ==> exists|j: int|
                    old(out).len() <= j < final(out).len() && final(out)@[j] == x,
            forall|j1: int, j2: int|
                old(out).len() <= j1 < j2 < final(out).len() ==> final(out)@[j1]
                    != final(out)@[j2],
        decreases self.slots.len() - self.depth_of(e),
    {
        proof {
            assert(self.slot_wf(e.index as int));
        }
        let ghost base = out@.len() as int;
        out.push(e);
        let cs = self.children(e);
        let ghost d = self.depth_of(e);
        let mut i: usize = 0;
        while i < cs.len()
            invariant
                self.wf(),
                self.spec_alive(e),
                self.slot_wf(e.index as int),
                cs@ == self.node_of(e).children@,
                i <= cs.len(),
                d == self.depth_of(e),
                out@.len() > base >= 0,
                out@.subrange(0, base) == old(out)@,
                base == old(out)@.len(),
                out@[base] == e,
                forall|j: int|
                    base <= j < out@.len() ==> self.spec_alive(#[trigger] out@[j])
                        && self.in_subtree(out@[j], e),
                forall|j: int|
                    base < j < out@.len() ==> exists|k: int|
                        0 <= k < i && self.in_subtree(#[trigger] out@[j], cs@[k]),
                forall|x: Entity, k: int|
                    0 <= k < i && self.spec_alive(x) && #[trigger] self.in_subtree(x, cs@[k])
                        ==> exists|j: int| base < j < out@.len() && out@[j] == x,
                forall|j1: int, j2: int| base <= j1 < j2 < out@.len() ==> out@[j1] != out@[j2],
            decreases cs.len() - i,
        {
            let c = cs[i];
            proof {
                assert(self.spec_alive(c));
                assert(self.slot_wf(c.index as int));
                assert(self.depth_of(c) == d + 1);
            }
            let ghost mark = out@.len() as int;
            let ghost pre = out@;
            self.collect_subtree(c, out);
            proof {
                assert(out@.subrange(0, mark) == pre);
                assert forall|j: int| 0 <= j < mark implies out@[j] == pre[j] by {
                    assert(out@.subrange(0, mark)[j] == out@[j]);
                }
                assert(out@[base] == e);
                assert(out@.subrange(0, base) =~= old(out)@);
                assert(cs@[i as int] == c);
                // Everything just appended lies in the subtree of `c`, hence
                // of `e`.
                assert forall|j: int|
                    base <= j < out@.len() implies self.spec_alive(#[trigger] out@[j])
                    && self.in_subtree(out@[j], e) by {
                    if j >= mark {
                        self.lemma_subtree_trans(out@[j], c, e);
                    } else {
                        assert(out@[j] == pre[j]);
                        assert(self.spec_alive(pre[j]) && self.in_subtree(pre[j], e));
                    }
                }
                // The appended part cannot collide with what was there
                // before: earlier entries sit under a different child (or are
                // `e` itself), and subtrees of distinct siblings are
                // disjoint.
                assert forall|j1: int, j2: int|
                    base <= j1 < j2 < out@.len() implies out@[j1] != out@[j2] by {
                    if j2 < mark {
                        assert(out@[j1] == pre[j1]);
                        assert(out@[j2] == pre[j2]);
                        assert(pre[j1] != pre[j2]);
                    } else if j1 >= mark {
                        assert(out@[j1] != out@[j2]);
                    } else if j1 < mark && j2 >= mark {
                        let x = out@[j2];
                        assert(self.in_subtree(x, c));
                        if out@[j1] == x {
                            assert(pre[j1] == x);
                            if j1 == base {
                                // x == e cannot sit below the deeper child c.
                                self.lemma_subtree_depth(x, c);
                            } else {
                                let k = choose|k: int|
                                    0 <= k < i && self.in_subtree(pre[j1], cs@[k]);
                                assert(self.spec_alive(cs@[k]));
                                assert(self.slot_wf(cs@[k].index as int));
                                assert(self.depth_of(cs@[k]) == d + 1);
                                self.lemma_subtree_same_depth(x, cs@[k], c);
                            }
                        }
                    }
                }
                // Membership bookkeeping for the next iteration.
                assert forall|j: int| base < j < out@.len() implies exists|k: int|
                    0 <= k < i + 1 && self.in_subtree(#[trigger] out@[j], cs@[k]) by {
                    if j < mark {
                        assert(out@[j] == pre[j]);
                        let k = choose|k: int| 0 <= k < i && self.in_subtree(pre[j], cs@[k]);
                        assert(self.in_subtree(out@[j], cs@[k]));
                    } else {
                        assert(self.in_subtree(out@[j], cs@[i as int]));
                    }
                }
                assert forall|x: Entity, k: int|
                    0 <= k < i + 1 && self.spec_alive(x) && #[trigger] self.in_subtree(x, cs@[k])
                    implies exists|j: int| base < j < out@.len() && out@[j] == x by {
                    if k < i {
                        let j = choose|j: int| base < j < pre.len() && pre[j] == x;
                        assert(out@[j] == x);
                    } else {
                        let j = choose|j: int| mark <= j < out@.len() && out@[j] == x;
                        assert(base < j < out@.len() && out@[j] == x);
                    }
                }
            }
            i = i + 1;
        }
        proof {
            // Completeness: every subtree member was collected.
            assert forall|x: Entity|
                self.spec_alive(x) && self.in_subtree(x, e) implies exists|j: int|
                base <= j < out@.len() && out@[j] == x by {
                if x == e {
                    assert(out@[base] == x);
                } else {
                    self.lemma_subtree_via_child(x, e);
                    let k = choose|k: int|
                        0 <= k < self.node_of(e).children.len() && self.in_subtree(
                            x,
                            #[trigger] self.node_of(e).children@[k],
                        );
                    assert(self.in_subtree(x, cs@[k]));
                }
            }
        }
    }

    /// Remove `e` and its whole subtree from the tree.
    ///
    /// Every node of the subtree dies in one step; the structural parent of
    /// `e` keeps its remaining children in order.  Asking anything about a
    /// removed entity afterwards is a contract violation, not a default.
    #[verifier::loop_isolation(false)]
    pub fn remove(&mut self, e: Entity)
        requires
            old(self).wf(),
            old(self).spec_alive(e),
            e != Entity::spec_root(),
        ensures
            final(self).wf(),
            forall|x: Entity|
                final(self).spec_alive(x) <==> (old(self).spec_alive(x) && !old(self).in_subtree(
                    x,
                    e,
                )),
            forall|x: Entity|
                final(self).spec_alive(x) && x != old(self).node_of(e).parent->Some_0
                    ==> final(self).node_of(x) == old(self).node_of(x),
            old(self).spec_alive(old(self).node_of(e).parent->Some_0) && !old(self).in_subtree(
                old(self).node_of(e).parent->Some_0,
                e,
            ) ==> {
                let p = old(self).node_of(e).parent->Some_0;
                &&& final(self).node_of(p).parent == old(self).node_of(p).parent
                &&& final(self).node_of(p).ignored == old(self).node_of(p).ignored
                &&& final(self).node_of(p).depth == old(self).node_of(p).depth
                &&& exists|j: int|
                    0 <= j < old(self).node_of(p).children.len() && old(self).node_of(
                        p,
                    ).children@[j] == e && final(self).node_of(p).children@ == old(
                        self,
                    ).node_of(p).children@.remove(j)
            },
    {
        proof {
            assert(old(self).slot_wf(e.index as int));
        }
        let mut doomed: Vec<Entity> = Vec::new();
        self.collect_subtree(e, &mut doomed);

        // Detach `e` from its parent's child list.
        let p = match &self.slots[e.index].node {
            Some(n) => match n.parent {
                Some(p) => p,
                None => e,
            },
            None => e,
        };
        proof {
            assert(old(self).slot_wf(p.index as int));
            // The parent is outside the subtree: it is strictly shallower.
            if old(self).in_subtree(p, e) {
                old(self).lemma_subtree_depth(p, e);
                assert(false);
            }
        }
        let pchildren = self.children(p);
        let mut j: usize = 0;
        while j < pchildren.len() && pchildren[j] != e
            invariant
                pchildren@ == old(self).node_of(p).children@,
                j <= pchildren.len(),
                forall|k: int| 0 <= k < j ==> pchildren@[k] != e,
                exists|k: int| 0 <= k < pchildren.len() && pchildren@[k] == e,
            decreases pchildren.len() - j,
        {
            j = j + 1;
        }
        proof {
            assert(j < pchildren.len() && pchildren@[j as int] == e);
        }
        let mut new_children = pchildren;
        new_children.remove(j);
        let pgen = self.slots[p.index].generation;
        let (pparent, pignored, pdepth) = match &self.slots[p.index].node {
            Some(n) => (n.parent, n.ignored, n.depth),
            None => (None, false, 0),
        };
        self.slots.set(
            p.index,
            Slot {
                generation: pgen,
                node: Some(
                    Node { parent: pparent, children: new_children, ignored: pignored, depth: pdepth },
                ),
            },
        );
        let ghost t1 = *self;

        // Clear every slot of the subtree, bump its generation, and recycle
        // it (unless its generation counter is exhausted, in which case the
        // slot is retired for good).
        let mut i: usize = 0;
        while i < doomed.len()
            invariant
                old(self).wf(),
                t1.slots.len() == old(self).slots.len(),
                self.slots.len() == t1.slots.len(),
                i <= doomed.len(),
                forall|j2: int|
                    0 <= j2 < doomed.len() ==> old(self).spec_alive(#[trigger] doomed@[j2]) && old(
                        self,
                    ).in_subtree(doomed@[j2], e),
                forall|x: Entity|
                    old(self).spec_alive(x) && old(self).in_subtree(x, e) ==> exists|j2: int|
                        0 <= j2 < doomed.len() && doomed@[j2] == x,
                forall|j1: int, j2: int|
                    0 <= j1 < j2 < doomed.len() ==> doomed@[j1].index != doomed@[j2].index,
                forall|k: int|
                    0 <= k < i ==> self.slots@[#[trigger] doomed@[k].index as int].node is None,
                forall|idx: int|
                    0 <= idx < self.slots.len() && (forall|k: int|
                        0 <= k < i ==> (#[trigger] doomed@[k]).index != idx) ==> self.slots@[idx]
                        == t1.slots@[idx],
                forall|k: int|
                    0 <= k < self.free.len() ==> {
                        &&& 0 < #[trigger] self.free@[k] < self.slots.len()
                        &&& self.slots@[self.free@[k] as int].node is None
                    },
                forall|k1: int, k2: int|
                    0 <= k1 < k2 < self.free.len() ==> self.free@[k1] != self.free@[k2],
            decreases doomed.len() - i,
        {
            let x = doomed[i];
            proof {
                assert(old(self).slot_wf(x.index as int));
                if x.index == 0 {
                    // The root is never inside a removable subtree.
                    assert(old(self).node_of(x).parent is None);
                    assert(x == e);
                    assert(x.generation == 0);
                    assert(x == Entity::spec_root());
                    assert(false);
                }
                // The slot of an unprocessed subtree member still holds its
                // node, so it cannot occur in the free list.
                assert(forall|k2: int|
                    0 <= k2 < i ==> (#[trigger] doomed@[k2]).index != x.index);
                assert(self.slots@[x.index as int] == t1.slots@[x.index as int]);
                if x.index == p.index {
                    assert(old(self).spec_alive(p));
                    assert(x == p);
                    assert(false);
                }
                assert(self.slots@[x.index as int].node is Some);
                assert forall|k: int| 0 <= k < self.free.len() implies self.free@[k]
                    != x.index by {
                    if self.free@[k] == x.index {
                        assert(self.slots@[self.free@[k] as int].node is None);
                    }
                }
            }
            let gen = self.slots[x.index].generation;
            if gen < u32::MAX {
                self.slots.set(x.index, Slot { generation: gen + 1, node: None });
                self.free.push(x.index);
            } else {
                self.slots.set(x.index, Slot { generation: gen, node: None });
            }
            i = i + 1;
        }

        proof {
            let olds = *old(self);
            let pe = olds.node_of(e).parent->Some_0;
            assert(pe == p);
            // Alive in the final state == alive before and not in the subtree.
            assert forall|x: Entity| #[trigger] (*self).spec_alive(x) implies (olds.spec_alive(x)
                && !olds.in_subtree(x, e)) by {
                if olds.spec_alive(x) && olds.in_subtree(x, e) {
                    let k = choose|k: int| 0 <= k < doomed.len() && doomed@[k] == x;
                    assert(self.slots@[doomed@[k].index as int].node is None);
                }
                if !olds.spec_alive(x) {
                    if x.index < self.slots.len() {
                        if forall|k: int| 0 <= k < doomed.len()
                            ==> (#[trigger] doomed@[k]).index != x.index {
                            assert(self.slots@[x.index as int] == t1.slots@[x.index as int]);
                        } else {
                            let k = choose|k: int|
                                0 <= k < doomed.len() && (#[trigger] doomed@[k]).index == x.index;
                            assert(self.slots@[x.index as int].node is None);
                        }
                    }
                }
            }
            assert forall|x: Entity| olds.spec_alive(x) && !olds.in_subtree(x, e) implies (*self).spec_alive(x) by {
                assert forall|k: int| 0 <= k < doomed.len()
                    implies (#[trigger] doomed@[k]).index != x.index by {
                    if doomed@[k].index == x.index {
                        // Two live entities sharing a slot are the same entity.
                        assert(olds.spec_alive(doomed@[k]));
                        assert(doomed@[k] == x);
                    }
                }
                assert(self.slots@[x.index as int] == t1.slots@[x.index as int]);
            }
            // Survivors other than the parent keep their node unchanged.
            assert forall|x: Entity|
                (*self).spec_alive(x) && x != pe implies (*self).node_of(x) == olds.node_of(
                x,
            ) by {
                assert forall|k: int| 0 <= k < doomed.len()
                    implies (#[trigger] doomed@[k]).index != x.index by {
                    if doomed@[k].index == x.index {
                        assert(olds.spec_alive(doomed@[k]));
                        assert(doomed@[k] == x);
                    }
                }
                assert(self.slots@[x.index as int] == t1.slots@[x.index as int]);
                assert(x.index != p.index || x != pe);
                if x.index == p.index {
                    assert(olds.spec_alive(pe));
                    assert(x == pe);
                }
            }
            assert((*self).spec_alive(pe));
            assert forall|k: int| 0 <= k < doomed.len()
                implies (#[trigger] doomed@[k]).index != p.index by {
                if doomed@[k].index == p.index {
                    assert(olds.spec_alive(doomed@[k]));
                    assert(olds.spec_alive(pe));
                    assert(doomed@[k] == pe);
                    assert(olds.in_subtree(pe, e));
                }
            }
            assert(self.slots@[p.index as int] == t1.slots@[p.index as int]);
            assert((*self).node_of(pe).children@ == olds.node_of(pe).children@.remove(
                j as int,
            ));

            // The root survives: it can never sit inside a removable subtree.
            assert forall|k: int| 0 <= k < doomed.len()
                implies (#[trigger] doomed@[k]).index != 0 by {
                if doomed@[k].index == 0 {
                    assert(olds.spec_alive(doomed@[k]));
                    assert(doomed@[k].generation == 0);
                    assert(doomed@[k] == Entity::spec_root());
                    olds.lemma_subtree_depth(Entity::spec_root(), e);
                    assert(olds.slot_wf(0));
                    assert(olds.depth_of(e) == 0);
                    assert(olds.slot_wf(e.index as int));
                    assert(false);
                }
            }
            if p.index != 0 {
                assert(self.slots@[0] == t1.slots@[0]);
            }
            assert(self.slots@[0].generation == 0 && self.slots@[0].node is Some);

            // Re-establish well-formedness.
            assert forall|idx: int|
                0 <= idx < self.slots.len() && self.slots@[idx].node is Some implies self.slot_wf(
                idx,
            ) by {
                let x = self.entity_at(idx);
                assert((*self).spec_alive(x));
                assert(olds.spec_alive(x) && !olds.in_subtree(x, e));
                assert(olds.slot_wf(idx));
                let n = self.slots@[idx].node->Some_0;
                let on = olds.slots@[idx].node->Some_0;
                assert(olds.entity_at(idx) == x);
                // Parent link still fine.
                if n.parent is Some {
                    let px = n.parent->Some_0;
                    assert(n.parent == on.parent);
                    if olds.in_subtree(px, e) {
                        assert(olds.in_subtree(x, e));
                    }
                    assert((*self).spec_alive(px));
                    if px != pe {
                        assert(self.node_of(px) == olds.node_of(px));
                        let jw = choose|jw: int|
                            0 <= jw < olds.node_of(px).children.len() && olds.node_of(
                                px,
                            ).children@[jw] == olds.entity_at(idx);
                        assert(self.node_of(px).children@[jw] == self.entity_at(idx));
                    } else {
                        let jw = choose|jw: int|
                            0 <= jw < olds.node_of(px).children.len() && olds.node_of(
                                px,
                            ).children@[jw] == olds.entity_at(idx);
                        assert(olds.node_of(px).children@[jw] == x);
                        assert(x != e);
                        assert(jw != j);
                        olds.node_of(px).children@.remove_ensures(j as int);
                        if jw < j {
                            assert(self.node_of(px).children@[jw] == x);
                        } else {
                            assert(self.node_of(px).children@[jw - 1] == x);
                        }
                    }
                }
                // Children still fine.
                if idx != p.index {
                    assert(n.children@ == on.children@);
                }
                assert forall|jc: int| 0 <= jc < n.children.len() implies {
                    &&& self.spec_alive(#[trigger] n.children@[jc])
                    &&& self.node_of(n.children@[jc]).parent == Some(self.entity_at(idx))
                } by {
                    if idx == p.index {
                        on.children@.remove_ensures(j as int);
                        assert(n.children@ == on.children@.remove(j as int));
                        let jc0 = if jc < j { jc } else { jc + 1 };
                        assert(n.children@[jc] == on.children@[jc0]);
                    }
                    let c = n.children@[jc];
                    assert(olds.spec_alive(c));
                    assert(olds.node_of(c).parent == Some(olds.entity_at(idx)));
                    if olds.in_subtree(c, e) {
                        // Then its parent (this very node) would be in the
                        // subtree as well, unless the child is e itself --
                        // and e was detached from p's list.
                        if c == e {
                            assert(idx == p.index);
                            on.children@.remove_ensures(j as int);
                            let jc0 = if jc < j { jc } else { jc + 1 };
                            assert(on.children@[jc0] == e && on.children@[j as int] == e);
                            assert(jc0 != j);
                            assert(false);
                        } else {
                            assert(olds.in_subtree(olds.node_of(c).parent->Some_0, e));
                            assert(olds.in_subtree(x, e));
                            assert(false);
                        }
                    }
                    assert((*self).spec_alive(c));
                    if c != pe {
                        assert(self.node_of(c) == olds.node_of(c));
                    }
                    assert(self.entity_at(idx) == olds.entity_at(idx));
                } // children distinctness: a subsequence of a distinct list.
                if idx == p.index {
                    on.children@.remove_ensures(j as int);
                    assert forall|j1: int, j2: int|
                        0 <= j1 < j2 < n.children.len() implies n.children@[j1]
                        != n.children@[j2] by {
                        let a1 = if j1 < j { j1 } else { j1 + 1 };
                        let a2 = if j2 < j { j2 } else { j2 + 1 };
                        assert(n.children@[j1] == on.children@[a1]);
                        assert(n.children@[j2] == on.children@[a2]);
                    }
                }
            }
        }
    }

    /// The layout parent of `e`: its nearest non-ignored proper ancestor.
    /// `None` only for the root.
    pub open spec fn spec_layout_parent(self, e: Entity) -> Option<Entity>
        recommends
            self.wf(),
            self.spec_alive(e),
        decreases self.depth_of(e),
            when self.wf() && self.spec_alive(e)
            via Self::spec_layout_parent_decreases
    {
        match self.node_of(e).parent {
            None => None,
            Some(p) => if !self.node_of(p).ignored {
                Some(p)
            } else {
                self.spec_layout_parent(p)
            },
        }
    }

    #[via_fn]
    proof fn spec_layout_parent_decreases(self, e: Entity) {
        if self.wf() && self.spec_alive(e) && self.node_of(e).parent is Some {
            assert(self.slot_wf(e.index as int));
        }
    }

    /// The layout parent is live, not ignored, and strictly shallower; it is
    /// absent exactly for the root.
    pub proof fn lemma_layout_parent(self, e: Entity)
        requires
            self.wf(),
            self.spec_alive(e),
        ensures
            self.spec_layout_parent(e) is None <==> e == Entity::spec_root(),
            self.spec_layout_parent(e) is Some ==> {
                let p = self.spec_layout_parent(e)->Some_0;
                &&& self.spec_alive(p)
                &&& !self.node_of(p).ignored
                &&& self.depth_of(p) < self.depth_of(e)
            },
        decreases self.depth_of(e),
    {
        assert(self.slot_wf(e.index as int));
        match self.node_of(e).parent {
            None => {
                assert(e.index == 0);
                assert(e.generation == 0);
            },
            Some(p) => {
                assert(self.slot_wf(p.index as int));
                if self.node_of(p).ignored {
                    assert(p.index != 0);
                    self.lemma_layout_parent(p);
                }
            },
        }
    }

    /// Compute the layout parent.
    pub fn layout_parent(&self, e: Entity) -> (r: Option<Entity>)
        requires
            self.wf(),
            self.spec_alive(e),
        ensures
            r == self.spec_layout_parent(e),
        decreases self.depth_of(e),
    {
        proof {
            assert(self.slot_wf(e.index as int));
        }
        match self.parent(e) {
            None => None,
            Some(p) => {
                proof {
                    assert(self.slot_wf(p.index as int));
                }
                if !self.is_ignored(p) {
                    Some(p)
                } else {
                    self.layout_parent(p)
                }
            },
        }
    }

    /// The layout expansion of a child list at structural depth `d`: ignored
    /// nodes are replaced by their own (recursively expanded) children.
    pub open spec fn lc_list(self, cs: Seq<Entity>, d: int) -> Seq<Entity>
        decreases self.slots.len() - d, cs.len(),
            when 0 <= d <= self.slots.len()
    {
        if cs.len() == 0 {
            Seq::empty()
        } else {
            let head = cs[0];
            let head_part = if self.spec_alive(head) && self.node_of(head).ignored && d
                < self.slots.len() {
                self.lc_list(self.node_of(head).children@, d + 1)
            } else {
                seq![head]
            };
            head_part + self.lc_list(cs.drop_first(), d)
        }
    }

    /// The expansion of one entity in a layout child list.
    pub open spec fn lc_item(self, c: Entity, d: int) -> Seq<Entity> {
        if self.spec_alive(c) && self.node_of(c).ignored && d < self.slots.len() {
            self.lc_list(self.node_of(c).children@, d + 1)
        } else {
            seq![c]
        }
    }

    /// `lc_list` distributes over appending one element.
    pub proof fn lemma_lc_list_push(self, cs: Seq<Entity>, x: Entity, d: int)
        requires
            0 <= d <= self.slots.len(),
        ensures
            self.lc_list(cs.push(x), d) == self.lc_list(cs, d) + self.lc_item(x, d),
        decreases cs.len(),
    {
        if cs.len() == 0 {
            assert(cs.push(x).drop_first() =~= Seq::<Entity>::empty());
            assert(cs.push(x)[0] == x);
            assert(self.lc_list(cs.push(x), d) == self.lc_item(x, d) + self.lc_list(
                cs.push(x).drop_first(),
                d,
            ));
            assert(self.lc_list(Seq::<Entity>::empty(), d) =~= Seq::<Entity>::empty());
            assert(self.lc_item(x, d) + Seq::<Entity>::empty() =~= self.lc_item(x, d));
            assert(self.lc_list(cs, d) + self.lc_item(x, d) =~= self.lc_item(x, d));
        } else {
            assert(cs.push(x).drop_first() =~= cs.drop_first().push(x));
            assert(cs.push(x)[0] == cs[0]);
            self.lemma_lc_list_push(cs.drop_first(), x, d);
            assert(self.lc_list(cs.push(x), d) == self.lc_item(cs[0], d) + self.lc_list(
                cs.drop_first().push(x),
                d,
            ));
            assert(self.lc_item(cs[0], d) + (self.lc_list(cs.drop_first(), d) + self.lc_item(
                x,
                d,
            )) =~= (self.lc_item(cs[0], d) + self.lc_list(cs.drop_first(), d)) + self.lc_item(
                x,
                d,
            ));
        }
    }

    /// The layout children of a live entity: its structural children with
    /// every ignored node replaced by that node's own layout children.
    pub open spec fn spec_layout_children(self, p: Entity) -> Seq<Entity>
        recommends
            self.wf(),
            self.spec_alive(p),
    {
        self.lc_list(self.node_of(p).children@, self.depth_of(p) + 1)
    }

    /// Append the layout children of `p` to `out`.
    #[verifier::loop_isolation(false)]
    pub fn append_layout_children(&self, p: Entity, out: &mut Vec<Entity>)
        requires
            self.wf(),
            self.spec_alive(p),
        ensures
            final(out)@ == old(out)@ + self.spec_layout_children(p),
        decreases self.slots.len() - self.depth_of(p),
    {
        proof {
            assert(self.slot_wf(p.index as int));
        }
        let cs = self.children(p);
        let ghost d = self.depth_of(p) + 1;
        let mut i: usize = 0;
        while i < cs.len()
            invariant
                i <= cs.len(),
                out@ == old(out)@ + self.lc_list(cs@.take(i as int), d),
            decreases cs.len() - i,
        {
            let c = cs[i];
            proof {
                assert(self.spec_alive(c));
                assert(self.slot_wf(c.index as int));
                assert(self.depth_of(c) == d);
                assert(cs@.take(i + 1) =~= cs@.take(i as int).push(c));
                self.lemma_lc_list_push(cs@.take(i as int), c, d);
            }
            if self.is_ignored(c) {
                self.append_layout_children(c, out);
                proof {
                    assert(self.lc_item(c, d) == self.spec_layout_children(c));
                }
            } else {
                out.push(c);
                proof {
                    assert(self.lc_item(c, d) =~= seq![c]);
                }
            }
            proof {
                assert(out@ =~= old(out)@ + self.lc_list(cs@.take(i + 1), d));
            }
            i = i + 1;
        }
        proof {
            assert(cs@.take(cs@.len() as int) =~= cs@);
        }
    }

    /// The layout children of `p` as a vector.
    pub fn layout_children(&self, p: Entity) -> (r: Vec<Entity>)
        requires
            self.wf(),
            self.spec_alive(p),
        ensures
            r@ == self.spec_layout_children(p),
    {
        let mut out: Vec<Entity> = Vec::new();
        self.append_layout_children(p, &mut out);
        out
    }

    /// Number of layout-parent steps from `e` to the root.
    pub open spec fn spec_layout_depth(self, e: Entity) -> int
        recommends
            self.wf(),
            self.spec_alive(e),
        decreases self.depth_of(e),
            when self.wf() && self.spec_alive(e)
            via Self::spec_layout_depth_decreases
    {
        match self.spec_layout_parent(e) {
            None => 0,
            Some(p) => 1 + self.spec_layout_depth(p),
        }
    }

    #[via_fn]
    proof fn spec_layout_depth_decreases(self, e: Entity) {
        if self.wf() && self.spec_alive(e) {
            self.lemma_layout_parent(e);
        }
    }

    /// Layout depth is non-negative.
    pub proof fn lemma_layout_depth_nonneg(self, e: Entity)
        requires
            self.wf(),
            self.spec_alive(e),
        ensures
            self.spec_layout_depth(e) >= 0,
        decreases self.depth_of(e),
    {
        self.lemma_layout_parent(e);
        match self.spec_layout_parent(e) {
            None => {},
            Some(p) => {
                self.lemma_layout_depth_nonneg(p);
            },
        }
    }

    /// Every member of a layout child list under `q`, expanded towards the
    /// non-ignored node `p`, is live, not ignored, and has `p` as its layout
    /// parent.
    pub proof fn lemma_lc_list_member(self, q: Entity, cs: Seq<Entity>, x: Entity, p: Entity)
        requires
            self.wf(),
            self.spec_alive(q),
            self.spec_alive(p),
            !self.node_of(p).ignored,
            forall|i: int| 0 <= i < cs.len() ==> self.node_of(q).children@.contains(#[trigger] cs[i]),
            q == p || (self.node_of(q).ignored && self.spec_layout_parent(q) == Some(p)),
            self.lc_list(cs, self.depth_of(q) + 1).contains(x),
        ensures
            self.spec_alive(x),
            !self.node_of(x).ignored,
            self.spec_layout_parent(x) == Some(p),
        decreases self.slots.len() - self.depth_of(q), cs.len(),
    {
        assert(self.slot_wf(q.index as int));
        let d = self.depth_of(q) + 1;
        assert(cs.len() > 0);
        let head = cs[0];
        assert(self.node_of(q).children@.contains(head));
        let hi = choose|hi: int|
            0 <= hi < self.node_of(q).children.len() && self.node_of(q).children@[hi] == head;
        assert(self.spec_alive(head));
        assert(self.slot_wf(head.index as int));
        assert(self.node_of(head).parent == Some(self.entity_at(q.index as int)));
        assert(self.entity_at(q.index as int) == q);
        assert(self.depth_of(head) == d);
        assert(d < self.slots.len());
        let head_part = self.lc_item(head, d);
        let rest = self.lc_list(cs.drop_first(), d);
        assert(self.lc_list(cs, d) == head_part + rest);
        // The layout parent of head is p.
        assert(self.spec_layout_parent(head) == Some(p)) by {
            if q == p {
            } else {
                assert(self.node_of(q).ignored);
            }
        }
        let k = choose|k: int| 0 <= k < self.lc_list(cs, d).len() && self.lc_list(cs, d)[k] == x;
        if k < head_part.len() {
            if self.node_of(head).ignored {
                assert(head_part == self.lc_list(self.node_of(head).children@, d + 1));
                assert(head_part.contains(x));
                assert(forall|i: int|
                    0 <= i < self.node_of(head).children@.len()
                        ==> self.node_of(head).children@.contains(
                        #[trigger] self.node_of(head).children@[i],
                    ));
                self.lemma_lc_list_member(head, self.node_of(head).children@, x, p);
            } else {
                assert(head_part == seq![head]);
                assert(x == head);
            }
        } else {
            assert(rest[k - head_part.len()] == x);
            assert(rest.contains(x));
            assert(forall|i: int|
                0 <= i < cs.drop_first().len() ==> self.node_of(q).children@.contains(
                    #[trigger] cs.drop_first()[i],
                ));
            self.lemma_lc_list_member(q, cs.drop_first(), x, p);
        }
    }

    /// Every layout child of a live non-ignored node `p` is live, not
    /// ignored, and has `p` as its layout parent (so it shares `p`'s layout
    /// child list as its own sibling list, and sits one layout level below
    /// `p`).
    pub proof fn lemma_layout_child(self, p: Entity, x: Entity)
        requires
            self.wf(),
            self.spec_alive(p),
            !self.node_of(p).ignored,
            self.spec_layout_children(p).contains(x),
        ensures
            self.spec_alive(x),
            !self.node_of(x).ignored,
            self.spec_layout_parent(x) == Some(p),
            self.spec_layout_depth(x) == 1 + self.spec_layout_depth(p),
    {
        assert(forall|i: int|
            0 <= i < self.node_of(p).children@.len() ==> self.node_of(p).children@.contains(
                #[trigger] self.node_of(p).children@[i],
            ));
        self.lemma_lc_list_member(p, self.node_of(p).children@, x, p);
    }

    /// The layout sibling list that `e` is judged against: the layout
    /// children of its layout parent, or just `e` itself for the root.
    pub open spec fn spec_layout_siblings(self, e: Entity) -> Seq<Entity>
        recommends
            self.wf(),
            self.spec_alive(e),
    {
        match self.spec_layout_parent(e) {
            Some(lp) => self.spec_layout_children(lp),
            None => seq![e],
        }
    }

    /// The layout sibling list of `e`, computed.
    pub fn layout_siblings(&self, e: Entity) -> (r: Vec<Entity>)
        requires
            self.wf(),
            self.spec_alive(e),
        ensures
            r@ == self.spec_layout_siblings(e),
    {
        proof {
            self.lemma_layout_parent(e);
        }
        match self.layout_parent(e) {
            Some(lp) => self.layout_children(lp),
            None => {
                let mut v: Vec<Entity> = Vec::new();
                v.push(e);
                proof {
                    assert(v@ =~= seq![e]);
                }
                v
            },
        }
    }

    /// For every level not deeper than a live node there is a live ancestor
    /// at exactly that level.
    pub proof fn lemma_ancestor_at_depth(self, x: Entity, m: int)
        requires
            self.wf(),
            self.spec_alive(x),
            0 <= m <= self.depth_of(x),
        ensures
            exists|a: Entity|
                #[trigger] self.spec_alive(a) && self.depth_of(a) == m && self.in_subtree(x, a),
        decreases self.depth_of(x),
    {
        if self.depth_of(x) == m {
            assert(self.spec_alive(x) && self.depth_of(x) == m && self.in_subtree(x, x));
        } else {
            assert(self.slot_wf(x.index as int));
            let p = self.node_of(x).parent->Some_0;
            self.lemma_ancestor_at_depth(p, m);
            let a = choose|a: Entity|
                #[trigger] self.spec_alive(a) && self.depth_of(a) == m && self.in_subtree(p, a);
            assert(self.in_subtree(x, a));
        }
    }

    /// All live entities in breadth-first order: level by level from the
    /// root, each level holding the children of the previous level's nodes
    /// grouped by parent, in child order.
    #[verifier::loop_isolation(false)]
    pub fn breadth_order(&self) -> (order: Vec<Entity>)
        requires
            self.wf(),
        ensures
            forall|k: int| 0 <= k < order.len() ==> self.spec_alive(#[trigger] order@[k]),
            forall|x: Entity| self.spec_alive(x) ==> order@.contains(x),
            forall|k1: int, k2: int| 0 <= k1 < k2 < order.len() ==> order@[k1] != order@[k2],
            forall|k1: int, k2: int|
                0 <= k1 < k2 < order.len() ==> self.depth_of(order@[k1]) <= self.depth_of(
                    order@[k2],
                ),
    {
        let mut order: Vec<Entity> = Vec::new();
        let mut level: Vec<Entity> = Vec::new();
        level.push(Entity::root());
        let ghost mut d: int = 0;
        proof {
            assert(self.spec_alive(Entity::spec_root()));
            assert(self.slot_wf(0));
        }
        proof {
            assert forall|x: Entity|
                self.spec_alive(x) && self.depth_of(x) == 0 implies level@.contains(x) by {
                assert(self.slot_wf(x.index as int));
                assert(self.node_of(x).parent is None);
                assert(x.index == 0);
                assert(x == Entity::spec_root());
                assert(level@[0] == Entity::spec_root());
            }
        }
        while level.len() > 0
            invariant
                0 <= d,
                forall|k: int|
                    0 <= k < level.len() ==> self.spec_alive(#[trigger] level@[k])
                        && self.depth_of(level@[k]) == d,
                forall|x: Entity|
                    self.spec_alive(x) && self.depth_of(x) == d ==> level@.contains(x),
                forall|k1: int, k2: int| 0 <= k1 < k2 < level.len() ==> level@[k1] != level@[k2],
                forall|k: int|
                    0 <= k < order.len() ==> self.spec_alive(#[trigger] order@[k])
                        && self.depth_of(order@[k]) < d,
                forall|x: Entity|
                    self.spec_alive(x) && self.depth_of(x) < d ==> order@.contains(x),
                forall|k1: int, k2: int| 0 <= k1 < k2 < order.len() ==> order@[k1] != order@[k2],
                forall|k1: int, k2: int|
                    0 <= k1 < k2 < order.len() ==> self.depth_of(order@[k1]) <= self.depth_of(
                        order@[k2],
                    ),
            decreases self.slots.len() - d,
        {
            proof {
                assert(self.depth_of(level@[0]) == d);
                assert(self.slot_wf(level@[0].index as int));
                assert(d < self.slots.len());
            }
            let mut next: Vec<Entity> = Vec::new();
            let mut i: usize = 0;
            while i < level.len()
                invariant
                    i <= level.len(),
                    order@.len() >= 0,
                    forall|k: int|
                        0 <= k < order.len() ==> self.spec_alive(#[trigger] order@[k])
                            && self.depth_of(order@[k]) <= d,
                    forall|k: int| 0 <= k < i ==> order@.contains(#[trigger] level@[k]),
                    forall|k: int|
                        0 <= k < order.len() ==> self.depth_of(#[trigger] order@[k]) < d
                            || level@.take(i as int).contains(order@[k]),
                    forall|x: Entity|
                        self.spec_alive(x) && self.depth_of(x) < d ==> order@.contains(x),
                    forall|k1: int, k2: int|
                        0 <= k1 < k2 < order.len() ==> order@[k1] != order@[k2],
                    forall|k1: int, k2: int|
                        0 <= k1 < k2 < order.len() ==> self.depth_of(order@[k1]) <= self.depth_of(
                            order@[k2],
                        ),
                    forall|k: int|
                        0 <= k < next.len() ==> self.spec_alive(#[trigger] next@[k])
                            && self.depth_of(next@[k]) == d + 1,
                    forall|k1: int, k2: int| 0 <= k1 < k2 < next.len() ==> next@[k1] != next@[k2],
                    forall|x: Entity|
                        self.spec_alive(x) && self.node_of(x).parent is Some
                            && level@.take(i as int).contains(self.node_of(x).parent->Some_0)
                            ==> next@.contains(x),
                    forall|k: int|
                        0 <= k < next.len() ==> self.node_of(#[trigger] next@[k]).parent is Some
                            && level@.take(i as int).contains(self.node_of(next@[k]).parent->Some_0),
                decreases level.len() - i,
            {
                let e = level[i];
                proof {
                    assert(self.spec_alive(e));
                    assert(self.slot_wf(e.index as int));
                    // e itself is not yet in order: everything in order is
                    // shallower or an earlier member of this level.
                    assert forall|k: int| 0 <= k < order.len() implies order@[k] != e by {
                        if order@[k] == e {
                            assert(self.depth_of(order@[k]) < d || level@.take(
                                i as int,
                            ).contains(order@[k]));
                            if level@.take(i as int).contains(e) {
                                let k2 = choose|k2: int|
                                    0 <= k2 < i && level@.take(i as int)[k2] == e;
                                assert(level@[k2] == e && level@[i as int] == e);
                            }
                        }
                    }
                }
                let ghost order_pre = order@;
                order.push(e);
                let cs = self.children(e);
                let mut j: usize = 0;
                while j < cs.len()
                    invariant
                        j <= cs.len(),
                        cs@ == self.node_of(e).children@,
                        self.spec_alive(e),
                        self.depth_of(e) == d,
                        i < level.len(),
                        level@[i as int] == e,
                        forall|k: int|
                            0 <= k < next.len() ==> self.spec_alive(#[trigger] next@[k])
                                && self.depth_of(next@[k]) == d + 1,
                        forall|k1: int, k2: int|
                            0 <= k1 < k2 < next.len() ==> next@[k1] != next@[k2],
                        forall|x: Entity|
                            self.spec_alive(x) && self.node_of(x).parent is Some && (level@.take(
                                i as int,
                            ).contains(self.node_of(x).parent->Some_0) || (self.node_of(
                                x,
                            ).parent->Some_0 == e && cs@.take(j as int).contains(x)))
                                ==> next@.contains(x),
                        forall|k: int|
                            0 <= k < next.len() ==> self.node_of(#[trigger] next@[k]).parent
                                is Some && (level@.take(i as int).contains(
                                self.node_of(next@[k]).parent->Some_0,
                            ) || (self.node_of(next@[k]).parent->Some_0 == e && cs@.take(
                                j as int,
                            ).contains(next@[k]))),
                    decreases cs.len() - j,
                {
                    let c = cs[j];
                    proof {
                        assert(self.spec_alive(c));
                        assert(self.slot_wf(c.index as int));
                        assert(self.node_of(c).parent == Some(self.entity_at(e.index as int)));
                        assert(self.entity_at(e.index as int) == e);
                        assert(self.depth_of(c) == d + 1);
                        // c is not in next yet: members of next either hang
                        // under earlier level entries or are earlier children
                        // of e.
                        assert forall|k: int| 0 <= k < next.len() implies next@[k] != c by {
                            if next@[k] == c {
                                if level@.take(i as int).contains(self.node_of(c).parent->Some_0) {
                                    let k2 = choose|k2: int|
                                        0 <= k2 < i && level@.take(i as int)[k2] == self.node_of(
                                            c,
                                        ).parent->Some_0;
                                    assert(level@[k2] == e && level@[i as int] == e);
                                } else {
                                    let k2 = choose|k2: int|
                                        0 <= k2 < j && cs@.take(j as int)[k2] == c;
                                    assert(cs@[k2] == c && cs@[j as int] == c);
                                }
                            }
                        }
                    }
                    let ghost next_pre = next@;
                    next.push(c);
                    proof {
                        assert(next@ == next_pre.push(c));
                        assert(cs@.take(j + 1) =~= cs@.take(j as int).push(c));
                        assert forall|x: Entity|
                            self.spec_alive(x) && self.node_of(x).parent is Some && (level@.take(
                                i as int,
                            ).contains(self.node_of(x).parent->Some_0) || (self.node_of(
                                x,
                            ).parent->Some_0 == e && cs@.take(j + 1).contains(x))) implies next@.contains(
                            x,
                        ) by {
                            if self.node_of(x).parent->Some_0 == e && cs@.take(j + 1).contains(x)
                                && !cs@.take(j as int).contains(x) {
                                assert(x == c);
                                assert(next@[next@.len() - 1] == c);
                            } else {
                                let k2 = choose|k2: int|
                                    0 <= k2 < next_pre.len() && next_pre[k2] == x;
                                assert(next@[k2] == x);
                            }
                        }
                        assert forall|k: int| 0 <= k < next.len() implies (self.node_of(
                            #[trigger] next@[k],
                        ).parent is Some && (level@.take(i as int).contains(
                            self.node_of(next@[k]).parent->Some_0,
                        ) || (self.node_of(next@[k]).parent->Some_0 == e && cs@.take(
                            j + 1,
                        ).contains(next@[k])))) by {
                            if k < next.len() - 1 {
                                assert(next@[k] == next_pre[k]);
                                if !level@.take(i as int).contains(
                                    self.node_of(next@[k]).parent->Some_0,
                                ) {
                                    let k2 = choose|k2: int|
                                        0 <= k2 < j && cs@.take(j as int)[k2] == next_pre[k];
                                    assert(cs@.take(j + 1)[k2] == next@[k]);
                                }
                            } else {
                                assert(next@[k] == c);
                                assert(cs@.take(j + 1)[j as int] == c);
                            }
                        }
                    }
                    j = j + 1;
                }
                proof {
                    assert(cs@.take(cs@.len() as int) =~= cs@);
                    assert(level@.take(i + 1) =~= level@.take(i as int).push(e));
                    assert forall|x: Entity|
                        self.spec_alive(x) && self.node_of(x).parent is Some && level@.take(
                            i + 1,
                        ).contains(self.node_of(x).parent->Some_0) implies next@.contains(x) by {
                        let px = self.node_of(x).parent->Some_0;
                        if !level@.take(i as int).contains(px) {
                            assert(px == e);
                            assert(self.slot_wf(x.index as int));
                            let jw = choose|jw: int|
                                0 <= jw < self.node_of(px).children.len() && self.node_of(
                                    px,
                                ).children@[jw] == self.entity_at(x.index as int);
                            assert(self.entity_at(x.index as int) == x);
                            assert(cs@.contains(x));
                        }
                    }
                    assert forall|k: int| 0 <= k < next.len() implies (self.node_of(
                        #[trigger] next@[k],
                    ).parent is Some && level@.take(i + 1).contains(
                        self.node_of(next@[k]).parent->Some_0,
                    )) by {
                        let px = self.node_of(next@[k]).parent->Some_0;
                        if level@.take(i as int).contains(px) {
                            let k2 = choose|k2: int|
                                0 <= k2 < i && level@.take(i as int)[k2] == px;
                            assert(level@.take(i + 1)[k2] == px);
                        } else {
                            assert(px == e);
                            assert(level@.take(i + 1)[i as int] == e);
                        }
                    }
                    assert(order@ == order_pre.push(e));
                    assert forall|x: Entity|
                        self.spec_alive(x) && self.depth_of(x) < d implies order@.contains(x) by {
                        let k2 = choose|k2: int|
                            0 <= k2 < order_pre.len() && order_pre[k2] == x;
                        assert(order@[k2] == x);
                    }
                    assert forall|k: int| 0 <= k < i + 1 implies order@.contains(
                        #[trigger] level@[k],
                    ) by {
                        if k < i {
                            let k2 = choose|k2: int|
                                0 <= k2 < order_pre.len() && order_pre[k2] == level@[k];
                            assert(order@[k2] == level@[k]);
                        } else {
                            assert(order@[order@.len() - 1] == e);
                        }
                    }
                    assert forall|k: int|
                        0 <= k < order.len() implies self.depth_of(#[trigger] order@[k]) < d
                        || level@.take(i + 1).contains(order@[k]) by {
                        if k < order.len() - 1 {
                            if level@.take(i as int).contains(order@[k]) {
                                let k2 = choose|k2: int|
                                    0 <= k2 < i && level@.take(i as int)[k2] == order@[k];
                                assert(level@.take(i + 1)[k2] == order@[k]);
                            }
                        } else {
                            assert(order@[k] == e);
                            assert(level@.take(i + 1)[i as int] == e);
                        }
                    }
                }
                i = i + 1;
            }
            proof {
                assert(level@.take(level@.len() as int) =~= level@);
                // Every live node at depth d + 1 hangs under some node at
                // depth d, which is in this level.
                assert forall|x: Entity|
                    self.spec_alive(x) && self.depth_of(x) == d + 1 implies next@.contains(x) by {
                    assert(self.slot_wf(x.index as int));
                    let px = self.node_of(x).parent->Some_0;
                    assert(self.spec_alive(px) && self.depth_of(px) == d);
                    assert(level@.contains(px));
                }
            }
            level = next;
            proof {
                d = d + 1;
            }
        }
        proof {
            // No level was left: every live entity is shallower than d.
            assert forall|x: Entity| self.spec_alive(x) implies order@.contains(x) by {
                if self.depth_of(x) >= d {
                    self.lemma_ancestor_at_depth(x, d);
                    let a = choose|a: Entity|
                        #[trigger] self.spec_alive(a) && self.depth_of(a) == d && self.in_subtree(
                            x,
                            a,
                        );
                    assert(level@.contains(a));
                }
            }
        }
        order
    }

    /// Remove every child of `e`, with their subtrees.
    pub fn remove_children(&mut self, e: Entity)
        requires
            old(self).wf(),
            old(self).spec_alive(e),
        ensures
            final(self).wf(),
            final(self).spec_alive(e),
            final(self).node_of(e).children.len() == 0,
            final(self).node_of(e).parent == old(self).node_of(e).parent,
            final(self).node_of(e).ignored == old(self).node_of(e).ignored,
            final(self).node_of(e).depth == old(self).node_of(e).depth,
            forall|x: Entity|
                final(self).spec_alive(x) ==> old(self).spec_alive(x),
        decreases old(self).node_of(e).children.len(),
    {
        proof {
            assert(old(self).slot_wf(e.index as int));
            if old(self).in_subtree(e, e) {
            }
        }
        let cs = self.children(e);
        if cs.len() > 0 {
            let c = cs[0];
            proof {
                assert(old(self).spec_alive(c));
                assert(old(self).slot_wf(c.index as int));
                assert(c != Entity::spec_root());
                if old(self).in_subtree(e, c) {
                    old(self).lemma_subtree_depth(e, c);
                }
            }
            self.remove(c);
            proof {
                let jw = choose|jw: int|
                    0 <= jw < old(self).node_of(e).children.len() && old(self).node_of(
                        e,
                    ).children@[jw] == c && self.node_of(e).children@ == old(self).node_of(
                        e,
                    ).children@.remove(jw);
                assert(self.node_of(e).children.len() < old(self).node_of(e).children.len());
            }
            self.remove_children(e);
        }
    }
}

} // verus!
