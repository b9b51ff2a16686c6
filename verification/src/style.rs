//! The style store: property metadata, the three per-property value tiers
//! (inline, shared/cascaded, inherited), per-entity selector state (ids,
//! classes, pseudo-class flags, element kinds), the rule set, and the dirty
//! sets consumed by a restyle pass.

use vstd::prelude::*;

use crate::elements::ElementMap;
use crate::entity::Entity;
use crate::selector::Selector;
use crate::storage::SparseSet;

verus! {

/// The index of the `display` property, registered by every new style store.
pub const PROP_DISPLAY: usize = 0;

/// The index of the `disabled` property, registered by every new style store.
pub const PROP_DISABLED: usize = 1;

/// The `display` value that hides an element.  Any other value (and an
/// absent value) counts as displayed.
pub const DISPLAY_NONE: u64 = 0;

/// The `display` value of a visible flex element, the default.
pub const DISPLAY_FLEX: u64 = 1;

/// Static description of one styleable property.
///
/// A property value is an opaque 64-bit datum (a packed colour, an
/// enumerated keyword, a scaled length): the engine only ever compares
/// values for equality, so their encoding belongs to the caller.
#[derive(Clone, Copy, PartialEq, Eq, Structural, Debug)]
pub struct PropertyDef {
    /// Copied down from the layout parent when no local value exists.
    pub inheritable: bool,
    /// A change triggers the process-wide relayout flag.
    pub relayout: bool,
    /// A change enqueues the entity for redraw.
    pub redraw: bool,
    /// A change requests text re-shaping on the nearest displayed layout
    /// ancestor.
    pub reflow: bool,
    /// The value every entity resolves to when no tier holds one.
    pub default_value: u64,
}

/// Per-entity state pseudo-class flags, read by the selector matcher and
/// never mutated by it.
#[derive(Clone, Copy, PartialEq, Eq, Structural, Debug)]
pub struct PseudoState {
    pub disabled: bool,
    pub hover: bool,
    pub over: bool,
    pub active: bool,
    pub focus: bool,
    pub focus_visible: bool,
    pub focus_within: bool,
    pub checked: bool,
    pub indeterminate: bool,
    pub read_only: bool,
    pub read_write: bool,
    pub placeholder_shown: bool,
    pub neutral: bool,
    pub blank: bool,
    pub valid: bool,
    pub invalid: bool,
    pub in_range: bool,
    pub out_of_range: bool,
    pub required: bool,
    pub optional: bool,
    pub user_valid: bool,
    pub user_invalid: bool,
}

impl PseudoState {
    /// The state with every flag cleared.
    pub open spec fn spec_empty() -> PseudoState {
        PseudoState {
            disabled: false,
            hover: false,
            over: false,
            active: false,
            focus: false,
            focus_visible: false,
            focus_within: false,
            checked: false,
            indeterminate: false,
            read_only: false,
            read_write: false,
            placeholder_shown: false,
            neutral: false,
            blank: false,
            valid: false,
            invalid: false,
            in_range: false,
            out_of_range: false,
            required: false,
            optional: false,
            user_valid: false,
            user_invalid: false,
        }
    }

    /// The state with every flag cleared.
    pub fn empty() -> (r: PseudoState)
        ensures
            r == PseudoState::spec_empty(),
    {
        PseudoState {
            disabled: false,
            hover: false,
            over: false,
            active: false,
            focus: false,
            focus_visible: false,
            focus_within: false,
            checked: false,
            indeterminate: false,
            read_only: false,
            read_write: false,
            placeholder_shown: false,
            neutral: false,
            blank: false,
            valid: false,
            invalid: false,
            in_range: false,
            out_of_range: false,
            required: false,
            optional: false,
            user_valid: false,
            user_invalid: false,
        }
    }
}

/// One declaration of a rule: a property index and the value it sets.
#[derive(Clone, Copy, PartialEq, Eq, Structural, Debug)]
pub struct Declaration {
    /// Index of the property being set.
    pub property: usize,
    /// The value it is set to.
    pub value: u64,
}

/// One style rule: an identifier, the selectors under which it applies (it
/// matches when any one of them does), and its declarations.
#[derive(Clone, Debug)]
pub struct StyleRule {
    /// Caller-chosen rule identifier.
    pub id: u64,
    /// The rule applies when any of these selectors matches.
    pub selectors: Vec<Selector>,
    /// The property values the rule sets.  When a property occurs twice the
    /// later declaration wins.
    pub declarations: Vec<Declaration>,
}

impl StyleRule {
    /// Every selector is structurally sound and uses only implemented
    /// features.
    pub open spec fn spec_supported(self) -> bool {
        forall|i: int|
            0 <= i < self.selectors.len() ==> (#[trigger] self.selectors@[i]).spec_wf()
                && self.selectors@[i].spec_supported()
    }

    /// No selector of this rule reads sibling positions, either through a
    /// positional pseudo-class or through a sibling combinator.
    pub open spec fn spec_position_independent(self) -> bool {
        forall|i: int|
            0 <= i < self.selectors.len() ==> (#[trigger] self.selectors@[i]).spec_positional_free()
                && self.selectors@[i].spec_sibling_free()
    }

    /// The value this rule declares for property `p`: the last declaration
    /// for `p`, if any.
    pub open spec fn spec_declared(self, p: int) -> Option<u64>
        decreases self.declarations.len(),
    {
        self.declarations_prefix_declared(self.declarations.len() as int, p)
    }

    /// The winning declaration for `p` among the first `n` declarations.
    pub open spec fn declarations_prefix_declared(self, n: int, p: int) -> Option<u64>
        decreases n,
    {
        if n <= 0 || n > self.declarations.len() {
            None
        } else if self.declarations@[n - 1].property == p {
            Some(self.declarations@[n - 1].value)
        } else {
            self.declarations_prefix_declared(n - 1, p)
        }
    }

    /// The value this rule declares for property `p`, computed.
    pub fn declared(&self, p: usize) -> (r: Option<u64>)
        ensures
            r == self.spec_declared(p as int),
    {
        let mut n: usize = self.declarations.len();
        while n > 0
            invariant
                n <= self.declarations.len(),
                self.spec_declared(p as int) == self.declarations_prefix_declared(
                    n as int,
                    p as int,
                ),
            decreases n,
        {
            if self.declarations[n - 1].property == p {
                return Some(self.declarations[n - 1].value);
            }
            n = n - 1;
        }
        None
    }
}

/// Why a rule set was rejected.
#[derive(Clone, Copy, PartialEq, Eq, Structural, Debug)]
pub enum StyleError {
    /// A selector uses a feature this engine does not implement (`:lang`,
    /// `:dir`, custom pseudo-classes).  The indices identify the offending
    /// rule and selector.
    UnsupportedSelector { rule: usize, selector: usize },
    /// A selector is structurally malformed: its combinator count does not
    /// fit its compound count.
    MalformedSelector { rule: usize, selector: usize },
}

/// The style store.
pub struct Style {
    /// Metadata per property, in fixed declared order.
    pub props: Vec<PropertyDef>,
    /// Inline tier: explicit per-entity overrides, always win.
    pub inline: Vec<SparseSet<u64>>,
    /// Shared tier: values linked from matching rules.
    pub shared: Vec<SparseSet<u64>>,
    /// Inherited tier: values copied down from layout ancestors.
    pub inherited: Vec<SparseSet<u64>>,
    /// Per-entity id, for id selectors.
    pub ids: SparseSet<String>,
    /// Per-entity class list, for class selectors (set semantics).
    pub classes: SparseSet<Vec<String>>,
    /// Per-entity state pseudo-class flags.
    pub pseudo: SparseSet<PseudoState>,
    /// Per-entity element kind, for type selectors.
    pub elements: ElementMap,
    /// The rule set, in declaration order (later rules win specificity
    /// ties).
    pub rules: Vec<StyleRule>,
    /// True when no rule reads sibling positions, so match results may be
    /// shared between look-alike siblings.
    pub rules_position_independent: bool,
    /// Entities that need restyling next pass.
    pub restyle: SparseSet<bool>,
    /// Entities whose text needs re-shaping.
    pub text_update: SparseSet<bool>,
    /// Some layout-affecting property changed.
    pub needs_relayout: bool,
    /// Something changed that needs a restyle pass.
    pub needs_restyle: bool,
    /// Something changed that needs a repaint.
    pub needs_redraw: bool,
}

impl Style {
    /// Every tier vector tracks the property table, the rule set is
    /// supported, and the position-independence flag is truthful.
    pub open spec fn wf(self) -> bool {
        &&& self.props.len() >= 2
        &&& !self.props@[PROP_DISPLAY as int].inheritable
        &&& self.inline.len() == self.props.len()
        &&& self.shared.len() == self.props.len()
        &&& self.inherited.len() == self.props.len()
        &&& forall|i: int|
            0 <= i < self.rules.len() ==> (#[trigger] self.rules@[i]).spec_supported()
        &&& self.rules_position_independent == (forall|i: int|
            0 <= i < self.rules.len() ==> (#[trigger] self.rules@[i]).spec_position_independent())
    }

    /// The inline value of property `p` on entity slot `e`.
    pub open spec fn inline_of(self, p: int, e: int) -> Option<u64> {
        if 0 <= p < self.inline.len() {
            self.inline@[p].spec_get(e)
        } else {
            None
        }
    }

    /// The shared (cascaded) value of property `p` on entity slot `e`.
    pub open spec fn shared_of(self, p: int, e: int) -> Option<u64> {
        if 0 <= p < self.shared.len() {
            self.shared@[p].spec_get(e)
        } else {
            None
        }
    }

    /// The inherited value of property `p` on entity slot `e`.
    pub open spec fn inherited_of(self, p: int, e: int) -> Option<u64> {
        if 0 <= p < self.inherited.len() {
            self.inherited@[p].spec_get(e)
        } else {
            None
        }
    }

    /// A local value: inline beats shared.  Inheritance only applies where
    /// this is absent.
    pub open spec fn local_of(self, p: int, e: int) -> Option<u64> {
        match self.inline_of(p, e) {
            Some(v) => Some(v),
            None => self.shared_of(p, e),
        }
    }

    /// The value visible on the entity before falling back to the declared
    /// default: inline, else shared, else inherited.
    pub open spec fn visible_of(self, p: int, e: int) -> Option<u64> {
        match self.local_of(p, e) {
            Some(v) => Some(v),
            None => self.inherited_of(p, e),
        }
    }

    /// The resolved value of property `p` on entity slot `e`: inline over
    /// shared over inherited over the declared default.
    pub open spec fn resolved_of(self, p: int, e: int) -> u64 {
        match self.visible_of(p, e) {
            Some(v) => v,
            None => if 0 <= p < self.props.len() {
                self.props@[p].default_value
            } else {
                0
            },
        }
    }

    /// Well-formedness carries over to a state with the same rule set and
    /// the same position-independence flag.
    pub proof fn lemma_wf_rules_carry(pre: Style, post: Style)
        requires
            pre.wf(),
            post.rules@ == pre.rules@,
            post.rules_position_independent == pre.rules_position_independent,
            post.props.len() >= 2,
            post.props@[PROP_DISPLAY as int] == pre.props@[PROP_DISPLAY as int],
            post.inline.len() == post.props.len(),
            post.shared.len() == post.props.len(),
            post.inherited.len() == post.props.len(),
        ensures
            post.wf(),
    {
        assert forall|i: int|
            0 <= i < post.rules.len() implies (#[trigger] post.rules@[i]).spec_supported() by {
            assert(pre.rules@[i].spec_supported());
        }
        if pre.rules_position_independent {
            assert forall|i: int|
                0 <= i < post.rules.len() implies (
                #[trigger] post.rules@[i]).spec_position_independent() by {
                assert(pre.rules@[i].spec_position_independent());
            }
        } else {
            let i = choose|i: int|
                !(0 <= i < pre.rules.len() ==> (
                #[trigger] pre.rules@[i]).spec_position_independent());
            assert(!(0 <= i < post.rules.len() ==> post.rules@[i].spec_position_independent()));
        }
    }

    /// A fresh store with the two built-in properties, `display` and
    /// `disabled`, and no rules.
    pub fn new() -> (s: Style)
        ensures
            s.wf(),
            s.props.len() == 2,
            s.props@[PROP_DISPLAY as int] == (PropertyDef {
                inheritable: false,
                relayout: true,
                redraw: true,
                reflow: false,
                default_value: DISPLAY_FLEX,
            }),
            s.props@[PROP_DISABLED as int] == (PropertyDef {
                inheritable: true,
                relayout: false,
                redraw: true,
                reflow: false,
                default_value: 0,
            }),
            s.rules.len() == 0,
            forall|p: int, e: int| s.inline_of(p, e) is None,
            forall|p: int, e: int| s.shared_of(p, e) is None,
            forall|p: int, e: int| s.inherited_of(p, e) is None,
            forall|e: int| s.ids.spec_get(e) is None,
            forall|e: int| s.classes.spec_get(e) is None,
            forall|e: int| s.pseudo.spec_get(e) is None,
            forall|k: u64| !crate::elements::element_entries(s.elements).dom().contains(k),
            forall|e: int| s.restyle.spec_get(e) is None,
            forall|e: int| s.text_update.spec_get(e) is None,
    {
        let mut props: Vec<PropertyDef> = Vec::new();
        props.push(
            PropertyDef {
                inheritable: false,
                relayout: true,
                redraw: true,
                reflow: false,
                default_value: DISPLAY_FLEX,
            },
        );
        props.push(
            PropertyDef {
                inheritable: true,
                relayout: false,
                redraw: true,
                reflow: false,
                default_value: 0,
            },
        );
        let mut inline: Vec<SparseSet<u64>> = Vec::new();
        inline.push(SparseSet::new());
        inline.push(SparseSet::new());
        let mut shared: Vec<SparseSet<u64>> = Vec::new();
        shared.push(SparseSet::new());
        shared.push(SparseSet::new());
        let mut inherited: Vec<SparseSet<u64>> = Vec::new();
        inherited.push(SparseSet::new());
        inherited.push(SparseSet::new());
        Style {
            props,
            inline,
            shared,
            inherited,
            ids: SparseSet::new(),
            classes: SparseSet::new(),
            pseudo: SparseSet::new(),
            elements: ElementMap::new(),
            rules: Vec::new(),
            rules_position_independent: true,
            restyle: SparseSet::new(),
            text_update: SparseSet::new(),
            needs_relayout: false,
            needs_restyle: false,
            needs_redraw: false,
        }
    }

    /// Register a styleable property and return its index.  Properties are
    /// iterated in registration order during cascade linking, which keeps
    /// the pass deterministic.
    pub fn register_property(&mut self, def: PropertyDef) -> (p: usize)
        requires
            old(self).wf(),
        ensures
            final(self).wf(),
            p == old(self).props.len(),
            final(self).props@ == old(self).props@.push(def),
            final(self).rules@ == old(self).rules@,
            final(self).rules_position_independent == old(self).rules_position_independent,
            forall|p2: int, e: int|
                final(self).inline_of(p2, e) == if p2 == p as int {
                    None::<u64>
                } else {
                    old(self).inline_of(p2, e)
                },
            forall|p2: int, e: int|
                final(self).shared_of(p2, e) == if p2 == p as int {
                    None::<u64>
                } else {
                    old(self).shared_of(p2, e)
                },
            forall|p2: int, e: int|
                final(self).inherited_of(p2, e) == if p2 == p as int {
                    None::<u64>
                } else {
                    old(self).inherited_of(p2, e)
                },
            final(self).ids == old(self).ids,
            final(self).classes == old(self).classes,
            final(self).pseudo == old(self).pseudo,
            final(self).elements == old(self).elements,
            final(self).restyle == old(self).restyle,
            final(self).text_update == old(self).text_update,
    {
        let p = self.props.len();
        self.props.push(def);
        self.inline.push(SparseSet::new());
        self.shared.push(SparseSet::new());
        self.inherited.push(SparseSet::new());
        proof {
            Self::lemma_wf_rules_carry(*old(self), *self);
        }
        p
    }

    /// Look up the resolved value of property `p` on entity slot `e`.
    pub fn resolved_value(&self, p: usize, e: usize) -> (r: u64)
        requires
            self.wf(),
            p < self.props.len(),
        ensures
            r == self.resolved_of(p as int, e as int),
    {
        match self.inline[p].get(e) {
            Some(v) => *v,
            None => match self.shared[p].get(e) {
                Some(v) => *v,
                None => match self.inherited[p].get(e) {
                    Some(v) => *v,
                    None => self.props[p].default_value,
                },
            },
        }
    }

    /// Everything except the named tier column and the dirty machinery is
    /// unchanged.
    pub open spec fn same_but_tiers_and_dirty(self, pre: Style) -> bool {
        &&& self.props@ == pre.props@
        &&& self.rules@ == pre.rules@
        &&& self.rules_position_independent == pre.rules_position_independent
        &&& self.ids == pre.ids
        &&& self.classes == pre.classes
        &&& self.pseudo == pre.pseudo
        &&& self.elements == pre.elements
        &&& self.text_update == pre.text_update
        &&& self.needs_relayout == pre.needs_relayout
        &&& self.needs_redraw == pre.needs_redraw
    }

    /// Set an inline override for property `p` on entity slot `e` and mark
    /// the entity for restyling.
    pub fn set_inline(&mut self, p: usize, e: usize, v: u64)
        requires
            old(self).wf(),
            p < old(self).props.len(),
            e < usize::MAX,
        ensures
            final(self).wf(),
            final(self).same_but_tiers_and_dirty(*old(self)),
            final(self).inline_of(p as int, e as int) == Some(v),
            forall|p2: int, e2: int|
                !(p2 == p && e2 == e) ==> final(self).inline_of(p2, e2) == old(self).inline_of(
                    p2,
                    e2,
                ),
            forall|p2: int, e2: int|
                final(self).shared_of(p2, e2) == old(self).shared_of(p2, e2),
            forall|p2: int, e2: int|
                final(self).inherited_of(p2, e2) == old(self).inherited_of(p2, e2),
            final(self).restyle.spec_get(e as int) is Some,
            forall|e2: int|
                e2 != e ==> final(self).restyle.spec_get(e2) == old(self).restyle.spec_get(e2),
            final(self).needs_restyle,
    {
        let col = &mut self.inline[p];
        col.insert(e, v);
        let ghost mid = *self;
        self.restyle.insert(e, true);
        self.needs_restyle = true;
        proof {
            Self::lemma_wf_rules_carry(*old(self), *self);
            assert(self.inline@ == mid.inline@);
            assert forall|p2: int, e2: int|
                !(p2 == p && e2 == e) implies self.inline_of(p2, e2) == old(self).inline_of(
                p2,
                e2,
            ) by {
                if p2 != p && 0 <= p2 < self.inline.len() {
                    assert(self.inline@[p2] == old(self).inline@[p2]);
                }
            }
        }
    }

    /// Clear the inline override for property `p` on entity slot `e` and
    /// mark the entity for restyling.
    pub fn clear_inline(&mut self, p: usize, e: usize)
        requires
            old(self).wf(),
            p < old(self).props.len(),
            e < usize::MAX,
        ensures
            final(self).wf(),
            final(self).same_but_tiers_and_dirty(*old(self)),
            final(self).inline_of(p as int, e as int) is None,
            forall|p2: int, e2: int|
                !(p2 == p && e2 == e) ==> final(self).inline_of(p2, e2) == old(self).inline_of(
                    p2,
                    e2,
                ),
            forall|p2: int, e2: int|
                final(self).shared_of(p2, e2) == old(self).shared_of(p2, e2),
            forall|p2: int, e2: int|
                final(self).inherited_of(p2, e2) == old(self).inherited_of(p2, e2),
            final(self).restyle.spec_get(e as int) is Some,
            forall|e2: int|
                e2 != e ==> final(self).restyle.spec_get(e2) == old(self).restyle.spec_get(e2),
            final(self).needs_restyle,
    {
        let col = &mut self.inline[p];
        col.remove(e);
        let ghost mid = *self;
        self.restyle.insert(e, true);
        self.needs_restyle = true;
        proof {
            Self::lemma_wf_rules_carry(*old(self), *self);
            assert(self.inline@ == mid.inline@);
            assert forall|p2: int, e2: int|
                !(p2 == p && e2 == e) implies self.inline_of(p2, e2) == old(self).inline_of(
                p2,
                e2,
            ) by {
                if p2 != p && 0 <= p2 < self.inline.len() {
                    assert(self.inline@[p2] == old(self).inline@[p2]);
                }
            }
        }
    }

    /// Everything except one per-entity side table and the dirty machinery
    /// is unchanged.
    pub open spec fn same_but_entity_state_and_dirty(self, pre: Style) -> bool {
        &&& self.props@ == pre.props@
        &&& self.rules@ == pre.rules@
        &&& self.rules_position_independent == pre.rules_position_independent
        &&& forall|p2: int, e2: int| self.inline_of(p2, e2) == pre.inline_of(p2, e2)
        &&& forall|p2: int, e2: int| self.shared_of(p2, e2) == pre.shared_of(p2, e2)
        &&& forall|p2: int, e2: int| self.inherited_of(p2, e2) == pre.inherited_of(p2, e2)
        &&& self.text_update == pre.text_update
        &&& self.needs_relayout == pre.needs_relayout
        &&& self.needs_redraw == pre.needs_redraw
        &&& self.needs_restyle
    }

    /// Set the id of entity slot `e` and mark it for restyling.
    pub fn set_id(&mut self, e: usize, id: String)
        requires
            old(self).wf(),
            e < usize::MAX,
        ensures
            final(self).wf(),
            final(self).same_but_entity_state_and_dirty(*old(self)),
            final(self).ids.spec_get(e as int) == Some(id),
            forall|e2: int| e2 != e ==> final(self).ids.spec_get(e2) == old(self).ids.spec_get(e2),
            final(self).classes == old(self).classes,
            final(self).pseudo == old(self).pseudo,
            final(self).elements == old(self).elements,
            final(self).restyle.spec_get(e as int) is Some,
            forall|e2: int|
                e2 != e ==> final(self).restyle.spec_get(e2) == old(self).restyle.spec_get(e2),
    {
        self.ids.insert(e, id);
        self.restyle.insert(e, true);
        self.needs_restyle = true;
        proof {
            Self::lemma_wf_rules_carry(*old(self), *self);
        }
    }

    /// Clear the id of entity slot `e` and mark it for restyling.
    pub fn clear_id(&mut self, e: usize)
        requires
            old(self).wf(),
            e < usize::MAX,
        ensures
            final(self).wf(),
            final(self).same_but_entity_state_and_dirty(*old(self)),
            final(self).ids.spec_get(e as int) is None,
            forall|e2: int| e2 != e ==> final(self).ids.spec_get(e2) == old(self).ids.spec_get(e2),
            final(self).classes == old(self).classes,
            final(self).pseudo == old(self).pseudo,
            final(self).elements == old(self).elements,
            final(self).restyle.spec_get(e as int) is Some,
            forall|e2: int|
                e2 != e ==> final(self).restyle.spec_get(e2) == old(self).restyle.spec_get(e2),
    {
        self.ids.remove(e);
        self.restyle.insert(e, true);
        self.needs_restyle = true;
        proof {
            Self::lemma_wf_rules_carry(*old(self), *self);
        }
    }

    /// Replace the class list of entity slot `e` and mark it for restyling.
    /// Class lists have set semantics: order and duplicates do not matter.
    pub fn set_classes(&mut self, e: usize, classes: Vec<String>)
        requires
            old(self).wf(),
            e < usize::MAX,
        ensures
            final(self).wf(),
            final(self).same_but_entity_state_and_dirty(*old(self)),
            final(self).classes.spec_get(e as int) == Some(classes),
            forall|e2: int|
                e2 != e ==> final(self).classes.spec_get(e2) == old(self).classes.spec_get(e2),
            final(self).ids == old(self).ids,
            final(self).pseudo == old(self).pseudo,
            final(self).elements == old(self).elements,
            final(self).restyle.spec_get(e as int) is Some,
            forall|e2: int|
                e2 != e ==> final(self).restyle.spec_get(e2) == old(self).restyle.spec_get(e2),
    {
        self.classes.insert(e, classes);
        self.restyle.insert(e, true);
        self.needs_restyle = true;
        proof {
            Self::lemma_wf_rules_carry(*old(self), *self);
        }
    }

    /// Replace the state pseudo-class flags of entity slot `e` and mark it
    /// for restyling.
    pub fn set_pseudo_state(&mut self, e: usize, state: PseudoState)
        requires
            old(self).wf(),
            e < usize::MAX,
        ensures
            final(self).wf(),
            final(self).same_but_entity_state_and_dirty(*old(self)),
            final(self).pseudo.spec_get(e as int) == Some(state),
            forall|e2: int|
                e2 != e ==> final(self).pseudo.spec_get(e2) == old(self).pseudo.spec_get(e2),
            final(self).ids == old(self).ids,
            final(self).classes == old(self).classes,
            final(self).elements == old(self).elements,
            final(self).restyle.spec_get(e as int) is Some,
            forall|e2: int|
                e2 != e ==> final(self).restyle.spec_get(e2) == old(self).restyle.spec_get(e2),
    {
        self.pseudo.insert(e, state);
        self.restyle.insert(e, true);
        self.needs_restyle = true;
        proof {
            Self::lemma_wf_rules_carry(*old(self), *self);
        }
    }

    /// Set the element kind of entity slot `e` and mark it for restyling.
    pub fn set_element(&mut self, e: usize, kind: String)
        requires
            old(self).wf(),
            e < usize::MAX,
        ensures
            final(self).wf(),
            final(self).same_but_entity_state_and_dirty(*old(self)),
            crate::elements::element_entries(final(self).elements) == crate::elements::element_entries(
                old(self).elements,
            ).insert(e as u64, kind@),
            final(self).ids == old(self).ids,
            final(self).classes == old(self).classes,
            final(self).pseudo == old(self).pseudo,
            final(self).restyle.spec_get(e as int) is Some,
            forall|e2: int|
                e2 != e ==> final(self).restyle.spec_get(e2) == old(self).restyle.spec_get(e2),
    {
        self.elements.set(e as u64, kind);
        self.restyle.insert(e, true);
        self.needs_restyle = true;
        proof {
            Self::lemma_wf_rules_carry(*old(self), *self);
        }
    }

    /// Mark entity slot `e` as needing restyling next pass.
    pub fn mark_restyle(&mut self, e: usize)
        requires
            old(self).wf(),
            e < usize::MAX,
        ensures
            final(self).wf(),
            final(self).same_but_entity_state_and_dirty(*old(self)),
            final(self).ids == old(self).ids,
            final(self).classes == old(self).classes,
            final(self).pseudo == old(self).pseudo,
            final(self).elements == old(self).elements,
            final(self).restyle.spec_get(e as int) is Some,
            forall|e2: int|
                e2 != e ==> final(self).restyle.spec_get(e2) == old(self).restyle.spec_get(e2),
    {
        self.restyle.insert(e, true);
        self.needs_restyle = true;
        proof {
            Self::lemma_wf_rules_carry(*old(self), *self);
        }
    }

    /// Mark entity slot `e` as needing its text re-shaped.
    pub fn needs_text_update(&mut self, e: usize)
        requires
            old(self).wf(),
            e < usize::MAX,
        ensures
            final(self).wf(),
            final(self).props@ == old(self).props@,
            final(self).rules@ == old(self).rules@,
            final(self).rules_position_independent == old(self).rules_position_independent,
            forall|p2: int, e2: int| final(self).inline_of(p2, e2) == old(self).inline_of(p2, e2),
            forall|p2: int, e2: int| final(self).shared_of(p2, e2) == old(self).shared_of(p2, e2),
            forall|p2: int, e2: int|
                final(self).inherited_of(p2, e2) == old(self).inherited_of(p2, e2),
            final(self).ids == old(self).ids,
            final(self).classes == old(self).classes,
            final(self).pseudo == old(self).pseudo,
            final(self).elements == old(self).elements,
            final(self).restyle == old(self).restyle,
            final(self).needs_restyle == old(self).needs_restyle,
            final(self).needs_relayout == old(self).needs_relayout,
            final(self).needs_redraw == old(self).needs_redraw,
            final(self).text_update.spec_get(e as int) == Some(true),
            forall|e2: int|
                e2 != e ==> final(self).text_update.spec_get(e2) == old(self).text_update.spec_get(
                    e2,
                ),
    {
        self.text_update.insert(e, true);
        proof {
            Self::lemma_wf_rules_carry(*old(self), *self);
        }
    }

    /// Replace the rule set.
    ///
    /// A rule set that uses an unimplemented selector feature, or holds a
    /// malformed selector, is rejected whole: the previously applied rule
    /// set stays in effect and the error names the offending rule and
    /// selector.  On success the store is marked as needing a restyle; the
    /// caller is expected to mark the whole tree dirty, since any entity's
    /// matches may have changed.
    #[verifier::loop_isolation(false)]
    pub fn set_rules(&mut self, new_rules: Vec<StyleRule>) -> (r: Result<(), StyleError>)
        requires
            old(self).wf(),
        ensures
            final(self).wf(),
            r is Ok <==> (forall|i: int|
                0 <= i < new_rules.len() ==> (#[trigger] new_rules@[i]).spec_supported()),
            r is Err ==> *final(self) == *old(self),
            r matches Err(StyleError::MalformedSelector { rule, selector }) ==> rule
                < new_rules.len() && selector < new_rules@[rule as int].selectors.len() && !(
            new_rules@[rule as int].selectors@[selector as int]).spec_wf(),
            r matches Err(StyleError::UnsupportedSelector { rule, selector }) ==> rule
                < new_rules.len() && selector < new_rules@[rule as int].selectors.len() && !(
            new_rules@[rule as int].selectors@[selector as int]).spec_supported(),
            r is Ok ==> {
                &&& final(self).rules@ == new_rules@
                &&& final(self).needs_restyle
                &&& final(self).props@ == old(self).props@
                &&& (forall|p2: int, e2: int|
                    final(self).inline_of(p2, e2) == old(self).inline_of(p2, e2))
                &&& (forall|p2: int, e2: int|
                    final(self).shared_of(p2, e2) == old(self).shared_of(p2, e2))
                &&& (forall|p2: int, e2: int|
                    final(self).inherited_of(p2, e2) == old(self).inherited_of(p2, e2))
                &&& final(self).ids == old(self).ids
                &&& final(self).classes == old(self).classes
                &&& final(self).pseudo == old(self).pseudo
                &&& final(self).elements == old(self).elements
                &&& final(self).restyle == old(self).restyle
                &&& final(self).text_update == old(self).text_update
            },
    {
        let mut i: usize = 0;
        let mut position_independent = true;
        while i < new_rules.len()
            invariant
                i <= new_rules.len(),
                forall|i2: int| 0 <= i2 < i ==> (#[trigger] new_rules@[i2]).spec_supported(),
                position_independent == (forall|i2: int|
                    0 <= i2 < i ==> (#[trigger] new_rules@[i2]).spec_position_independent()),
            decreases new_rules.len() - i,
        {
            let rule = &new_rules[i];
            let mut j: usize = 0;
            while j < rule.selectors.len()
                invariant
                    rule == &new_rules[i as int],
                    i < new_rules.len(),
                    j <= rule.selectors.len(),
                    forall|j2: int|
                        0 <= j2 < j ==> (#[trigger] rule.selectors@[j2]).spec_wf()
                            && rule.selectors@[j2].spec_supported(),
                    position_independent ==> (forall|i2: int|
                        0 <= i2 < i ==> (#[trigger] new_rules@[i2]).spec_position_independent()),
                    position_independent ==> (forall|j2: int|
                        0 <= j2 < j ==> (#[trigger] rule.selectors@[j2]).spec_positional_free()
                            && rule.selectors@[j2].spec_sibling_free()),
                    !position_independent ==> !(forall|i2: int|
                        0 <= i2 <= i ==> (
                        #[trigger] new_rules@[i2]).spec_position_independent()),
                    forall|i2: int| 0 <= i2 < i ==> (#[trigger] new_rules@[i2]).spec_supported(),
                decreases rule.selectors.len() - j,
            {
                let sel = &rule.selectors[j];
                if !sel.wf() {
                    return Err(StyleError::MalformedSelector { rule: i, selector: j });
                }
                if !sel.supported() {
                    return Err(StyleError::UnsupportedSelector { rule: i, selector: j });
                }
                if position_independent && (!sel.positional_free() || !sel.sibling_free()) {
                    position_independent = false;
                    proof {
                        assert(!new_rules@[i as int].spec_position_independent());
                    }
                }
                j = j + 1;
            }
            i = i + 1;
        }
        let ghost nr = new_rules@;
        self.rules = new_rules;
        self.rules_position_independent = position_independent;
        self.needs_restyle = true;
        proof {
            assert(self.rules@ == nr);
            assert forall|i2: int|
                0 <= i2 < self.rules.len() implies (#[trigger] self.rules@[i2]).spec_supported() by {
                assert(nr[i2].spec_supported());
            }
            if position_independent {
                assert forall|i2: int|
                    0 <= i2 < self.rules.len() implies (
                #[trigger] self.rules@[i2]).spec_position_independent() by {
                    assert(nr[i2].spec_position_independent());
                }
            } else {
                let i2 = choose|i2: int|
                    !(0 <= i2 < nr.len() ==> (#[trigger] nr[i2]).spec_position_independent());
                assert(!(0 <= i2 < self.rules.len()
                    ==> self.rules@[i2].spec_position_independent()));
            }
        }
        Ok(())
    }

    /// Drop every stored datum of entity slot `e`, from every tier and every
    /// side table, in one step.
    pub fn remove_entity(&mut self, e: usize)
        requires
            old(self).wf(),
        ensures
            final(self).wf(),
            final(self).props@ == old(self).props@,
            final(self).rules@ == old(self).rules@,
            final(self).rules_position_independent == old(self).rules_position_independent,
            forall|p: int| final(self).inline_of(p, e as int) is None,
            forall|p: int| final(self).shared_of(p, e as int) is None,
            forall|p: int| final(self).inherited_of(p, e as int) is None,
            final(self).ids.spec_get(e as int) is None,
            final(self).classes.spec_get(e as int) is None,
            final(self).pseudo.spec_get(e as int) is None,
            !crate::elements::element_entries(final(self).elements).dom().contains(e as u64),
            final(self).restyle.spec_get(e as int) is None,
            final(self).text_update.spec_get(e as int) is None,
            forall|p: int, e2: int|
                e2 != e ==> final(self).inline_of(p, e2) == old(self).inline_of(p, e2),
            forall|p: int, e2: int|
                e2 != e ==> final(self).shared_of(p, e2) == old(self).shared_of(p, e2),
            forall|p: int, e2: int|
                e2 != e ==> final(self).inherited_of(p, e2) == old(self).inherited_of(p, e2),
            forall|e2: int| e2 != e ==> final(self).ids.spec_get(e2) == old(self).ids.spec_get(e2),
            forall|e2: int|
                e2 != e ==> final(self).classes.spec_get(e2) == old(self).classes.spec_get(e2),
            forall|e2: int|
                e2 != e ==> final(self).pseudo.spec_get(e2) == old(self).pseudo.spec_get(e2),
            forall|k: u64|
                k != e as u64 ==> crate::elements::element_entries(final(self).elements).dom().contains(
                    k,
                ) == crate::elements::element_entries(old(self).elements).dom().contains(k),
            forall|k: u64|
                k != e as u64 && crate::elements::element_entries(old(self).elements).dom().contains(
                    k,
                ) ==> crate::elements::element_entries(final(self).elements)[k]
                    == crate::elements::element_entries(old(self).elements)[k],
            forall|e2: int|
                e2 != e ==> final(self).restyle.spec_get(e2) == old(self).restyle.spec_get(e2),
            forall|e2: int|
                e2 != e ==> final(self).text_update.spec_get(e2) == old(self).text_update.spec_get(
                    e2,
                ),
            final(self).needs_restyle,
            final(self).needs_relayout,
            final(self).needs_redraw,
    {
        let mut p: usize = 0;
        let n = self.props.len();
        while p < n
            invariant
                n == self.props.len(),
                p <= n,
                self.inline.len() == n,
                self.shared.len() == n,
                self.inherited.len() == n,
                self.props@ == old(self).props@,
                self.rules@ == old(self).rules@,
                self.rules_position_independent == old(self).rules_position_independent,
                self.ids == old(self).ids,
                self.classes == old(self).classes,
                self.pseudo == old(self).pseudo,
                self.elements == old(self).elements,
                self.restyle == old(self).restyle,
                self.text_update == old(self).text_update,
                forall|p2: int| 0 <= p2 < p ==> self.inline_of(p2, e as int) is None,
                forall|p2: int| 0 <= p2 < p ==> self.shared_of(p2, e as int) is None,
                forall|p2: int| 0 <= p2 < p ==> self.inherited_of(p2, e as int) is None,
                forall|p2: int, e2: int|
                    e2 != e ==> self.inline_of(p2, e2) == old(self).inline_of(p2, e2),
                forall|p2: int, e2: int|
                    e2 != e ==> self.shared_of(p2, e2) == old(self).shared_of(p2, e2),
                forall|p2: int, e2: int|
                    e2 != e ==> self.inherited_of(p2, e2) == old(self).inherited_of(p2, e2),
                forall|p2: int|
                    p <= p2 < n ==> self.inline_of(p2, e as int) == old(self).inline_of(
                        p2,
                        e as int,
                    ) && self.shared_of(p2, e as int) == old(self).shared_of(p2, e as int)
                        && self.inherited_of(p2, e as int) == old(self).inherited_of(p2, e as int),
            decreases n - p,
        {
            let ghost snap = *self;
            let inline_col = &mut self.inline[p];
            inline_col.remove(e);
            let shared_col = &mut self.shared[p];
            shared_col.remove(e);
            let inherited_col = &mut self.inherited[p];
            inherited_col.remove(e);
            proof {
                assert forall|p2: int, e2: int|
                    0 <= p2 < n implies self.inline_of(p2, e2) == (if e2 == e && (p2 == p || snap.inline_of(
                    p2,
                    e2,
                ) is None) {
                    None
                } else {
                    snap.inline_of(p2, e2)
                }) && self.shared_of(p2, e2) == (if e2 == e && (p2 == p || snap.shared_of(
                    p2,
                    e2,
                ) is None) {
                    None
                } else {
                    snap.shared_of(p2, e2)
                }) && self.inherited_of(p2, e2) == (if e2 == e && (p2 == p || snap.inherited_of(
                    p2,
                    e2,
                ) is None) {
                    None
                } else {
                    snap.inherited_of(p2, e2)
                }) by {
                    if p2 != p {
                        assert(self.inline@[p2] == snap.inline@[p2]);
                        assert(self.shared@[p2] == snap.shared@[p2]);
                        assert(self.inherited@[p2] == snap.inherited@[p2]);
                    }
                }
            }
            p = p + 1;
        }
        let ghost after_loop = *self;
        self.ids.remove(e);
        self.classes.remove(e);
        self.pseudo.remove(e);
        self.elements.remove(e as u64);
        self.restyle.remove(e);
        self.text_update.remove(e);
        self.needs_restyle = true;
        self.needs_relayout = true;
        self.needs_redraw = true;
        proof {
            Self::lemma_wf_rules_carry(*old(self), *self);
            assert(self.inline@ == after_loop.inline@);
            assert(self.shared@ == after_loop.shared@);
            assert(self.inherited@ == after_loop.inherited@);
            assert forall|p2: int| self.inline_of(p2, e as int) is None by {
                if 0 <= p2 < n {
                    assert(after_loop.inline_of(p2, e as int) is None);
                }
            }
            assert forall|p2: int| self.shared_of(p2, e as int) is None by {
                if 0 <= p2 < n {
                    assert(after_loop.shared_of(p2, e as int) is None);
                }
            }
            assert forall|p2: int| self.inherited_of(p2, e as int) is None by {
                if 0 <= p2 < n {
                    assert(after_loop.inherited_of(p2, e as int) is None);
                }
            }
            assert forall|p2: int, e2: int|
                e2 != e implies self.inline_of(p2, e2) == old(self).inline_of(p2, e2)
                && self.shared_of(p2, e2) == old(self).shared_of(p2, e2) && self.inherited_of(
                p2,
                e2,
            ) == old(self).inherited_of(p2, e2) by {
                assert(after_loop.inline_of(p2, e2) == old(self).inline_of(p2, e2));
                assert(after_loop.shared_of(p2, e2) == old(self).shared_of(p2, e2));
                assert(after_loop.inherited_of(p2, e2) == old(self).inherited_of(p2, e2));
            }
        }
    }
}

} // verus!
