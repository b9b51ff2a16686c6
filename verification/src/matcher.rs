//! The selector matcher: decides, read-only, whether a selector matches an
//! entity, walking the layout-parent and layout-sibling chains for
//! combinators so that transparent wrapper nodes do not break adjacency.

use vstd::prelude::*;

use crate::elements::element_entries;
use crate::entity::Entity;
use crate::selector::{
    nth_matches, nth_position_matches, Combinator, Compound, PseudoSelector, Selector, StatePseudo,
};
use crate::style::{PseudoState, Style};
use crate::tree::Tree;

verus! {

/// The element kind of an entity, if one was declared.
pub open spec fn spec_element_kind(st: Style, e: Entity) -> Option<Seq<char>> {
    let m = element_entries(st.elements);
    if m.dom().contains(e.index as u64) {
        Some(m[e.index as u64])
    } else {
        None
    }
}

/// Does the entity's declared element kind equal `kind`?
pub open spec fn spec_kind_matches(st: Style, e: Entity, kind: Seq<char>) -> bool {
    spec_element_kind(st, e) == Some(kind)
}

/// Does the entity's id equal `id` (exact, case-sensitive)?
pub open spec fn spec_id_matches(st: Style, e: Entity, id: Seq<char>) -> bool {
    match st.ids.spec_get(e.index as int) {
        Some(s) => s@ == id,
        None => false,
    }
}

/// Is `c` a member of the class list `cs`?
pub open spec fn class_list_has(cs: Seq<String>, c: Seq<char>) -> bool {
    exists|i: int| 0 <= i < cs.len() && (#[trigger] cs[i])@ == c
}

/// Is `c` among the entity's classes?
pub open spec fn spec_has_class(st: Style, e: Entity, c: Seq<char>) -> bool {
    match st.classes.spec_get(e.index as int) {
        Some(cs) => class_list_has(cs@, c),
        None => false,
    }
}

/// The entity's state pseudo-class flags; all clear when never set.
pub open spec fn spec_state_of(st: Style, e: Entity) -> PseudoState {
    match st.pseudo.spec_get(e.index as int) {
        Some(s) => s,
        None => PseudoState::spec_empty(),
    }
}


/// Does a state pseudo-class hold of the entity?
pub open spec fn spec_state_matches(st: Style, e: Entity, s: StatePseudo) -> bool {
    let f = spec_state_of(st, e);
    match s {
        StatePseudo::Hover => f.hover,
        StatePseudo::Over => f.over,
        StatePseudo::Active => f.active,
        StatePseudo::Focus => f.focus,
        StatePseudo::FocusVisible => f.focus_visible,
        StatePseudo::FocusWithin => f.focus_within,
        StatePseudo::Enabled => !f.disabled,
        StatePseudo::Disabled => f.disabled,
        StatePseudo::ReadOnly => f.read_only,
        StatePseudo::ReadWrite => f.read_write,
        StatePseudo::PlaceholderShown => f.placeholder_shown,
        StatePseudo::Neutral => f.neutral,
        StatePseudo::Checked => f.checked,
        StatePseudo::Indeterminate => f.indeterminate,
        StatePseudo::Blank => f.blank,
        StatePseudo::Valid => f.valid,
        StatePseudo::Invalid => f.invalid,
        StatePseudo::InRange => f.in_range,
        StatePseudo::OutOfRange => f.out_of_range,
        StatePseudo::Required => f.required,
        StatePseudo::Optional => f.optional,
        StatePseudo::UserValid => f.user_valid,
        StatePseudo::UserInvalid => f.user_invalid,
    }
}

/// Index of the first occurrence of `x` in `s`, or `s.len()` when absent.
pub open spec fn first_index_of(s: Seq<Entity>, x: Entity) -> int
    decreases s.len(),
{
    if s.len() == 0 {
        0
    } else if s[0] == x {
        0
    } else {
        1 + first_index_of(s.drop_first(), x)
    }
}

/// Basic facts about `first_index_of`.
pub proof fn lemma_first_index(s: Seq<Entity>, x: Entity)
    ensures
        0 <= first_index_of(s, x) <= s.len(),
        first_index_of(s, x) < s.len() ==> s[first_index_of(s, x)] == x,
        forall|j: int| 0 <= j < first_index_of(s, x) ==> s[j] != x,
    decreases s.len(),
{
    if s.len() > 0 && s[0] != x {
        lemma_first_index(s.drop_first(), x);
        assert forall|j: int| 0 <= j < first_index_of(s, x) implies s[j] != x by {
            if j > 0 {
                assert(s.drop_first()[j - 1] == s[j]);
            }
        }
    }
}

/// An occurrence bounds the first index from above.
pub proof fn lemma_first_index_le(s: Seq<Entity>, j: int)
    requires
        0 <= j < s.len(),
    ensures
        first_index_of(s, s[j]) <= j,
    decreases s.len(),
{
    if s[0] != s[j] {
        assert(j != 0);
        assert(s.drop_first()[j - 1] == s[j]);
        lemma_first_index_le(s.drop_first(), j - 1);
    }
}

/// The position of `e` in its layout sibling list (its `first_index_of`
/// there; the list length when `e` is itself transparent for layout).
pub open spec fn spec_layout_pos(t: Tree, e: Entity) -> int {
    first_index_of(t.spec_layout_siblings(e), e)
}

/// Does one pseudo-class selector hold of `e`?  Unsupported pseudo-classes
/// hold of nothing; a validated rule set never contains one.
pub open spec fn spec_pseudo_matches(t: Tree, st: Style, e: Entity, ps: PseudoSelector) -> bool {
    match ps {
        PseudoSelector::Root => t.node_of(e).parent is None,
        PseudoSelector::FirstChild => {
            let s = t.spec_layout_siblings(e);
            s.len() > 0 && s[0] == e
        },
        PseudoSelector::LastChild => {
            let s = t.spec_layout_siblings(e);
            s.len() > 0 && s[s.len() - 1] == e
        },
        PseudoSelector::OnlyChild => {
            let s = t.spec_layout_siblings(e);
            s.len() == 1 && s[0] == e
        },
        PseudoSelector::NthChild(a, b) => {
            let s = t.spec_layout_siblings(e);
            let i = first_index_of(s, e);
            i < s.len() && nth_matches(a as int, b as int, i + 1)
        },
        PseudoSelector::NthLastChild(a, b) => {
            let s = t.spec_layout_siblings(e);
            let i = first_index_of(s, e);
            i < s.len() && nth_matches(a as int, b as int, s.len() - i)
        },
        PseudoSelector::State(k) => spec_state_matches(st, e, k),
        PseudoSelector::Lang(_) => false,
        PseudoSelector::Dir(_) => false,
        PseudoSelector::Custom(_) => false,
    }
}

/// Does one compound selector hold of `e`?
pub open spec fn spec_compound_matches(t: Tree, st: Style, e: Entity, c: Compound) -> bool {
    &&& (c.kind is Some ==> spec_kind_matches(st, e, c.kind->Some_0@))
    &&& (c.id is Some ==> spec_id_matches(st, e, c.id->Some_0@))
    &&& (forall|i: int| 0 <= i < c.classes.len() ==> spec_has_class(st, e, (#[trigger] c.classes@[i])@))
    &&& (forall|i: int| 0 <= i < c.pseudos.len() ==> spec_pseudo_matches(t, st, e, #[trigger] c.pseudos@[i]))
}

/// Does the selector, from its compound part `i` on, hold at `e`?
///
/// Part `i` must hold at `e` itself; the combinator between parts `i` and
/// `i + 1` then picks where part `i + 1` must hold: the layout parent
/// (child), some layout ancestor (descendant), the immediately preceding
/// layout sibling, or any earlier layout sibling.
pub open spec fn spec_matches_from(t: Tree, st: Style, e: Entity, sel: Selector, i: int) -> bool
    decreases t.spec_layout_depth(e), spec_layout_pos(t, e), sel.parts.len() - i, 1int,
        when t.wf() && t.spec_alive(e) && sel.spec_wf() && 0 <= i < sel.parts.len()
        via Self_spec_matches_from_decreases
{
    spec_compound_matches(t, st, e, sel.parts@[i]) && (i == sel.parts.len() - 1 || {
        match sel.combinators@[i] {
            Combinator::Child => match t.spec_layout_parent(e) {
                Some(p) => spec_matches_from(t, st, p, sel, i + 1),
                None => false,
            },
            Combinator::Descendant => spec_matches_ancestor(t, st, e, sel, i + 1),
            Combinator::NextSibling => {
                let s = t.spec_layout_siblings(e);
                let idx = first_index_of(s, e);
                if t.spec_layout_parent(e) is Some && 1 <= idx && idx < s.len() {
                    spec_matches_from(t, st, s[idx - 1], sel, i + 1)
                } else {
                    false
                }
            },
            Combinator::LaterSibling => {
                let s = t.spec_layout_siblings(e);
                let idx = first_index_of(s, e);
                if t.spec_layout_parent(e) is Some && idx < s.len() {
                    spec_matches_before(t, st, e, sel, i + 1, idx)
                } else {
                    false
                }
            },
        }
    })
}

/// Does the selector, from part `i` on, hold at one of the first `n` layout
/// siblings of `e` (scanned from position `n - 1` downwards)?
pub open spec fn spec_matches_before(
    t: Tree,
    st: Style,
    e: Entity,
    sel: Selector,
    i: int,
    n: int,
) -> bool
    decreases t.spec_layout_depth(e), spec_layout_pos(t, e), sel.parts.len() - i, n,
        when t.wf() && t.spec_alive(e) && sel.spec_wf() && 0 <= i < sel.parts.len()
            && t.spec_layout_parent(e) is Some && spec_layout_pos(t, e)
            < t.spec_layout_siblings(e).len() && 0 <= n <= spec_layout_pos(t, e)
        via Self_spec_matches_before_decreases
{
    if n <= 0 {
        false
    } else {
        spec_matches_from(t, st, t.spec_layout_siblings(e)[n - 1], sel, i) || spec_matches_before(
            t,
            st,
            e,
            sel,
            i,
            n - 1,
        )
    }
}

#[via_fn]
proof fn Self_spec_matches_before_decreases(
    t: Tree,
    st: Style,
    e: Entity,
    sel: Selector,
    i: int,
    n: int,
) {
    if t.wf() && t.spec_alive(e) && sel.spec_wf() && 0 <= i < sel.parts.len()
        && t.spec_layout_parent(e) is Some && spec_layout_pos(t, e)
        < t.spec_layout_siblings(e).len() && 0 <= n <= spec_layout_pos(t, e) && n > 0 {
        t.lemma_layout_depth_nonneg(e);
        lemma_first_index(t.spec_layout_siblings(e), e);
        lemma_sibling_step(t, e, n - 1);
    }
}

/// A match among the first `n1` siblings is a match among the first `n2`.
pub proof fn lemma_before_mono(t: Tree, st: Style, e: Entity, sel: Selector, i: int, n1: int, n2: int)
    requires
        t.wf(),
        t.spec_alive(e),
        sel.spec_wf(),
        0 <= i < sel.parts.len(),
        t.spec_layout_parent(e) is Some,
        spec_layout_pos(t, e) < t.spec_layout_siblings(e).len(),
        0 <= n1 <= n2 <= spec_layout_pos(t, e),
        spec_matches_before(t, st, e, sel, i, n1),
    ensures
        spec_matches_before(t, st, e, sel, i, n2),
    decreases n2,
{
    if n1 < n2 {
        lemma_before_mono(t, st, e, sel, i, n1, n2 - 1);
    }
}

/// Does the selector, from part `i` on, hold at some strict layout ancestor
/// of `e`?
pub open spec fn spec_matches_ancestor(t: Tree, st: Style, e: Entity, sel: Selector, i: int) -> bool
    decreases t.spec_layout_depth(e), spec_layout_pos(t, e), sel.parts.len() - i, 0int,
        when t.wf() && t.spec_alive(e) && sel.spec_wf() && 0 <= i < sel.parts.len()
        via Self_spec_matches_ancestor_decreases
{
    match t.spec_layout_parent(e) {
        Some(p) => spec_matches_from(t, st, p, sel, i) || spec_matches_ancestor(t, st, p, sel, i),
        None => false,
    }
}

#[via_fn]
proof fn Self_spec_matches_from_decreases(t: Tree, st: Style, e: Entity, sel: Selector, i: int) {
    if t.wf() && t.spec_alive(e) && sel.spec_wf() && 0 <= i < sel.parts.len() {
        t.lemma_layout_parent(e);
        t.lemma_layout_depth_nonneg(e);
        lemma_first_index(t.spec_layout_siblings(e), e);
        if i < sel.parts.len() - 1 {
            match sel.combinators@[i] {
                Combinator::Child => {
                    match t.spec_layout_parent(e) {
                        Some(p) => {
                            t.lemma_layout_depth_nonneg(p);
                            lemma_first_index(t.spec_layout_siblings(p), p);
                        },
                        None => {},
                    }
                },
                Combinator::Descendant => {},
                Combinator::NextSibling => {
                    let s = t.spec_layout_siblings(e);
                    let idx = first_index_of(s, e);
                    if t.spec_layout_parent(e) is Some && 1 <= idx && idx < s.len() {
                        lemma_sibling_step(t, e, idx - 1);
                    }
                },
                Combinator::LaterSibling => {},
            }
        }
    }
}

#[via_fn]
proof fn Self_spec_matches_ancestor_decreases(t: Tree, st: Style, e: Entity, sel: Selector, i: int) {
    if t.wf() && t.spec_alive(e) && sel.spec_wf() && 0 <= i < sel.parts.len() {
        t.lemma_layout_parent(e);
        t.lemma_layout_depth_nonneg(e);
        lemma_first_index(t.spec_layout_siblings(e), e);
        match t.spec_layout_parent(e) {
            Some(p) => {
                t.lemma_layout_depth_nonneg(p);
                lemma_first_index(t.spec_layout_siblings(p), p);
            },
            None => {},
        }
    }
}

/// An earlier layout sibling is live, sits at the same layout depth, shares
/// the sibling list, and has a strictly smaller position.
pub proof fn lemma_sibling_step(t: Tree, e: Entity, j: int)
    requires
        t.wf(),
        t.spec_alive(e),
        t.spec_layout_parent(e) is Some,
        first_index_of(t.spec_layout_siblings(e), e) < t.spec_layout_siblings(e).len(),
        0 <= j < first_index_of(t.spec_layout_siblings(e), e),
    ensures
        t.spec_alive(t.spec_layout_siblings(e)[j]),
        t.spec_layout_depth(t.spec_layout_siblings(e)[j]) == t.spec_layout_depth(e),
        t.spec_layout_siblings(t.spec_layout_siblings(e)[j]) == t.spec_layout_siblings(e),
        0 <= spec_layout_pos(t, t.spec_layout_siblings(e)[j]) <= j,
        spec_layout_pos(t, e) == first_index_of(t.spec_layout_siblings(e), e),
{
    lemma_first_index(t.spec_layout_siblings(e), t.spec_layout_siblings(e)[j]);
    let p = t.spec_layout_parent(e)->Some_0;
    t.lemma_layout_parent(e);
    let s = t.spec_layout_siblings(e);
    let idx = first_index_of(s, e);
    lemma_first_index(s, e);
    let x = s[j];
    assert(s.contains(x));
    t.lemma_layout_child(p, x);
    // e itself is a layout child of p, so both share p's list.
    assert(s.contains(s[idx]));
    assert(s[idx] == e);
    t.lemma_layout_child(p, e);
    assert(t.spec_layout_depth(x) == 1 + t.spec_layout_depth(p));
    assert(t.spec_layout_depth(e) == 1 + t.spec_layout_depth(p));
    lemma_first_index_le(s, j);
}

/// Compare the entity's element kind with a selector's kind name.
fn kind_matches(st: &Style, e: Entity, kind: &String) -> (r: bool)
    ensures
        r == spec_kind_matches(*st, e, kind@),
{
    match st.elements.get(e.index as u64) {
        Some(k) => k == *kind,
        None => false,
    }
}

/// Compare the entity's id with a selector's id name.
fn id_matches(st: &Style, e: Entity, id: &String) -> (r: bool)
    ensures
        r == spec_id_matches(*st, e, id@),
{
    match st.ids.get(e.index) {
        Some(s) => *s == *id,
        None => false,
    }
}

/// Is `c` among the entity's classes?
pub fn entity_has_class(st: &Style, e: Entity, c: &String) -> (r: bool)
    ensures
        r == spec_has_class(*st, e, c@),
{
    match st.classes.get(e.index) {
        Some(cs) => {
            let mut i: usize = 0;
            while i < cs.len()
                invariant
                    i <= cs.len(),
                    st.classes.spec_get(e.index as int) == Some(*cs),
                    forall|j: int| 0 <= j < i ==> (#[trigger] cs@[j])@ != c@,
                decreases cs.len() - i,
            {
                if cs[i] == *c {
                    return true;
                }
                i = i + 1;
            }
            false
        },
        None => false,
    }
}

/// The entity's state flags.
fn state_of(st: &Style, e: Entity) -> (r: PseudoState)
    ensures
        r == spec_state_of(*st, e),
{
    match st.pseudo.get(e.index) {
        Some(s) => *s,
        None => PseudoState::empty(),
    }
}

/// Does a state pseudo-class hold of the entity?
fn state_matches(st: &Style, e: Entity, s: StatePseudo) -> (r: bool)
    requires
        st.wf(),
    ensures
        r == spec_state_matches(*st, e, s),
{
    let f = state_of(st, e);
    match s {
        StatePseudo::Hover => f.hover,
        StatePseudo::Over => f.over,
        StatePseudo::Active => f.active,
        StatePseudo::Focus => f.focus,
        StatePseudo::FocusVisible => f.focus_visible,
        StatePseudo::FocusWithin => f.focus_within,
        StatePseudo::Enabled => !f.disabled,
        StatePseudo::Disabled => f.disabled,
        StatePseudo::ReadOnly => f.read_only,
        StatePseudo::ReadWrite => f.read_write,
        StatePseudo::PlaceholderShown => f.placeholder_shown,
        StatePseudo::Neutral => f.neutral,
        StatePseudo::Checked => f.checked,
        StatePseudo::Indeterminate => f.indeterminate,
        StatePseudo::Blank => f.blank,
        StatePseudo::Valid => f.valid,
        StatePseudo::Invalid => f.invalid,
        StatePseudo::InRange => f.in_range,
        StatePseudo::OutOfRange => f.out_of_range,
        StatePseudo::Required => f.required,
        StatePseudo::Optional => f.optional,
        StatePseudo::UserValid => f.user_valid,
        StatePseudo::UserInvalid => f.user_invalid,
    }
}

/// Index of the first occurrence of `x` in `s`, or `s.len()` when absent.
fn find_first_index(s: &Vec<Entity>, x: Entity) -> (r: usize)
    ensures
        r as int == first_index_of(s@, x),
{
    proof {
        lemma_first_index(s@, x);
    }
    let mut i: usize = 0;
    while i < s.len()
        invariant
            i <= s.len(),
            forall|j: int| 0 <= j < i ==> s@[j] != x,
        decreases s.len() - i,
    {
        if s[i] == x {
            proof {
                lemma_first_index_between(s@, x, i as int);
            }
            return i;
        }
        i = i + 1;
    }
    proof {
        lemma_first_index_absent(s@, x);
    }
    s.len()
}

/// The first index is the position of the earliest occurrence.
proof fn lemma_first_index_between(s: Seq<Entity>, x: Entity, i: int)
    requires
        0 <= i < s.len(),
        s[i] == x,
        forall|j: int| 0 <= j < i ==> s[j] != x,
    ensures
        first_index_of(s, x) == i,
    decreases i,
{
    if i > 0 {
        assert forall|j: int| 0 <= j < i - 1 implies s.drop_first()[j] != x by {
            assert(s.drop_first()[j] == s[j + 1]);
        }
        assert(s.drop_first()[i - 1] == s[i]);
        lemma_first_index_between(s.drop_first(), x, i - 1);
    }
}

/// When `x` never occurs, the first index is the length.
proof fn lemma_first_index_absent(s: Seq<Entity>, x: Entity)
    requires
        forall|j: int| 0 <= j < s.len() ==> s[j] != x,
    ensures
        first_index_of(s, x) == s.len(),
    decreases s.len(),
{
    if s.len() > 0 {
        assert forall|j: int| 0 <= j < s.drop_first().len() implies s.drop_first()[j] != x by {
            assert(s.drop_first()[j] == s[j + 1]);
        }
        lemma_first_index_absent(s.drop_first(), x);
    }
}

/// Does one pseudo-class selector hold of `e`?
fn pseudo_matches(tree: &Tree, st: &Style, e: Entity, ps: &PseudoSelector) -> (r: bool)
    requires
        tree.wf(),
        tree.spec_alive(e),
        st.wf(),
        ps.spec_supported(),
    ensures
        r == spec_pseudo_matches(*tree, *st, e, *ps),
{
    match ps {
        PseudoSelector::Root => self_parent_is_none(tree, e),
        PseudoSelector::FirstChild => {
            let s = tree.layout_siblings(e);
            s.len() > 0 && s[0] == e
        },
        PseudoSelector::LastChild => {
            let s = tree.layout_siblings(e);
            s.len() > 0 && s[s.len() - 1] == e
        },
        PseudoSelector::OnlyChild => {
            let s = tree.layout_siblings(e);
            s.len() == 1 && s[0] == e
        },
        PseudoSelector::NthChild(a, b) => {
            let s = tree.layout_siblings(e);
            let i = find_first_index(&s, e);
            proof {
                lemma_first_index(s@, e);
            }
            i < s.len() && nth_position_matches(*a, *b, i + 1)
        },
        PseudoSelector::NthLastChild(a, b) => {
            let s = tree.layout_siblings(e);
            let i = find_first_index(&s, e);
            proof {
                lemma_first_index(s@, e);
            }
            i < s.len() && nth_position_matches(*a, *b, s.len() - i)
        },
        PseudoSelector::State(k) => state_matches(st, e, *k),
        PseudoSelector::Lang(_) => false,
        PseudoSelector::Dir(_) => false,
        PseudoSelector::Custom(_) => false,
    }
}

/// Is `e` the tree root (no structural parent)?
fn self_parent_is_none(tree: &Tree, e: Entity) -> (r: bool)
    requires
        tree.wf(),
        tree.spec_alive(e),
    ensures
        r == (tree.node_of(e).parent is None),
{
    match tree.parent(e) {
        Some(_) => false,
        None => true,
    }
}

/// Does one compound selector hold of `e`?
fn compound_matches(tree: &Tree, st: &Style, e: Entity, c: &Compound) -> (r: bool)
    requires
        tree.wf(),
        tree.spec_alive(e),
        st.wf(),
        c.spec_supported(),
    ensures
        r == spec_compound_matches(*tree, *st, e, *c),
{
    match &c.kind {
        Some(k) => {
            if !kind_matches(st, e, k) {
                return false;
            }
        },
        None => {},
    }
    match &c.id {
        Some(id) => {
            if !id_matches(st, e, id) {
                return false;
            }
        },
        None => {},
    }
    let mut i: usize = 0;
    while i < c.classes.len()
        invariant
            i <= c.classes.len(),
            forall|j: int| 0 <= j < i ==> spec_has_class(*st, e, (#[trigger] c.classes@[j])@),
        decreases c.classes.len() - i,
    {
        if !entity_has_class(st, e, &c.classes[i]) {
            return false;
        }
        i = i + 1;
    }
    let mut i: usize = 0;
    while i < c.pseudos.len()
        invariant
            tree.wf(),
            tree.spec_alive(e),
            st.wf(),
            c.spec_supported(),
            i <= c.pseudos.len(),
            forall|j: int| 0 <= j < i ==> spec_pseudo_matches(*tree, *st, e, #[trigger] c.pseudos@[j]),
        decreases c.pseudos.len() - i,
    {
        if !pseudo_matches(tree, st, e, &c.pseudos[i]) {
            return false;
        }
        i = i + 1;
    }
    true
}

/// Does the selector, from part `i` on, hold at `e`?
#[verifier::loop_isolation(false)]
fn match_from(tree: &Tree, st: &Style, e: Entity, sel: &Selector, i: usize) -> (r: bool)
    requires
        tree.wf(),
        tree.spec_alive(e),
        st.wf(),
        sel.spec_wf(),
        sel.spec_supported(),
        i < sel.parts.len(),
    ensures
        r == spec_matches_from(*tree, *st, e, *sel, i as int),
    decreases tree.spec_layout_depth(e), spec_layout_pos(*tree, e), sel.parts.len() - i, 1int,
{
    proof {
        tree.lemma_layout_depth_nonneg(e);
        lemma_first_index(tree.spec_layout_siblings(e), e);
    }
    if !compound_matches(tree, st, e, &sel.parts[i]) {
        return false;
    }
    if i == sel.parts.len() - 1 {
        return true;
    }
    match sel.combinators[i] {
        Combinator::Child => {
            match tree.layout_parent(e) {
                Some(p) => {
                    proof {
                        tree.lemma_layout_parent(e);
                        tree.lemma_layout_depth_nonneg(p);
                        lemma_first_index(tree.spec_layout_siblings(p), p);
                    }
                    match_from(tree, st, p, sel, i + 1)
                },
                None => false,
            }
        },
        Combinator::Descendant => match_ancestor(tree, st, e, sel, i + 1),
        Combinator::NextSibling => {
            if tree.layout_parent(e).is_none() {
                return false;
            }
            let s = tree.layout_siblings(e);
            let idx = find_first_index(&s, e);
            if idx < s.len() && idx >= 1 {
                proof {
                    lemma_sibling_step(*tree, e, idx - 1 as int);
                }
                match_from(tree, st, s[idx - 1], sel, i + 1)
            } else {
                false
            }
        },
        Combinator::LaterSibling => {
            if tree.layout_parent(e).is_none() {
                return false;
            }
            let s = tree.layout_siblings(e);
            let idx = find_first_index(&s, e);
            if idx < s.len() {
                match_earlier_sibling(tree, st, e, sel, i + 1)
            } else {
                false
            }
        },
    }
}

/// Does the selector, from part `i` on, hold at any earlier layout sibling
/// of `e`?
#[verifier::loop_isolation(false)]
fn match_earlier_sibling(tree: &Tree, st: &Style, e: Entity, sel: &Selector, i: usize) -> (r:
    bool)
    requires
        tree.wf(),
        tree.spec_alive(e),
        st.wf(),
        sel.spec_wf(),
        sel.spec_supported(),
        i < sel.parts.len(),
        tree.spec_layout_parent(e) is Some,
        spec_layout_pos(*tree, e) < tree.spec_layout_siblings(e).len(),
    ensures
        r == spec_matches_before(*tree, *st, e, *sel, i as int, spec_layout_pos(*tree, e)),
    decreases tree.spec_layout_depth(e), spec_layout_pos(*tree, e), sel.parts.len() - i, 0int,
{
    proof {
        tree.lemma_layout_depth_nonneg(e);
        lemma_first_index(tree.spec_layout_siblings(e), e);
    }
    let s = tree.layout_siblings(e);
    let idx = find_first_index(&s, e);
    let mut j: usize = 0;
    while j < idx
        invariant
            j <= idx,
            !spec_matches_before(*tree, *st, e, *sel, i as int, j as int),
        decreases idx - j,
    {
        proof {
            lemma_sibling_step(*tree, e, j as int);
            assert(s@[j as int] == tree.spec_layout_siblings(e)[j as int]);
        }
        if match_from(tree, st, s[j], sel, i) {
            proof {
                assert(spec_matches_before(*tree, *st, e, *sel, i as int, j + 1));
                lemma_before_mono(*tree, *st, e, *sel, i as int, j + 1, idx as int);
            }
            return true;
        }
        j = j + 1;
    }
    false
}

/// Does the selector, from part `i` on, hold at some strict layout ancestor
/// of `e`?
fn match_ancestor(tree: &Tree, st: &Style, e: Entity, sel: &Selector, i: usize) -> (r: bool)
    requires
        tree.wf(),
        tree.spec_alive(e),
        st.wf(),
        sel.spec_wf(),
        sel.spec_supported(),
        i < sel.parts.len(),
    ensures
        r == spec_matches_ancestor(*tree, *st, e, *sel, i as int),
    decreases tree.spec_layout_depth(e), spec_layout_pos(*tree, e), sel.parts.len() - i, 0int,
{
    proof {
        tree.lemma_layout_depth_nonneg(e);
        lemma_first_index(tree.spec_layout_siblings(e), e);
    }
    match tree.layout_parent(e) {
        None => false,
        Some(p) => {
            proof {
                tree.lemma_layout_parent(e);
                tree.lemma_layout_depth_nonneg(p);
                lemma_first_index(tree.spec_layout_siblings(p), p);
            }
            if match_from(tree, st, p, sel, i) {
                true
            } else {
                match_ancestor(tree, st, p, sel, i)
            }
        },
    }
}

/// Does the whole selector match `e`?
pub open spec fn spec_selector_matches(t: Tree, st: Style, e: Entity, sel: Selector) -> bool {
    spec_matches_from(t, st, e, sel, 0)
}

/// Does the selector match the entity?  Pure and read-only: matching never
/// mutates any store.
pub fn matches(e: Entity, sel: &Selector, tree: &Tree, st: &Style) -> (r: bool)
    requires
        tree.wf(),
        tree.spec_alive(e),
        st.wf(),
        sel.spec_wf(),
        sel.spec_supported(),
    ensures
        r == spec_selector_matches(*tree, *st, e, *sel),
{
    match_from(tree, st, e, sel, 0)
}

/// Like [`matches`], but checks the selector first and fails loudly on one
/// that uses an unimplemented feature, instead of matching wrongly in
/// silence.
pub fn try_matches(e: Entity, sel: &Selector, tree: &Tree, st: &Style) -> (r: Result<
    bool,
    crate::style::StyleError,
>)
    requires
        tree.wf(),
        tree.spec_alive(e),
        st.wf(),
    ensures
        sel.spec_wf() && sel.spec_supported() ==> r == Result::<
            bool,
            crate::style::StyleError,
        >::Ok(spec_selector_matches(*tree, *st, e, *sel)),
        r is Err <==> !(sel.spec_wf() && sel.spec_supported()),
{
    if !sel.wf() {
        return Err(crate::style::StyleError::MalformedSelector { rule: 0, selector: 0 });
    }
    if !sel.supported() {
        return Err(crate::style::StyleError::UnsupportedSelector { rule: 0, selector: 0 });
    }
    Ok(match_from(tree, st, e, sel, 0))
}

} // verus!
