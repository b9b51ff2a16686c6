//! The restyle systems: rule matching with its per-pass sibling cache,
//! cascade linking, the two inheritance passes, and the driver that runs a
//! whole restyle pass.

use vstd::prelude::*;

use crate::entity::Entity;
use crate::matcher;
use crate::matcher::{spec_element_kind, spec_has_class, spec_selector_matches, spec_state_of};
use crate::selector::Selector;
use crate::style::{Style, StyleRule};
use crate::tree::Tree;

verus! {

/// One entry of a matched-rule list: the index of a matching rule and the
/// specificity of its first matching selector.
#[derive(Clone, Copy, PartialEq, Eq, Structural, Debug)]
pub struct MatchedRule {
    /// Index of the rule in the rule set.
    pub rule: usize,
    /// Specificity of the selector that matched.
    pub specificity: u32,
}

/// Cascade ordering: higher specificity first; among equal specificities the
/// later-declared rule wins.
pub open spec fn spec_mr_gt(a: MatchedRule, b: MatchedRule) -> bool {
    a.specificity > b.specificity || (a.specificity == b.specificity && a.rule > b.rule)
}

/// Cascade ordering, computed.
pub fn mr_gt(a: MatchedRule, b: MatchedRule) -> (r: bool)
    ensures
        r == spec_mr_gt(a, b),
{
    a.specificity > b.specificity || (a.specificity == b.specificity && a.rule > b.rule)
}

/// The specificity of the first selector in the list that matches `e`, if
/// any selector does.
pub open spec fn spec_first_match(t: Tree, st: Style, e: Entity, sels: Seq<Selector>) -> Option<
    u32,
>
    decreases sels.len(),
{
    if sels.len() == 0 {
        None
    } else if spec_selector_matches(t, st, e, sels[0]) {
        Some(sels[0].specificity)
    } else {
        spec_first_match(t, st, e, sels.drop_first())
    }
}

/// Skipping non-matching selectors does not change the first match.
pub proof fn lemma_first_match_skip(t: Tree, st: Style, e: Entity, sels: Seq<Selector>, j: int)
    requires
        0 <= j <= sels.len(),
        forall|k: int| 0 <= k < j ==> !spec_selector_matches(t, st, e, #[trigger] sels[k]),
    ensures
        spec_first_match(t, st, e, sels) == spec_first_match(t, st, e, sels.skip(j)),
    decreases j,
{
    if j == 0 {
        assert(sels.skip(0) =~= sels);
    } else {
        assert forall|k: int|
            0 <= k < j - 1 implies !spec_selector_matches(t, st, e, #[trigger] sels[k]) by {}
        lemma_first_match_skip(t, st, e, sels, j - 1);
        assert(sels.skip(j - 1).len() > 0);
        assert(sels.skip(j - 1)[0] == sels[j - 1]);
        assert(sels.skip(j - 1).drop_first() =~= sels.skip(j));
        assert(spec_first_match(t, st, e, sels.skip(j - 1)) == spec_first_match(
            t,
            st,
            e,
            sels.skip(j),
        ));
    }
}

/// Insert an entry into a list sorted by descending cascade order.
pub open spec fn spec_insert_desc(m: MatchedRule, s: Seq<MatchedRule>) -> Seq<MatchedRule>
    decreases s.len(),
{
    if s.len() == 0 {
        seq![m]
    } else if spec_mr_gt(m, s[0]) {
        seq![m] + s
    } else {
        seq![s[0]] + spec_insert_desc(m, s.drop_first())
    }
}

/// `spec_insert_desc` places the entry at the first position whose occupant
/// it outranks.
pub proof fn lemma_insert_desc_at(m: MatchedRule, s: Seq<MatchedRule>, pos: int)
    requires
        0 <= pos <= s.len(),
        forall|k: int| 0 <= k < pos ==> !spec_mr_gt(m, #[trigger] s[k]),
        pos < s.len() ==> spec_mr_gt(m, s[pos]),
    ensures
        spec_insert_desc(m, s) == s.subrange(0, pos) + seq![m] + s.subrange(pos, s.len() as int),
    decreases s.len(),
{
    if s.len() == 0 {
        assert(spec_insert_desc(m, s) =~= s.subrange(0, pos) + seq![m] + s.subrange(
            pos,
            s.len() as int,
        ));
    } else if spec_mr_gt(m, s[0]) {
        assert(pos == 0);
        assert(spec_insert_desc(m, s) =~= s.subrange(0, pos) + seq![m] + s.subrange(
            pos,
            s.len() as int,
        ));
    } else {
        assert(pos > 0);
        assert forall|k: int|
            0 <= k < pos - 1 implies !spec_mr_gt(m, #[trigger] s.drop_first()[k]) by {
            assert(s.drop_first()[k] == s[k + 1]);
        }
        assert(pos - 1 < s.drop_first().len() ==> spec_mr_gt(m, s.drop_first()[pos - 1]));
        lemma_insert_desc_at(m, s.drop_first(), pos - 1);
        assert(spec_insert_desc(m, s) =~= s.subrange(0, pos) + seq![m] + s.subrange(
            pos,
            s.len() as int,
        ));
    }
}

/// The matched-rule list for `e` over the first `n` rules of the rule set:
/// every rule with a matching selector, carrying its first matching
/// selector's specificity, sorted by descending specificity with later
/// declaration order breaking ties.
pub open spec fn spec_matched_upto(t: Tree, st: Style, e: Entity, rules: Seq<StyleRule>, n: int) -> Seq<
    MatchedRule,
>
    decreases n,
{
    if n <= 0 || n > rules.len() {
        Seq::empty()
    } else {
        let prev = spec_matched_upto(t, st, e, rules, n - 1);
        match spec_first_match(t, st, e, rules[n - 1].selectors@) {
            Some(sp) => spec_insert_desc(
                MatchedRule { rule: (n - 1) as usize, specificity: sp },
                prev,
            ),
            None => prev,
        }
    }
}

/// The matched-rule list for `e` under the current rule set.
pub open spec fn spec_matched_rules(t: Tree, st: Style, e: Entity) -> Seq<MatchedRule> {
    spec_matched_upto(t, st, e, st.rules@, st.rules@.len() as int)
}

/// Compute the matched-rule list for `e`: every rule one of whose selectors
/// matches, sorted by specificity descending, equal specificities resolved
/// in favour of the later-declared rule.
#[verifier::loop_isolation(false)]
pub fn compute_matched_rules(e: Entity, tree: &Tree, style: &Style) -> (r: Vec<MatchedRule>)
    requires
        tree.wf(),
        style.wf(),
        tree.spec_alive(e),
    ensures
        r@ == spec_matched_rules(*tree, *style, e),
{
    let mut out: Vec<MatchedRule> = Vec::new();
    let mut i: usize = 0;
    while i < style.rules.len()
        invariant
            i <= style.rules.len(),
            out@ == spec_matched_upto(*tree, *style, e, style.rules@, i as int),
        decreases style.rules.len() - i,
    {
        let rule = &style.rules[i];
        proof {
            assert(style.rules@[i as int].spec_supported());
        }
        let mut matched: Option<u32> = None;
        let mut j: usize = 0;
        while j < rule.selectors.len()
            invariant
                rule == &style.rules@[i as int],
                i < style.rules.len(),
                j <= rule.selectors.len(),
                matched is None,
                forall|k: int|
                    0 <= k < j ==> !spec_selector_matches(
                        *tree,
                        *style,
                        e,
                        #[trigger] rule.selectors@[k],
                    ),
            decreases rule.selectors.len() - j,
        {
            if matcher::matches(e, &rule.selectors[j], tree, style) {
                matched = Some(rule.selectors[j].specificity);
                proof {
                    lemma_first_match_skip(*tree, *style, e, rule.selectors@, j as int);
                    assert(rule.selectors@.skip(j as int)[0] == rule.selectors@[j as int]);
                    assert(spec_first_match(*tree, *style, e, rule.selectors@) == Some(
                        rule.selectors@[j as int].specificity,
                    ));
                }
                break ;
            }
            j = j + 1;
        }
        proof {
            if matched is None {
                lemma_first_match_skip(
                    *tree,
                    *style,
                    e,
                    rule.selectors@,
                    rule.selectors@.len() as int,
                );
                assert(rule.selectors@.skip(rule.selectors@.len() as int).len() == 0);
                assert(spec_first_match(*tree, *style, e, rule.selectors@) is None);
            }
        }
        match matched {
            Some(sp) => {
                let m = MatchedRule { rule: i, specificity: sp };
                let mut pos: usize = 0;
                while pos < out.len() && !mr_gt(m, out[pos])
                    invariant
                        pos <= out.len(),
                        forall|k: int| 0 <= k < pos ==> !spec_mr_gt(m, #[trigger] out@[k]),
                    decreases out.len() - pos,
                {
                    pos = pos + 1;
                }
                proof {
                    lemma_insert_desc_at(m, out@, pos as int);
                }
                out.insert(pos, m);
                proof {
                    assert(out@ =~= spec_insert_desc(
                        m,
                        spec_matched_upto(*tree, *style, e, style.rules@, i as int),
                    ));
                }
            },
            None => {},
        }
        i = i + 1;
    }
    out
}

/// Would `e1` and `e2` match exactly the same selectors, as far as their own
/// state decides it?  True when they declare the same element kind, the same
/// id, equal class sets (a two-way subset check), and the same pseudo-class
/// flags.
pub open spec fn spec_same_selector_state(st: Style, e1: Entity, e2: Entity) -> bool {
    &&& spec_element_kind(st, e1) == spec_element_kind(st, e2)
    &&& spec_id_view(st, e1) == spec_id_view(st, e2)
    &&& (forall|c: Seq<char>| spec_has_class(st, e1, c) == spec_has_class(st, e2, c))
    &&& spec_state_of(st, e1) == spec_state_of(st, e2)
}

/// The entity's id as a character sequence, if one is set.
pub open spec fn spec_id_view(st: Style, e: Entity) -> Option<Seq<char>> {
    match st.ids.spec_get(e.index as int) {
        Some(s) => Some(s@),
        None => None,
    }
}

/// Does every class in `cs` hold of `e`?
fn classes_subset(st: &Style, e: Entity, cs: &Vec<String>) -> (r: bool)
    ensures
        r == (forall|k: int| 0 <= k < cs.len() ==> spec_has_class(*st, e, (#[trigger] cs@[k])@)),
{
    let mut k: usize = 0;
    while k < cs.len()
        invariant
            k <= cs.len(),
            forall|k2: int| 0 <= k2 < k ==> spec_has_class(*st, e, (#[trigger] cs@[k2])@),
        decreases cs.len() - k,
    {
        if !matcher::entity_has_class(st, e, &cs[k]) {
            return false;
        }
        k = k + 1;
    }
    true
}

/// Do `e1` and `e2` carry exactly the same selector-relevant state: element
/// kind, id, class set (two-way subset), and pseudo-class flags?
pub fn has_same_selector(e1: Entity, e2: Entity, style: &Style) -> (r: bool)
    ensures
        r == spec_same_selector_state(*style, e1, e2),
{
    let k1 = style.elements.get(e1.index as u64);
    let k2 = style.elements.get(e2.index as u64);
    let kinds_equal = match (k1, k2) {
        (Some(a), Some(b)) => a == b,
        (None, None) => true,
        _ => false,
    };
    if !kinds_equal {
        return false;
    }
    let ids_equal = match (style.ids.get(e1.index), style.ids.get(e2.index)) {
        (Some(a), Some(b)) => *a == *b,
        (None, None) => true,
        _ => false,
    };
    if !ids_equal {
        return false;
    }
    let empty_classes: Vec<String> = Vec::new();
    let cs1 = match style.classes.get(e1.index) {
        Some(cs) => cs,
        None => &empty_classes,
    };
    let cs2 = match style.classes.get(e2.index) {
        Some(cs) => cs,
        None => &empty_classes,
    };
    if !classes_subset(style, e2, cs1) || !classes_subset(style, e1, cs2) {
        proof {
            lemma_subset_not_same(*style, e1, e2, cs1@, cs2@);
        }
        return false;
    }
    proof {
        assert forall|c: Seq<char>|
            spec_has_class(*style, e1, c) == spec_has_class(*style, e2, c) by {
            lemma_class_member(*style, e1, cs1@, c);
            lemma_class_member(*style, e2, cs2@, c);
        }
    }
    let s1 = match style.pseudo.get(e1.index) {
        Some(s) => *s,
        None => crate::style::PseudoState::empty(),
    };
    let s2 = match style.pseudo.get(e2.index) {
        Some(s) => *s,
        None => crate::style::PseudoState::empty(),
    };
    s1 == s2
}

/// A class holds of `e` exactly when it occurs in `e`'s class list.
proof fn lemma_class_member(st: Style, e: Entity, cs: Seq<String>, c: Seq<char>)
    requires
        match st.classes.spec_get(e.index as int) {
            Some(l) => l@ == cs,
            None => cs.len() == 0,
        },
    ensures
        spec_has_class(st, e, c) == matcher::class_list_has(cs, c),
{
}

/// If one entity has a class the other lacks, their class sets differ.
proof fn lemma_subset_not_same(st: Style, e1: Entity, e2: Entity, cs1: Seq<String>, cs2: Seq<String>)
    requires
        match st.classes.spec_get(e1.index as int) {
            Some(l) => l@ == cs1,
            None => cs1.len() == 0,
        },
        match st.classes.spec_get(e2.index as int) {
            Some(l) => l@ == cs2,
            None => cs2.len() == 0,
        },
        !((forall|k: int| 0 <= k < cs1.len() ==> spec_has_class(st, e2, (#[trigger] cs1[k])@))
            && (forall|k: int|
            0 <= k < cs2.len() ==> spec_has_class(st, e1, (#[trigger] cs2[k])@))),
    ensures
        !(forall|c: Seq<char>| spec_has_class(st, e1, c) == spec_has_class(st, e2, c)),
{
    if !(forall|k: int| 0 <= k < cs1.len() ==> spec_has_class(st, e2, (#[trigger] cs1[k])@)) {
        let k = choose|k: int|
            !(0 <= k < cs1.len() ==> spec_has_class(st, e2, (#[trigger] cs1[k])@));
        assert(spec_has_class(st, e1, cs1[k]@)) by {
            assert(matcher::class_list_has(cs1, cs1[k]@));
        }
        assert(spec_has_class(st, e1, cs1[k]@) != spec_has_class(st, e2, cs1[k]@));
    } else {
        let k = choose|k: int|
            !(0 <= k < cs2.len() ==> spec_has_class(st, e1, (#[trigger] cs2[k])@));
        assert(spec_has_class(st, e2, cs2[k]@)) by {
            assert(matcher::class_list_has(cs2, cs2[k]@));
        }
        assert(spec_has_class(st, e1, cs2[k]@) != spec_has_class(st, e2, cs2[k]@));
    }
}

/// Cache correctness.  Two live siblings under the same layout parent that
/// carry the same element kind, the same id, equal class sets and the same
/// pseudo-class flags receive the same matched-rule list whenever no rule of
/// the rule set reads sibling positions.
pub proof fn lemma_cache_equivalence(t: Tree, st: Style, e1: Entity, e2: Entity)
    requires
        t.wf(),
        st.wf(),
        t.spec_alive(e1),
        t.spec_alive(e2),
        t.spec_layout_parent(e1) is Some,
        t.spec_layout_parent(e1) == t.spec_layout_parent(e2),
        spec_same_selector_state(st, e1, e2),
        st.rules_position_independent,
    ensures
        spec_matched_rules(t, st, e1) == spec_matched_rules(t, st, e2),
{
    lemma_matched_upto_same(t, st, e1, e2, st.rules@, st.rules@.len() as int);
}

/// Do two style states agree on everything the matcher reads: ids, classes,
/// pseudo-class flags, element kinds, and the rule set?
pub open spec fn spec_matching_state_eq(st1: Style, st2: Style) -> bool {
    &&& st1.ids == st2.ids
    &&& st1.classes == st2.classes
    &&& st1.pseudo == st2.pseudo
    &&& st1.elements == st2.elements
    &&& st1.rules@ == st2.rules@
}

/// Matching is blind to the value tiers: states that agree on the matcher's
/// inputs produce the same compound verdicts.
proof fn lemma_compound_agnostic(t: Tree, st1: Style, st2: Style, e: Entity, c: crate::selector::Compound)
    requires
        spec_matching_state_eq(st1, st2),
    ensures
        matcher::spec_compound_matches(t, st1, e, c) == matcher::spec_compound_matches(t, st2, e, c),
{
    assert forall|i: int|
        0 <= i < c.pseudos.len() implies matcher::spec_pseudo_matches(
        t,
        st1,
        e,
        #[trigger] c.pseudos@[i],
    ) == matcher::spec_pseudo_matches(t, st2, e, c.pseudos@[i]) by {}
}

/// Matching is blind to the value tiers, lifted over whole selectors.
proof fn lemma_from_agnostic(t: Tree, st1: Style, st2: Style, e: Entity, sel: Selector, i: int)
    requires
        t.wf(),
        t.spec_alive(e),
        sel.spec_wf(),
        0 <= i < sel.parts.len(),
        spec_matching_state_eq(st1, st2),
    ensures
        matcher::spec_matches_from(t, st1, e, sel, i) == matcher::spec_matches_from(
            t,
            st2,
            e,
            sel,
            i,
        ),
    decreases t.spec_layout_depth(e), matcher::spec_layout_pos(t, e), sel.parts.len() - i, 1int,
{
    t.lemma_layout_depth_nonneg(e);
    matcher::lemma_first_index(t.spec_layout_siblings(e), e);
    lemma_compound_agnostic(t, st1, st2, e, sel.parts@[i]);
    if i < sel.parts.len() - 1 {
        match sel.combinators@[i] {
            crate::selector::Combinator::Child => {
                match t.spec_layout_parent(e) {
                    Some(p) => {
                        t.lemma_layout_parent(e);
                        t.lemma_layout_depth_nonneg(p);
                        matcher::lemma_first_index(t.spec_layout_siblings(p), p);
                        lemma_from_agnostic(t, st1, st2, p, sel, i + 1);
                    },
                    None => {},
                }
            },
            crate::selector::Combinator::Descendant => {
                lemma_ancestor_agnostic(t, st1, st2, e, sel, i + 1);
            },
            crate::selector::Combinator::NextSibling => {
                let s = t.spec_layout_siblings(e);
                let idx = matcher::first_index_of(s, e);
                if t.spec_layout_parent(e) is Some && 1 <= idx && idx < s.len() {
                    matcher::lemma_sibling_step(t, e, idx - 1);
                    lemma_from_agnostic(t, st1, st2, s[idx - 1], sel, i + 1);
                }
            },
            crate::selector::Combinator::LaterSibling => {
                let s = t.spec_layout_siblings(e);
                let idx = matcher::first_index_of(s, e);
                if t.spec_layout_parent(e) is Some && idx < s.len() {
                    lemma_before_agnostic(t, st1, st2, e, sel, i + 1, idx);
                }
            },
        }
    }
}

/// Matching is blind to the value tiers, over the ancestor walk.
proof fn lemma_ancestor_agnostic(t: Tree, st1: Style, st2: Style, e: Entity, sel: Selector, i: int)
    requires
        t.wf(),
        t.spec_alive(e),
        sel.spec_wf(),
        0 <= i < sel.parts.len(),
        spec_matching_state_eq(st1, st2),
    ensures
        matcher::spec_matches_ancestor(t, st1, e, sel, i) == matcher::spec_matches_ancestor(
            t,
            st2,
            e,
            sel,
            i,
        ),
    decreases t.spec_layout_depth(e), matcher::spec_layout_pos(t, e), sel.parts.len() - i, 0int,
{
    t.lemma_layout_depth_nonneg(e);
    matcher::lemma_first_index(t.spec_layout_siblings(e), e);
    match t.spec_layout_parent(e) {
        Some(p) => {
            t.lemma_layout_parent(e);
            t.lemma_layout_depth_nonneg(p);
            matcher::lemma_first_index(t.spec_layout_siblings(p), p);
            lemma_from_agnostic(t, st1, st2, p, sel, i);
            lemma_ancestor_agnostic(t, st1, st2, p, sel, i);
        },
        None => {},
    }
}

/// Matching is blind to the value tiers, over the earlier-sibling scan.
proof fn lemma_before_agnostic(
    t: Tree,
    st1: Style,
    st2: Style,
    e: Entity,
    sel: Selector,
    i: int,
    n: int,
)
    requires
        t.wf(),
        t.spec_alive(e),
        sel.spec_wf(),
        0 <= i < sel.parts.len(),
        spec_matching_state_eq(st1, st2),
        t.spec_layout_parent(e) is Some,
        matcher::spec_layout_pos(t, e) < t.spec_layout_siblings(e).len(),
        0 <= n <= matcher::spec_layout_pos(t, e),
    ensures
        matcher::spec_matches_before(t, st1, e, sel, i, n) == matcher::spec_matches_before(
            t,
            st2,
            e,
            sel,
            i,
            n,
        ),
    decreases t.spec_layout_depth(e), matcher::spec_layout_pos(t, e), sel.parts.len() - i, n,
{
    t.lemma_layout_depth_nonneg(e);
    matcher::lemma_first_index(t.spec_layout_siblings(e), e);
    if n > 0 {
        matcher::lemma_sibling_step(t, e, n - 1);
        lemma_from_agnostic(t, st1, st2, t.spec_layout_siblings(e)[n - 1], sel, i);
        lemma_before_agnostic(t, st1, st2, e, sel, i, n - 1);
    }
}

/// Matched-rule lists are blind to the value tiers.
pub proof fn lemma_matched_rules_agnostic(t: Tree, st1: Style, st2: Style, e: Entity)
    requires
        t.wf(),
        st1.wf(),
        t.spec_alive(e),
        spec_matching_state_eq(st1, st2),
    ensures
        spec_matched_rules(t, st1, e) == spec_matched_rules(t, st2, e),
{
    lemma_matched_upto_agnostic(t, st1, st2, e, st1.rules@, st1.rules@.len() as int);
}

/// Matched-rule prefixes are blind to the value tiers.
proof fn lemma_matched_upto_agnostic(
    t: Tree,
    st1: Style,
    st2: Style,
    e: Entity,
    rules: Seq<StyleRule>,
    n: int,
)
    requires
        t.wf(),
        t.spec_alive(e),
        spec_matching_state_eq(st1, st2),
        n <= rules.len(),
        forall|k: int| 0 <= k < n ==> (#[trigger] rules[k]).spec_supported(),
    ensures
        spec_matched_upto(t, st1, e, rules, n) == spec_matched_upto(t, st2, e, rules, n),
    decreases n,
{
    if n > 0 {
        lemma_matched_upto_agnostic(t, st1, st2, e, rules, n - 1);
        lemma_first_match_agnostic(t, st1, st2, e, rules[n - 1].selectors@);
    }
}

/// The first matching selector is blind to the value tiers.
proof fn lemma_first_match_agnostic(
    t: Tree,
    st1: Style,
    st2: Style,
    e: Entity,
    sels: Seq<Selector>,
)
    requires
        t.wf(),
        t.spec_alive(e),
        spec_matching_state_eq(st1, st2),
        forall|k: int| 0 <= k < sels.len() ==> (#[trigger] sels[k]).spec_wf(),
    ensures
        spec_first_match(t, st1, e, sels) == spec_first_match(t, st2, e, sels),
    decreases sels.len(),
{
    if sels.len() > 0 {
        lemma_from_agnostic(t, st1, st2, e, sels[0], 0);
        assert forall|k: int|
            0 <= k < sels.drop_first().len() implies (#[trigger] sels.drop_first()[k]).spec_wf() by {
            assert(sels.drop_first()[k] == sels[k + 1]);
        }
        lemma_first_match_agnostic(t, st1, st2, e, sels.drop_first());
    }
}

/// The value the cascade links for property `p` from a matched-rule list:
/// the declaration of the first (highest-ranked) rule in the list that
/// declares `p`.
pub open spec fn spec_winning(matched: Seq<MatchedRule>, rules: Seq<StyleRule>, p: int) -> Option<
    u64,
>
    decreases matched.len(),
{
    if matched.len() == 0 {
        None
    } else if 0 <= matched[0].rule < rules.len() && rules[matched[0].rule as int].spec_declared(p)
        is Some {
        rules[matched[0].rule as int].spec_declared(p)
    } else {
        spec_winning(matched.drop_first(), rules, p)
    }
}

/// Every entry of a matched-rule prefix names a rule inside the prefix.
pub proof fn lemma_matched_upto_bounds(t: Tree, st: Style, e: Entity, rules: Seq<StyleRule>, n: int)
    requires
        0 <= n <= rules.len(),
    ensures
        forall|k: int|
            0 <= k < spec_matched_upto(t, st, e, rules, n).len() ==> (#[trigger] spec_matched_upto(
                t,
                st,
                e,
                rules,
                n,
            )[k]).rule < n,
    decreases n,
{
    if n > 0 {
        lemma_matched_upto_bounds(t, st, e, rules, n - 1);
        match spec_first_match(t, st, e, rules[n - 1].selectors@) {
            Some(sp) => {
                lemma_insert_desc_member(
                    MatchedRule { rule: (n - 1) as usize, specificity: sp },
                    spec_matched_upto(t, st, e, rules, n - 1),
                );
            },
            None => {},
        }
    }
}

/// Every entry of an insertion result is the inserted entry or one of the
/// originals.
pub proof fn lemma_insert_desc_member(m: MatchedRule, s: Seq<MatchedRule>)
    ensures
        forall|k: int|
            0 <= k < spec_insert_desc(m, s).len() ==> (#[trigger] spec_insert_desc(m, s)[k]) == m
                || s.contains(spec_insert_desc(m, s)[k]),
    decreases s.len(),
{
    if s.len() > 0 && !spec_mr_gt(m, s[0]) {
        lemma_insert_desc_member(m, s.drop_first());
        assert forall|k: int|
            0 <= k < spec_insert_desc(m, s).len() implies (#[trigger] spec_insert_desc(m, s)[k])
            == m || s.contains(spec_insert_desc(m, s)[k]) by {
            if k == 0 {
                assert(s.contains(s[0]));
            } else {
                let inner = spec_insert_desc(m, s.drop_first());
                assert(spec_insert_desc(m, s)[k] == inner[k - 1]);
                if inner[k - 1] != m {
                    let k2 = choose|k2: int|
                        0 <= k2 < s.drop_first().len() && s.drop_first()[k2] == inner[k - 1];
                    assert(s[k2 + 1] == inner[k - 1]);
                }
            }
        }
    }
}

/// The matched lists over a rule-set prefix agree for look-alike siblings.
proof fn lemma_matched_upto_same(
    t: Tree,
    st: Style,
    e1: Entity,
    e2: Entity,
    rules: Seq<StyleRule>,
    n: int,
)
    requires
        t.wf(),
        st.wf(),
        t.spec_alive(e1),
        t.spec_alive(e2),
        t.spec_layout_parent(e1) is Some,
        t.spec_layout_parent(e1) == t.spec_layout_parent(e2),
        spec_same_selector_state(st, e1, e2),
        n <= rules.len(),
        forall|k: int|
            0 <= k < n ==> (#[trigger] rules[k]).spec_supported()
                && rules[k].spec_position_independent(),
    ensures
        spec_matched_upto(t, st, e1, rules, n) == spec_matched_upto(t, st, e2, rules, n),
    decreases n,
{
    if n > 0 {
        lemma_matched_upto_same(t, st, e1, e2, rules, n - 1);
        lemma_first_match_same(t, st, e1, e2, rules[n - 1].selectors@);
    }
}

/// The first matching selector agrees for look-alike siblings.
proof fn lemma_first_match_same(t: Tree, st: Style, e1: Entity, e2: Entity, sels: Seq<Selector>)
    requires
        t.wf(),
        st.wf(),
        t.spec_alive(e1),
        t.spec_alive(e2),
        t.spec_layout_parent(e1) is Some,
        t.spec_layout_parent(e1) == t.spec_layout_parent(e2),
        spec_same_selector_state(st, e1, e2),
        forall|k: int|
            0 <= k < sels.len() ==> (#[trigger] sels[k]).spec_wf() && sels[k].spec_supported()
                && sels[k].spec_positional_free() && sels[k].spec_sibling_free(),
    ensures
        spec_first_match(t, st, e1, sels) == spec_first_match(t, st, e2, sels),
    decreases sels.len(),
{
    if sels.len() > 0 {
        lemma_selector_matches_same(t, st, e1, e2, sels[0]);
        assert forall|k: int|
            0 <= k < sels.drop_first().len() implies (#[trigger] sels.drop_first()[k]).spec_wf()
            && sels.drop_first()[k].spec_supported() && sels.drop_first()[k].spec_positional_free()
            && sels.drop_first()[k].spec_sibling_free() by {
            assert(sels.drop_first()[k] == sels[k + 1]);
        }
        lemma_first_match_same(t, st, e1, e2, sels.drop_first());
    }
}

/// A position-independent selector matches look-alike siblings alike.
proof fn lemma_selector_matches_same(t: Tree, st: Style, e1: Entity, e2: Entity, sel: Selector)
    requires
        t.wf(),
        st.wf(),
        t.spec_alive(e1),
        t.spec_alive(e2),
        t.spec_layout_parent(e1) is Some,
        t.spec_layout_parent(e1) == t.spec_layout_parent(e2),
        spec_same_selector_state(st, e1, e2),
        sel.spec_wf(),
        sel.spec_supported(),
        sel.spec_positional_free(),
        sel.spec_sibling_free(),
    ensures
        spec_selector_matches(t, st, e1, sel) == spec_selector_matches(t, st, e2, sel),
{
    lemma_compound_matches_same(t, st, e1, e2, sel.parts@[0]);
    if sel.parts.len() > 1 {
        match sel.combinators@[0] {
            crate::selector::Combinator::Child => {},
            crate::selector::Combinator::Descendant => {
                let p = t.spec_layout_parent(e1)->Some_0;
                t.lemma_layout_parent(e1);
                t.lemma_layout_parent(e2);
                assert(matcher::spec_matches_ancestor(t, st, e1, sel, 1)
                    == matcher::spec_matches_ancestor(t, st, e2, sel, 1));
            },
            crate::selector::Combinator::NextSibling => {
                assert(!(sel.combinators@[0] is NextSibling));
            },
            crate::selector::Combinator::LaterSibling => {
                assert(!(sel.combinators@[0] is LaterSibling));
            },
        }
    }
}

/// A position-free compound matches look-alike siblings alike.
proof fn lemma_compound_matches_same(
    t: Tree,
    st: Style,
    e1: Entity,
    e2: Entity,
    c: crate::selector::Compound,
)
    requires
        t.wf(),
        st.wf(),
        t.spec_alive(e1),
        t.spec_alive(e2),
        t.spec_layout_parent(e1) is Some,
        t.spec_layout_parent(e1) == t.spec_layout_parent(e2),
        spec_same_selector_state(st, e1, e2),
        c.spec_supported(),
        c.spec_positional_free(),
    ensures
        matcher::spec_compound_matches(t, st, e1, c) == matcher::spec_compound_matches(t, st, e2, c),
{
    t.lemma_layout_parent(e1);
    t.lemma_layout_parent(e2);
    assert forall|i: int|
        0 <= i < c.pseudos.len() implies matcher::spec_pseudo_matches(
        t,
        st,
        e1,
        #[trigger] c.pseudos@[i],
    ) == matcher::spec_pseudo_matches(t, st, e2, c.pseudos@[i]) by {
        match c.pseudos@[i] {
            crate::selector::PseudoSelector::Root => {
                // Neither sibling is the root: both have a layout parent.
                assert(e1 != Entity::spec_root() && e2 != Entity::spec_root());
                if e1.index == 0 {
                    assert(e1.generation == 0);
                    assert(false);
                }
                if e2.index == 0 {
                    assert(e2.generation == 0);
                    assert(false);
                }
                assert(t.slot_wf(e1.index as int));
                assert(t.slot_wf(e2.index as int));
                assert(t.node_of(e1).parent is Some);
                assert(t.node_of(e2).parent is Some);
            },
            crate::selector::PseudoSelector::State(_) => {},
            _ => {},
        }
    }
    assert forall|i: int|
        0 <= i < c.classes.len() implies spec_has_class(st, e1, (#[trigger] c.classes@[i])@)
        == spec_has_class(st, e2, (c.classes@[i])@) by {}
}

/// Did linking `matched` change the shared value of property `p` on slot
/// `idx`, as seen from the pre-link state?
pub open spec fn spec_link_changed(
    st: Style,
    matched: Seq<MatchedRule>,
    p: int,
    idx: int,
) -> bool {
    match spec_winning(matched, st.rules@, p) {
        Some(v) => st.shared_of(p, idx) != Some(v),
        None => false,
    }
}

/// The shared value of property `p` on slot `idx` after linking `matched`.
pub open spec fn spec_link_result(st: Style, matched: Seq<MatchedRule>, p: int, idx: int) -> Option<
    u64,
> {
    match spec_winning(matched, st.rules@, p) {
        Some(v) => Some(v),
        None => st.shared_of(p, idx),
    }
}

/// Link the shared-tier value of one property from a matched-rule list:
/// take the declaration of the highest-ranked declaring rule, and report
/// whether that changed the stored value.  A property no matched rule
/// declares keeps whatever it had.
#[verifier::loop_isolation(false)]
pub fn link_property(style: &mut Style, p: usize, e: usize, matched: &Vec<MatchedRule>) -> (changed:
    bool)
    requires
        old(style).wf(),
        p < old(style).props.len(),
        e < usize::MAX,
        forall|k: int| 0 <= k < matched.len() ==> (#[trigger] matched@[k]).rule < old(
            style,
        ).rules.len(),
    ensures
        final(style).wf(),
        changed == spec_link_changed(*old(style), matched@, p as int, e as int),
        final(style).shared_of(p as int, e as int) == spec_link_result(
            *old(style),
            matched@,
            p as int,
            e as int,
        ),
        forall|p2: int, e2: int|
            !(p2 == p && e2 == e) ==> final(style).shared_of(p2, e2) == old(style).shared_of(
                p2,
                e2,
            ),
        forall|p2: int, e2: int|
            final(style).inline_of(p2, e2) == old(style).inline_of(p2, e2),
        forall|p2: int, e2: int|
            final(style).inherited_of(p2, e2) == old(style).inherited_of(p2, e2),
        final(style).props@ == old(style).props@,
        final(style).rules@ == old(style).rules@,
        final(style).rules_position_independent == old(style).rules_position_independent,
        final(style).ids == old(style).ids,
        final(style).classes == old(style).classes,
        final(style).pseudo == old(style).pseudo,
        final(style).elements == old(style).elements,
        final(style).restyle == old(style).restyle,
        final(style).text_update == old(style).text_update,
        final(style).needs_relayout == old(style).needs_relayout,
        final(style).needs_restyle == old(style).needs_restyle,
        final(style).needs_redraw == old(style).needs_redraw,
    decreases matched.len(),
{
    let mut winning: Option<u64> = None;
    let mut k: usize = 0;
    proof {
        assert(matched@.skip(0) =~= matched@);
    }
    while k < matched.len() && winning.is_none()
        invariant
            k <= matched.len(),
            match winning {
                None => spec_winning(matched@, style.rules@, p as int) == spec_winning(
                    matched@.skip(k as int),
                    style.rules@,
                    p as int,
                ),
                Some(v) => spec_winning(matched@, style.rules@, p as int) == Some(v),
            },
        decreases matched.len() - k,
    {
        let m = matched[k];
        proof {
            assert(matched@.skip(k as int)[0] == matched@[k as int]);
            assert(matched@.skip(k as int).drop_first() =~= matched@.skip(k + 1));
        }
        match style.rules[m.rule].declared(p) {
            Some(v) => {
                winning = Some(v);
                proof {
                    assert(spec_winning(matched@, style.rules@, p as int) == Some(v));
                }
            },
            None => {},
        }
        k = k + 1;
    }
    proof {
        if winning is None {
            assert(!(k < matched.len()));
            assert(matched@.skip(matched@.len() as int).len() == 0);
        }
    }
    match winning {
        Some(v) => {
            let old_val = match style.shared[p].get(e) {
                Some(x) => Some(*x),
                None => None,
            };
            if old_val != Some(v) {
                let col = &mut style.shared[p];
                col.insert(e, v);
                proof {
                    crate::style::Style::lemma_wf_rules_carry(*old(style), *style);
                    assert forall|p2: int, e2: int|
                        !(p2 == p && e2 == e) implies style.shared_of(p2, e2) == old(
                        style,
                    ).shared_of(p2, e2) by {
                        if p2 != p && 0 <= p2 < style.shared.len() {
                            assert(style.shared@[p2] == old(style).shared@[p2]);
                        }
                    }
                }
                true
            } else {
                false
            }
        },
        None => false,
    }
}

/// The entity whose text must be re-shaped when a reflow-affecting property
/// of `e` changes: the nearest layout ancestor that is displayed.  Text
/// measurement depends on an ancestor's box, so the request lands one level
/// up from the change.
pub open spec fn spec_reflow_target(t: Tree, st: Style, e: Entity) -> Option<Entity>
    decreases t.depth_of(e),
        when t.wf() && t.spec_alive(e)
        via Self_spec_reflow_target_decreases
{
    match t.spec_layout_parent(e) {
        None => None,
        Some(p) => if st.resolved_of(
            crate::style::PROP_DISPLAY as int,
            p.index as int,
        ) != crate::style::DISPLAY_NONE {
            Some(p)
        } else {
            spec_reflow_target(t, st, p)
        },
    }
}

#[via_fn]
proof fn Self_spec_reflow_target_decreases(t: Tree, st: Style, e: Entity) {
    if t.wf() && t.spec_alive(e) {
        t.lemma_layout_parent(e);
    }
}

/// The reflow target is live.
pub proof fn lemma_reflow_target_alive(t: Tree, st: Style, e: Entity)
    requires
        t.wf(),
        t.spec_alive(e),
        spec_reflow_target(t, st, e) is Some,
    ensures
        t.spec_alive(spec_reflow_target(t, st, e)->Some_0),
    decreases t.depth_of(e),
{
    t.lemma_layout_parent(e);
    match t.spec_layout_parent(e) {
        None => {},
        Some(p) => {
            if st.resolved_of(crate::style::PROP_DISPLAY as int, p.index as int)
                != crate::style::DISPLAY_NONE {
            } else {
                lemma_reflow_target_alive(t, st, p);
            }
        },
    }
}

/// Does linking `matched` on slot `idx` change some property with the given
/// effect flag set?
pub open spec fn spec_link_triggers_relayout(st: Style, matched: Seq<MatchedRule>, idx: int) -> bool {
    exists|p: int|
        0 <= p < st.props.len() && (#[trigger] st.props@[p]).relayout && spec_link_changed(
            st,
            matched,
            p,
            idx,
        )
}

/// Does linking `matched` on slot `idx` change some redraw-affecting
/// property?
pub open spec fn spec_link_triggers_redraw(st: Style, matched: Seq<MatchedRule>, idx: int) -> bool {
    exists|p: int|
        0 <= p < st.props.len() && (#[trigger] st.props@[p]).redraw && spec_link_changed(
            st,
            matched,
            p,
            idx,
        )
}

/// Does linking `matched` on slot `idx` change some reflow-affecting
/// property?
pub open spec fn spec_link_triggers_reflow(st: Style, matched: Seq<MatchedRule>, idx: int) -> bool {
    exists|p: int|
        0 <= p < st.props.len() && (#[trigger] st.props@[p]).reflow && spec_link_changed(
            st,
            matched,
            p,
            idx,
        )
}

/// Link every styleable property of `e` from its matched-rule list, in
/// fixed property order, and raise the effect flags of what changed: the
/// process-wide relayout flag, the redraw list, and a text-reflow request on
/// the entity's nearest displayed layout ancestor.
#[verifier::loop_isolation(false)]
pub fn link_style_data(
    style: &mut Style,
    tree: &Tree,
    e: Entity,
    matched: &Vec<MatchedRule>,
    redraw_entities: &mut Vec<Entity>,
)
    requires
        old(style).wf(),
        tree.wf(),
        tree.spec_alive(e),
        forall|k: int| 0 <= k < matched.len() ==> (#[trigger] matched@[k]).rule < old(
            style,
        ).rules.len(),
    ensures
        final(style).wf(),
        forall|p: int|
            0 <= p < old(style).props.len() ==> final(style).shared_of(p, e.index as int)
                == spec_link_result(*old(style), matched@, p, e.index as int),
        forall|p: int, e2: int|
            e2 != e.index ==> final(style).shared_of(p, e2) == old(style).shared_of(p, e2),
        forall|p: int, e2: int|
            final(style).inline_of(p, e2) == old(style).inline_of(p, e2),
        forall|p: int, e2: int|
            final(style).inherited_of(p, e2) == old(style).inherited_of(p, e2),
        final(style).props@ == old(style).props@,
        final(style).rules@ == old(style).rules@,
        final(style).rules_position_independent == old(style).rules_position_independent,
        final(style).ids == old(style).ids,
        final(style).classes == old(style).classes,
        final(style).pseudo == old(style).pseudo,
        final(style).elements == old(style).elements,
        final(style).restyle == old(style).restyle,
        final(style).needs_restyle == old(style).needs_restyle,
        final(style).needs_relayout == (old(style).needs_relayout || spec_link_triggers_relayout(
            *old(style),
            matched@,
            e.index as int,
        )),
        final(redraw_entities)@ == if spec_link_triggers_redraw(
            *old(style),
            matched@,
            e.index as int,
        ) {
            old(redraw_entities)@.push(e)
        } else {
            old(redraw_entities)@
        },
        forall|e2: int|
            final(style).text_update.spec_get(e2) == (if spec_link_triggers_reflow(
                *old(style),
                matched@,
                e.index as int,
            ) && spec_reflow_target(*tree, *old(style), e) is Some && (spec_reflow_target(
                *tree,
                *old(style),
                e,
            )->Some_0).index == e2 {
                Some(true)
            } else {
                old(style).text_update.spec_get(e2)
            }),
{
    let n = style.props.len();
    let mut should_relayout = false;
    let mut should_redraw = false;
    let mut should_reflow = false;
    let mut p: usize = 0;
    let ghost st0 = *old(style);
    while p < n
        invariant
            n == st0.props.len(),
            p <= n,
            style.wf(),
            style.props@ == st0.props@,
            style.rules@ == st0.rules@,
            style.rules_position_independent == st0.rules_position_independent,
            style.ids == st0.ids,
            style.classes == st0.classes,
            style.pseudo == st0.pseudo,
            style.elements == st0.elements,
            style.restyle == st0.restyle,
            style.text_update == st0.text_update,
            style.needs_relayout == st0.needs_relayout,
            style.needs_restyle == st0.needs_restyle,
            style.needs_redraw == st0.needs_redraw,
            forall|p2: int, e2: int| style.inline_of(p2, e2) == st0.inline_of(p2, e2),
            forall|p2: int, e2: int| style.inherited_of(p2, e2) == st0.inherited_of(p2, e2),
            forall|p2: int|
                0 <= p2 < p ==> style.shared_of(p2, e.index as int) == spec_link_result(
                    st0,
                    matched@,
                    p2,
                    e.index as int,
                ),
            forall|p2: int|
                p <= p2 < n ==> style.shared_of(p2, e.index as int) == st0.shared_of(
                    p2,
                    e.index as int,
                ),
            forall|p2: int, e2: int|
                e2 != e.index ==> style.shared_of(p2, e2) == st0.shared_of(p2, e2),
            should_relayout == (exists|p2: int|
                0 <= p2 < p && (#[trigger] st0.props@[p2]).relayout && spec_link_changed(
                    st0,
                    matched@,
                    p2,
                    e.index as int,
                )),
            should_redraw == (exists|p2: int|
                0 <= p2 < p && (#[trigger] st0.props@[p2]).redraw && spec_link_changed(
                    st0,
                    matched@,
                    p2,
                    e.index as int,
                )),
            should_reflow == (exists|p2: int|
                0 <= p2 < p && (#[trigger] st0.props@[p2]).reflow && spec_link_changed(
                    st0,
                    matched@,
                    p2,
                    e.index as int,
                )),
        decreases n - p,
    {
        proof {
            assert(e.index < usize::MAX) by {
                assert(tree.slot_wf(e.index as int));
            }
        }
        let ghost st_pre = *style;
        let changed = link_property(style, p, e.index, matched);
        proof {
            // Linking reads only the rule set, which never changes here.
            assert(spec_link_changed(st_pre, matched@, p as int, e.index as int)
                == spec_link_changed(st0, matched@, p as int, e.index as int));
            assert(spec_link_result(st_pre, matched@, p as int, e.index as int)
                == spec_link_result(st0, matched@, p as int, e.index as int));
        }
        let meta = style.props[p];
        if changed {
            if meta.relayout {
                should_relayout = true;
            }
            if meta.redraw {
                should_redraw = true;
            }
            if meta.reflow {
                should_reflow = true;
            }
        }
        p = p + 1;
    }
    if should_relayout {
        style.needs_relayout = true;
        proof {
            crate::style::Style::lemma_wf_rules_carry(st0, *style);
        }
    }
    if should_redraw {
        redraw_entities.push(e);
    }
    if should_reflow {
        // Walk the layout ancestors for the nearest displayed one.
        let ghost st1 = *style;
        let mut cursor = e;
        let mut target: Option<Entity> = None;
        #[verifier::loop_isolation(true)]
        loop
            invariant_except_break
                target is None,
            invariant
                tree.wf(),
                tree.spec_alive(e),
                tree.spec_alive(cursor),
                st1.wf(),
                *style == st1,
                spec_reflow_target(*tree, st1, e) == spec_reflow_target(*tree, st1, cursor),
            ensures
                target == spec_reflow_target(*tree, st1, e),
                *style == st1,
            decreases tree.depth_of(cursor),
        {
            proof {
                tree.lemma_layout_parent(cursor);
            }
            match tree.layout_parent(cursor) {
                None => {
                    break ;
                },
                Some(lp) => {
                    if style.resolved_value(crate::style::PROP_DISPLAY, lp.index)
                        != crate::style::DISPLAY_NONE {
                        target = Some(lp);
                        break ;
                    }
                    cursor = lp;
                },
            }
        }
        match target {
            Some(a) => {
                proof {
                    lemma_reflow_target_alive(*tree, st1, e);
                    assert(tree.slot_wf(a.index as int));
                    assert(spec_reflow_target(*tree, st1, e) == spec_reflow_target(
                        *tree,
                        st0,
                        e,
                    )) by {
                        lemma_display_walk_agnostic(*tree, st1, st0, e);
                    }
                }
                style.needs_text_update(a.index);
                proof {
                    crate::style::Style::lemma_wf_rules_carry(st0, *style);
                }
            },
            None => {
                proof {
                    assert(spec_reflow_target(*tree, st0, e) is None) by {
                        lemma_display_walk_agnostic(*tree, st1, st0, e);
                    }
                }
            },
        }
    }
}

/// The reflow target reads only the display values of strict layout
/// ancestors, so two states that resolve display alike everywhere except on
/// one slot at least as deep as the walk's start agree on the target.
proof fn lemma_reflow_target_agnostic(
    t: Tree,
    st1: Style,
    st2: Style,
    cursor: Entity,
    excluded: int,
    depth_bound: int,
)
    requires
        t.wf(),
        t.spec_alive(cursor),
        t.depth_of(cursor) <= depth_bound,
        forall|a: Entity|
            t.spec_alive(a) && (#[trigger] a.index) as int == excluded ==> t.depth_of(a)
                >= depth_bound,
        forall|idx: int|
            idx != excluded ==> #[trigger] st1.resolved_of(crate::style::PROP_DISPLAY as int, idx)
                == st2.resolved_of(crate::style::PROP_DISPLAY as int, idx),
    ensures
        spec_reflow_target(t, st1, cursor) == spec_reflow_target(t, st2, cursor),
    decreases t.depth_of(cursor),
{
    t.lemma_layout_parent(cursor);
    match t.spec_layout_parent(cursor) {
        None => {},
        Some(p) => {
            assert(p.index as int != excluded);
            if st1.resolved_of(crate::style::PROP_DISPLAY as int, p.index as int)
                != crate::style::DISPLAY_NONE {
            } else {
                lemma_reflow_target_agnostic(t, st1, st2, p, excluded, depth_bound);
            }
        },
    }
}

/// Bridge for the reflow walk: two states that differ only in `e`'s own
/// slot agree on `e`'s reflow target.
proof fn lemma_display_walk_agnostic(t: Tree, st1: Style, st2: Style, e: Entity)
    requires
        t.wf(),
        t.spec_alive(e),
        forall|idx: int|
            idx != e.index as int ==> #[trigger] st1.resolved_of(
                crate::style::PROP_DISPLAY as int,
                idx,
            ) == st2.resolved_of(crate::style::PROP_DISPLAY as int, idx),
    ensures
        spec_reflow_target(t, st1, e) == spec_reflow_target(t, st2, e),
{
    assert forall|a: Entity|
        t.spec_alive(a) && (#[trigger] a.index) as int == e.index as int implies t.depth_of(a)
        >= t.depth_of(e) by {
        assert(a == e);
    }
    lemma_reflow_target_agnostic(t, st1, st2, e, e.index as int, t.depth_of(e));
}

/// The value an entity would inherit from slot `idx`.  The inline pass
/// copies the parent's inline-or-inherited value; the shared pass copies the
/// parent's full visible value (inline over shared over inherited), so that
/// a parent's own cascade result flows down only after linking.
pub open spec fn spec_inherit_source(st: Style, shared_source: bool, p: int, idx: int) -> Option<
    u64,
> {
    if shared_source {
        st.visible_of(p, idx)
    } else {
        match st.inline_of(p, idx) {
            Some(v) => Some(v),
            None => st.inherited_of(p, idx),
        }
    }
}

/// Inheritance is settled at `x`: for every inheritable property with no
/// local value, `x`'s inherited slot holds exactly what its layout parent
/// provides.
pub open spec fn spec_inherited_ok(t: Tree, st: Style, shared_source: bool, x: Entity) -> bool {
    match t.spec_layout_parent(x) {
        Some(lp) => forall|p: int|
            0 <= p < st.props.len() && (#[trigger] st.props@[p]).inheritable && st.local_of(
                p,
                x.index as int,
            ) is None ==> st.inherited_of(p, x.index as int) == spec_inherit_source(
                st,
                shared_source,
                p,
                lp.index as int,
            ),
        None => true,
    }
}

/// Settledness survives any change that leaves the property table, the
/// local tiers, and the inherited slots of `x` and of its layout parent
/// alone.
pub proof fn lemma_inherited_ok_stable(t: Tree, st1: Style, st2: Style, shared_source: bool, x: Entity)
    requires
        spec_inherited_ok(t, st1, shared_source, x),
        st2.props@ == st1.props@,
        st2.props.len() == st1.props.len(),
        forall|p: int, idx: int| st2.inline_of(p, idx) == st1.inline_of(p, idx),
        forall|p: int, idx: int| st2.shared_of(p, idx) == st1.shared_of(p, idx),
        forall|p: int| st2.inherited_of(p, x.index as int) == st1.inherited_of(p, x.index as int),
        t.spec_layout_parent(x) is Some ==> forall|p: int|
            st2.inherited_of(p, (t.spec_layout_parent(x)->Some_0).index as int)
                == st1.inherited_of(p, (t.spec_layout_parent(x)->Some_0).index as int),
    ensures
        spec_inherited_ok(t, st2, shared_source, x),
{
}

/// Did inheritance move one property of the entity at slot `e_idx`: the
/// property is inheritable, the entity has no local value for it, and what
/// the parent's slot provides differs from what was stored.
pub open spec fn spec_inherit_changed(
    st: Style,
    shared_source: bool,
    p: int,
    lp_idx: int,
    e_idx: int,
) -> bool {
    &&& 0 <= p < st.props.len()
    &&& st.props@[p].inheritable
    &&& st.local_of(p, e_idx) is None
    &&& spec_inherit_source(st, shared_source, p, lp_idx) != st.inherited_of(p, e_idx)
}

/// Run inheritance for one entity: for every inheritable property with no
/// local value, copy the source value down from the layout parent's slot;
/// the entity joins the redraw list iff a redraw-flavoured property changed,
/// and is marked for text re-shaping iff a reflow-affecting one changed.
#[verifier::loop_isolation(false)]
fn inherit_entity(
    style: &mut Style,
    shared_source: bool,
    lp_idx: usize,
    e: Entity,
    redraw_entities: &mut Vec<Entity>,
)
    requires
        old(style).wf(),
        e.index < usize::MAX,
        lp_idx != e.index,
    ensures
        final(style).wf(),
        final(style).props@ == old(style).props@,
        final(style).rules@ == old(style).rules@,
        final(style).rules_position_independent == old(style).rules_position_independent,
        final(style).ids == old(style).ids,
        final(style).classes == old(style).classes,
        final(style).pseudo == old(style).pseudo,
        final(style).elements == old(style).elements,
        final(style).restyle == old(style).restyle,
        final(style).needs_relayout == old(style).needs_relayout,
        final(style).needs_restyle == old(style).needs_restyle,
        final(style).needs_redraw == old(style).needs_redraw,
        forall|p: int, idx: int| final(style).inline_of(p, idx) == old(style).inline_of(p, idx),
        forall|p: int, idx: int| final(style).shared_of(p, idx) == old(style).shared_of(p, idx),
        forall|p: int|
            final(style).inherited_of(p, e.index as int) == (if 0 <= p < old(style).props.len()
                && old(style).props@[p].inheritable && old(style).local_of(p, e.index as int)
                is None {
                spec_inherit_source(*old(style), shared_source, p, lp_idx as int)
            } else {
                old(style).inherited_of(p, e.index as int)
            }),
        forall|p: int, idx: int|
            idx != e.index ==> final(style).inherited_of(p, idx) == old(style).inherited_of(
                p,
                idx,
            ),
        forall|e2: int|
            final(style).text_update.spec_get(e2) == (if e2 == e.index && (exists|p: int|
                #[trigger] spec_inherit_changed(
                    *old(style),
                    shared_source,
                    p,
                    lp_idx as int,
                    e.index as int,
                ) && old(style).props@[p].reflow) {
                Some(true)
            } else {
                old(style).text_update.spec_get(e2)
            }),
        final(redraw_entities)@ == (if exists|p: int|
            #[trigger] spec_inherit_changed(
                *old(style),
                shared_source,
                p,
                lp_idx as int,
                e.index as int,
            ) && !old(style).props@[p].reflow {
            old(redraw_entities)@.push(e)
        } else {
            old(redraw_entities)@
        }),
{
    let n = style.props.len();
    let ghost st0 = *old(style);
    let mut p: usize = 0;
    let mut pushed_redraw = false;
    let mut marked_text = false;
    while p < n
        invariant
            n == st0.props.len(),
            p <= n,
            style.wf(),
            style.props@ == st0.props@,
            style.rules@ == st0.rules@,
            style.rules_position_independent == st0.rules_position_independent,
            style.ids == st0.ids,
            style.classes == st0.classes,
            style.pseudo == st0.pseudo,
            style.elements == st0.elements,
            style.restyle == st0.restyle,
            style.needs_relayout == st0.needs_relayout,
            style.needs_restyle == st0.needs_restyle,
            style.needs_redraw == st0.needs_redraw,
            forall|p2: int, idx: int| style.inline_of(p2, idx) == st0.inline_of(p2, idx),
            forall|p2: int, idx: int| style.shared_of(p2, idx) == st0.shared_of(p2, idx),
            forall|p2: int|
                0 <= p2 < p ==> style.inherited_of(p2, e.index as int) == (if st0.props@[p2].inheritable
                    && st0.local_of(p2, e.index as int) is None {
                    spec_inherit_source(st0, shared_source, p2, lp_idx as int)
                } else {
                    st0.inherited_of(p2, e.index as int)
                }),
            forall|p2: int|
                p <= p2 < n ==> style.inherited_of(p2, e.index as int) == st0.inherited_of(
                    p2,
                    e.index as int,
                ),
            forall|p2: int, idx: int|
                idx != e.index ==> style.inherited_of(p2, idx) == st0.inherited_of(p2, idx),
            marked_text == (exists|p2: int|
                0 <= p2 < p && #[trigger] spec_inherit_changed(
                    st0,
                    shared_source,
                    p2,
                    lp_idx as int,
                    e.index as int,
                ) && st0.props@[p2].reflow),
            pushed_redraw == (exists|p2: int|
                0 <= p2 < p && #[trigger] spec_inherit_changed(
                    st0,
                    shared_source,
                    p2,
                    lp_idx as int,
                    e.index as int,
                ) && !st0.props@[p2].reflow),
            forall|e2: int|
                style.text_update.spec_get(e2) == (if e2 == e.index && marked_text {
                    Some(true)
                } else {
                    st0.text_update.spec_get(e2)
                }),
            pushed_redraw ==> redraw_entities@ == old(redraw_entities)@.push(e),
            !pushed_redraw ==> redraw_entities@ == old(redraw_entities)@,
        decreases n - p,
    {
        let meta = style.props[p];
        let has_local = style.inline[p].contains(e.index) || style.shared[p].contains(e.index);
        if meta.inheritable && !has_local {
            let candidate: Option<u64> = if shared_source {
                match style.inline[p].get(lp_idx) {
                    Some(v) => Some(*v),
                    None => match style.shared[p].get(lp_idx) {
                        Some(v) => Some(*v),
                        None => match style.inherited[p].get(lp_idx) {
                            Some(v) => Some(*v),
                            None => None,
                        },
                    },
                }
            } else {
                match style.inline[p].get(lp_idx) {
                    Some(v) => Some(*v),
                    None => match style.inherited[p].get(lp_idx) {
                        Some(v) => Some(*v),
                        None => None,
                    },
                }
            };
            proof {
                assert(candidate == spec_inherit_source(st0, shared_source, p as int, lp_idx as int));
            }
            let current: Option<u64> = match style.inherited[p].get(e.index) {
                Some(v) => Some(*v),
                None => None,
            };
            proof {
                assert(current == st0.inherited_of(p as int, e.index as int));
                assert(spec_inherit_changed(st0, shared_source, p as int, lp_idx as int, e.index as int)
                    == (candidate != current));
            }
            if candidate != current {
                let ghost st_pre = *style;
                match candidate {
                    Some(v) => {
                        let col = &mut style.inherited[p];
                        col.insert(e.index, v);
                    },
                    None => {
                        let col = &mut style.inherited[p];
                        col.remove(e.index);
                    },
                }
                proof {
                    crate::style::Style::lemma_wf_rules_carry(st_pre, *style);
                    assert forall|p2: int, idx: int|
                        !(p2 == p && idx == e.index) implies style.inherited_of(p2, idx)
                        == st_pre.inherited_of(p2, idx) by {
                        if p2 != p && 0 <= p2 < style.inherited.len() {
                            assert(style.inherited@[p2] == st_pre.inherited@[p2]);
                        }
                    }
                }
                if meta.reflow {
                    style.needs_text_update(e.index);
                    marked_text = true;
                } else {
                    if !pushed_redraw {
                        redraw_entities.push(e);
                        pushed_redraw = true;
                    }
                }
            }
        } else {
            proof {
                assert(!spec_inherit_changed(
                    st0,
                    shared_source,
                    p as int,
                    lp_idx as int,
                    e.index as int,
                ));
            }
        }
        p = p + 1;
    }
}

/// Did a pass move one property of `x`: judged against the pass-start state
/// for the property table, `x`'s local tiers and `x`'s stored slot, and
/// against the pass-end state for the parent's (by then settled) source.
pub open spec fn spec_pass_changed(
    t: Tree,
    st_old: Style,
    st_new: Style,
    shared_source: bool,
    x: Entity,
    p: int,
) -> bool {
    &&& t.spec_layout_parent(x) is Some
    &&& 0 <= p < st_old.props.len()
    &&& st_old.props@[p].inheritable
    &&& st_old.local_of(p, x.index as int) is None
    &&& spec_inherit_source(
        st_new,
        shared_source,
        p,
        (t.spec_layout_parent(x)->Some_0).index as int,
    ) != st_old.inherited_of(p, x.index as int)
}

/// The pass-change verdict depends on the new state only through the
/// parent's slot.
proof fn lemma_pass_changed_stable(
    t: Tree,
    st_old: Style,
    st1: Style,
    st2: Style,
    shared_source: bool,
    x: Entity,
    p: int,
)
    requires
        t.spec_layout_parent(x) is Some,
        forall|p2: int|
            st2.inline_of(p2, (t.spec_layout_parent(x)->Some_0).index as int) == st1.inline_of(
                p2,
                (t.spec_layout_parent(x)->Some_0).index as int,
            ),
        forall|p2: int|
            st2.shared_of(p2, (t.spec_layout_parent(x)->Some_0).index as int) == st1.shared_of(
                p2,
                (t.spec_layout_parent(x)->Some_0).index as int,
            ),
        forall|p2: int|
            st2.inherited_of(p2, (t.spec_layout_parent(x)->Some_0).index as int)
                == st1.inherited_of(p2, (t.spec_layout_parent(x)->Some_0).index as int),
    ensures
        spec_pass_changed(t, st_old, st1, shared_source, x, p) == spec_pass_changed(
            t,
            st_old,
            st2,
            shared_source,
            x,
            p,
        ),
{
}

/// One inheritance pass over the whole tree, top-down in breadth order, so
/// that every layout parent is settled before its layout children.  The
/// inline pass (`shared_source` false) runs at the start of a restyle; the
/// shared pass runs last, after cascade linking.
#[verifier::loop_isolation(false)]
fn inherit_pass(
    style: &mut Style,
    tree: &Tree,
    shared_source: bool,
    redraw_entities: &mut Vec<Entity>,
)
    requires
        old(style).wf(),
        tree.wf(),
    ensures
        final(style).wf(),
        final(style).props@ == old(style).props@,
        final(style).rules@ == old(style).rules@,
        final(style).rules_position_independent == old(style).rules_position_independent,
        final(style).ids == old(style).ids,
        final(style).classes == old(style).classes,
        final(style).pseudo == old(style).pseudo,
        final(style).elements == old(style).elements,
        final(style).restyle == old(style).restyle,
        final(style).needs_relayout == old(style).needs_relayout,
        final(style).needs_restyle == old(style).needs_restyle,
        final(style).needs_redraw == old(style).needs_redraw,
        forall|p: int, idx: int| final(style).inline_of(p, idx) == old(style).inline_of(p, idx),
        forall|p: int, idx: int| final(style).shared_of(p, idx) == old(style).shared_of(p, idx),
        forall|p: int, idx: int|
            (forall|x: Entity| tree.spec_alive(x) ==> (#[trigger] x.index) as int != idx)
                ==> #[trigger] final(style).inherited_of(p, idx) == old(style).inherited_of(
                p,
                idx,
            ),
        forall|p: int, idx: int|
            !(0 <= p < old(style).props.len() && old(style).props@[p].inheritable && old(
                style,
            ).local_of(p, idx) is None) ==> #[trigger] final(style).inherited_of(p, idx) == old(
                style,
            ).inherited_of(p, idx),
        forall|x: Entity, p: int|
            tree.spec_alive(x) && tree.spec_layout_parent(x) is None
                ==> #[trigger] final(style).inherited_of(p, (#[trigger] x.index) as int) == old(
                style,
            ).inherited_of(p, x.index as int),
        forall|e2: int|
            final(style).text_update.spec_get(e2) == (if exists|x: Entity, p: int|
                tree.spec_alive(x) && (#[trigger] x.index) as int == e2 && #[trigger] spec_pass_changed(
                    *tree,
                    *old(style),
                    *final(style),
                    shared_source,
                    x,
                    p,
                ) && old(style).props@[p].reflow {
                Some(true)
            } else {
                old(style).text_update.spec_get(e2)
            }),
        final(redraw_entities)@.len() >= old(redraw_entities)@.len(),
        final(redraw_entities)@.subrange(0, old(redraw_entities)@.len() as int)
            == old(redraw_entities)@,
        forall|x: Entity, p: int|
            tree.spec_alive(x) && #[trigger] spec_pass_changed(
                *tree,
                *old(style),
                *final(style),
                shared_source,
                x,
                p,
            ) && !old(style).props@[p].reflow ==> final(redraw_entities)@.contains(x),
        forall|j: int|
            old(redraw_entities)@.len() <= j < final(redraw_entities)@.len() ==> tree.spec_alive(
                #[trigger] final(redraw_entities)@[j],
            ) && (exists|p: int|
                spec_pass_changed(
                    *tree,
                    *old(style),
                    *final(style),
                    shared_source,
                    final(redraw_entities)@[j],
                    p,
                ) && !old(style).props@[p].reflow),
        forall|x: Entity|
            tree.spec_alive(x) ==> spec_inherited_ok(*tree, *final(style), shared_source, x),
{
    let order = tree.breadth_order();
    let ghost st0 = *old(style);
    let ghost redraw0 = old(redraw_entities)@;
    let mut k: usize = 0;
    while k < order.len()
        invariant
            style.wf(),
            style.props@ == st0.props@,
            style.rules@ == st0.rules@,
            style.rules_position_independent == st0.rules_position_independent,
            style.ids == st0.ids,
            style.classes == st0.classes,
            style.pseudo == st0.pseudo,
            style.elements == st0.elements,
            style.restyle == st0.restyle,
            style.needs_relayout == st0.needs_relayout,
            style.needs_restyle == st0.needs_restyle,
            style.needs_redraw == st0.needs_redraw,
            k <= order.len(),
            forall|p: int, idx: int| style.inline_of(p, idx) == st0.inline_of(p, idx),
            forall|p: int, idx: int| style.shared_of(p, idx) == st0.shared_of(p, idx),
            forall|p: int, idx: int|
                (forall|k2: int| 0 <= k2 < k ==> (#[trigger] order@[k2]).index as int != idx)
                    ==> #[trigger] style.inherited_of(p, idx) == st0.inherited_of(p, idx),
            forall|p: int, idx: int|
                !(0 <= p < st0.props.len() && st0.props@[p].inheritable && st0.local_of(
                    p,
                    idx,
                ) is None) ==> #[trigger] style.inherited_of(p, idx) == st0.inherited_of(p, idx),
            forall|k2: int, p: int|
                0 <= k2 < k && tree.spec_layout_parent(#[trigger] order@[k2]) is None
                    ==> #[trigger] style.inherited_of(p, order@[k2].index as int)
                    == st0.inherited_of(p, order@[k2].index as int),
            forall|e2: int|
                style.text_update.spec_get(e2) == (if exists|k2: int, p: int|
                    0 <= k2 < k && (#[trigger] order@[k2]).index as int == e2
                        && #[trigger] spec_pass_changed(
                        *tree,
                        st0,
                        *style,
                        shared_source,
                        order@[k2],
                        p,
                    ) && st0.props@[p].reflow {
                    Some(true)
                } else {
                    st0.text_update.spec_get(e2)
                }),
            redraw_entities@.len() >= redraw0.len(),
            redraw_entities@.subrange(0, redraw0.len() as int) == redraw0,
            forall|k2: int, p: int|
                0 <= k2 < k && #[trigger] spec_pass_changed(
                    *tree,
                    st0,
                    *style,
                    shared_source,
                    order@[k2],
                    p,
                ) && !st0.props@[p].reflow ==> redraw_entities@.contains(order@[k2]),
            forall|j: int|
                redraw0.len() <= j < redraw_entities@.len() ==> tree.spec_alive(
                    #[trigger] redraw_entities@[j],
                ) && (exists|k2: int| 0 <= k2 < k && order@[k2] == redraw_entities@[j]) && (
                exists|p: int|
                    spec_pass_changed(
                        *tree,
                        st0,
                        *style,
                        shared_source,
                        redraw_entities@[j],
                        p,
                    ) && !st0.props@[p].reflow),
            forall|k2: int|
                0 <= k2 < k ==> spec_inherited_ok(
                    *tree,
                    *style,
                    shared_source,
                    #[trigger] order@[k2],
                ),
        decreases order.len() - k,
    {
        let e = order[k];
        proof {
            assert(tree.spec_alive(e));
            assert(tree.slot_wf(e.index as int));
            tree.lemma_layout_parent(e);
        }
        let ghost st_pre = *style;
        let ghost redraw_pre = redraw_entities@;
        match tree.layout_parent(e) {
            None => {
                proof {
                    assert(spec_inherited_ok(*tree, *style, shared_source, e));
                }
            },
            Some(lp) => {
                proof {
                    assert(tree.spec_alive(lp));
                    if lp.index == e.index {
                        assert(lp == e);
                        assert(tree.depth_of(lp) < tree.depth_of(e));
                        assert(false);
                    }
                }
                inherit_entity(style, shared_source, lp.index, e, redraw_entities);
                proof {
                    assert(spec_inherited_ok(*tree, *style, shared_source, e)) by {
                        assert forall|p: int|
                            0 <= p < style.props.len() && (#[trigger] style.props@[p]).inheritable
                                && style.local_of(p, e.index as int) is None implies style.inherited_of(
                            p,
                            e.index as int,
                        ) == spec_inherit_source(
                            *style,
                            shared_source,
                            p,
                            lp.index as int,
                        ) by {
                            assert(style.inherited_of(p, e.index as int) == spec_inherit_source(
                                st_pre,
                                shared_source,
                                p,
                                lp.index as int,
                            ));
                            assert(style.inherited_of(p, lp.index as int) == st_pre.inherited_of(
                                p,
                                lp.index as int,
                            ));
                        }
                    }
                }
            },
        }
        proof {
            // Earlier entities stay settled: this step only rewrote `e`'s
            // inherited slots, and `e` is neither an earlier entity nor any
            // earlier entity's layout parent (those sit strictly higher).
            assert forall|k2: int|
                0 <= k2 < k + 1 implies spec_inherited_ok(
                *tree,
                *style,
                shared_source,
                #[trigger] order@[k2],
            ) by {
                if k2 < k {
                    let x = order@[k2];
                    assert(tree.spec_alive(x));
                    assert(x.index != e.index) by {
                        if x.index == e.index {
                            assert(x == e);
                            assert(order@[k2] != order@[k as int]);
                        }
                    }
                    tree.lemma_layout_parent(x);
                    if tree.spec_layout_parent(x) is Some {
                        let lpx = tree.spec_layout_parent(x)->Some_0;
                        assert(lpx.index != e.index) by {
                            if lpx.index == e.index {
                                assert(lpx == e);
                                assert(tree.depth_of(lpx) < tree.depth_of(x));
                                assert(tree.depth_of(x) <= tree.depth_of(e));
                                assert(false);
                            }
                        }
                        lemma_inherited_ok_stable(*tree, st_pre, *style, shared_source, x);
                    } else {
                        lemma_inherited_ok_stable(*tree, st_pre, *style, shared_source, x);
                    }
                }
            }
            assert(redraw_entities@.subrange(0, redraw0.len() as int) =~= redraw0) by {
                assert(redraw_pre.subrange(0, redraw0.len() as int) == redraw0);
                if redraw_entities@ != redraw_pre {
                    assert(redraw_entities@ == redraw_pre.push(e));
                }
            }
            // No earlier entity shares e's slot.
            assert forall|k2: int|
                0 <= k2 < k implies (#[trigger] order@[k2]).index as int != e.index as int by {
                if order@[k2].index == e.index {
                    assert(tree.spec_alive(order@[k2]));
                    assert(order@[k2] == e);
                    assert(order@[k2] != order@[k as int]);
                }
            }
            // The change verdicts of earlier entities are untouched by this
            // step: only e's own slot was rewritten, and no earlier entity's
            // layout parent sits there.
            assert forall|k2: int, p: int|
                0 <= k2 < k && tree.spec_layout_parent(#[trigger] order@[k2]) is Some implies
                #[trigger] spec_pass_changed(*tree, st0, *style, shared_source, order@[k2], p)
                == spec_pass_changed(*tree, st0, st_pre, shared_source, order@[k2], p) by {
                let x = order@[k2];
                assert(tree.spec_alive(x));
                tree.lemma_layout_parent(x);
                let lpx = tree.spec_layout_parent(x)->Some_0;
                assert(lpx.index != e.index) by {
                    if lpx.index == e.index {
                        assert(lpx == e);
                        assert(tree.depth_of(lpx) < tree.depth_of(x));
                        assert(tree.depth_of(x) <= tree.depth_of(e));
                        assert(false);
                    }
                }
                assert(forall|p2: int|
                    style.inherited_of(p2, lpx.index as int) == st_pre.inherited_of(
                        p2,
                        lpx.index as int,
                    ));
                lemma_pass_changed_stable(*tree, st0, st_pre, *style, shared_source, x, p);
            }
            // Bridge e's per-entity verdict to the pass-level one.
            if tree.spec_layout_parent(e) is Some {
                let lp_e = tree.spec_layout_parent(e)->Some_0;
                assert forall|p: int|
                    spec_inherit_changed(st_pre, shared_source, p, lp_e.index as int, e.index as int)
                    == #[trigger] spec_pass_changed(*tree, st0, *style, shared_source, e, p) by {
                    assert(st_pre.inherited_of(p, e.index as int) == st0.inherited_of(
                        p,
                        e.index as int,
                    ));
                    assert(lp_e.index != e.index);
                    assert(forall|p2: int|
                        style.inherited_of(p2, lp_e.index as int) == st_pre.inherited_of(
                            p2,
                            lp_e.index as int,
                        ));
                    assert(spec_inherit_source(st_pre, shared_source, p, lp_e.index as int)
                        == spec_inherit_source(*style, shared_source, p, lp_e.index as int));
                }
            }
            // Text equation after this step.
            assert forall|e2: int|
                style.text_update.spec_get(e2) == (if exists|k2: int, p: int|
                    0 <= k2 < k + 1 && (#[trigger] order@[k2]).index as int == e2
                        && #[trigger] spec_pass_changed(
                        *tree,
                        st0,
                        *style,
                        shared_source,
                        order@[k2],
                        p,
                    ) && st0.props@[p].reflow {
                    Some(true)
                } else {
                    st0.text_update.spec_get(e2)
                }) by {
                if exists|k2: int, p: int|
                    0 <= k2 < k + 1 && (#[trigger] order@[k2]).index as int == e2
                        && #[trigger] spec_pass_changed(
                        *tree,
                        st0,
                        *style,
                        shared_source,
                        order@[k2],
                        p,
                    ) && st0.props@[p].reflow {
                    let (k2, p) = choose|k2: int, p: int|
                        0 <= k2 < k + 1 && (#[trigger] order@[k2]).index as int == e2
                            && #[trigger] spec_pass_changed(
                            *tree,
                            st0,
                            *style,
                            shared_source,
                            order@[k2],
                            p,
                        ) && st0.props@[p].reflow;
                    if k2 < k {
                        assert(spec_pass_changed(
                            *tree,
                            st0,
                            st_pre,
                            shared_source,
                            order@[k2],
                            p,
                        ));
                        assert(st_pre.text_update.spec_get(e2) == Some(true));
                        assert(e2 != e.index as int);
                        assert(style.text_update.spec_get(e2) == Some(true));
                    } else {
                        assert(order@[k2] == e);
                        assert(tree.spec_layout_parent(e) is Some);
                        let lp_e = tree.spec_layout_parent(e)->Some_0;
                        assert(spec_inherit_changed(
                            st_pre,
                            shared_source,
                            p,
                            lp_e.index as int,
                            e.index as int,
                        ) && st_pre.props@[p].reflow);
                        assert(style.text_update.spec_get(e2) == Some(true));
                    }
                } else {
                    if e2 == e.index as int {
                        if tree.spec_layout_parent(e) is Some {
                            let lp_e = tree.spec_layout_parent(e)->Some_0;
                            if exists|p: int|
                                #[trigger] spec_inherit_changed(
                                    st_pre,
                                    shared_source,
                                    p,
                                    lp_e.index as int,
                                    e.index as int,
                                ) && st_pre.props@[p].reflow {
                                let p = choose|p: int|
                                    #[trigger] spec_inherit_changed(
                                        st_pre,
                                        shared_source,
                                        p,
                                        lp_e.index as int,
                                        e.index as int,
                                    ) && st_pre.props@[p].reflow;
                                assert(spec_pass_changed(
                                    *tree,
                                    st0,
                                    *style,
                                    shared_source,
                                    e,
                                    p,
                                ) && st0.props@[p].reflow);
                                assert(0 <= k < k + 1 && order@[k as int].index as int == e2);
                                assert(false);
                            }
                            assert(style.text_update.spec_get(e2) == st_pre.text_update.spec_get(
                                e2,
                            ));
                        }
                        assert(st_pre.text_update.spec_get(e2) == st0.text_update.spec_get(e2))
                            by {
                            if exists|k2: int, p: int|
                                0 <= k2 < k && (#[trigger] order@[k2]).index as int == e2
                                    && #[trigger] spec_pass_changed(
                                    *tree,
                                    st0,
                                    st_pre,
                                    shared_source,
                                    order@[k2],
                                    p,
                                ) && st0.props@[p].reflow {
                                let (k2, p) = choose|k2: int, p: int|
                                    0 <= k2 < k && (#[trigger] order@[k2]).index as int == e2
                                        && #[trigger] spec_pass_changed(
                                        *tree,
                                        st0,
                                        st_pre,
                                        shared_source,
                                        order@[k2],
                                        p,
                                    ) && st0.props@[p].reflow;
                                assert(order@[k2].index as int != e.index as int);
                                assert(false);
                            }
                        }
                    } else {
                        assert(style.text_update.spec_get(e2) == st_pre.text_update.spec_get(e2));
                        assert(st_pre.text_update.spec_get(e2) == st0.text_update.spec_get(e2))
                            by {
                            if exists|k2: int, p: int|
                                0 <= k2 < k && (#[trigger] order@[k2]).index as int == e2
                                    && #[trigger] spec_pass_changed(
                                    *tree,
                                    st0,
                                    st_pre,
                                    shared_source,
                                    order@[k2],
                                    p,
                                ) && st0.props@[p].reflow {
                                let (k2, p) = choose|k2: int, p: int|
                                    0 <= k2 < k && (#[trigger] order@[k2]).index as int == e2
                                        && #[trigger] spec_pass_changed(
                                        *tree,
                                        st0,
                                        st_pre,
                                        shared_source,
                                        order@[k2],
                                        p,
                                    ) && st0.props@[p].reflow;
                                assert(tree.spec_layout_parent(order@[k2]) is Some);
                                assert(spec_pass_changed(
                                    *tree,
                                    st0,
                                    *style,
                                    shared_source,
                                    order@[k2],
                                    p,
                                ));
                                assert(false);
                            }
                        }
                    }
                }
            }
            // Redraw attribution after this step.
            assert forall|k2: int, p: int|
                0 <= k2 < k + 1 && #[trigger] spec_pass_changed(
                    *tree,
                    st0,
                    *style,
                    shared_source,
                    order@[k2],
                    p,
                ) && !st0.props@[p].reflow implies redraw_entities@.contains(order@[k2]) by {
                if k2 < k {
                    let jx = choose|jx: int|
                        0 <= jx < redraw_pre.len() && redraw_pre[jx] == order@[k2];
                    assert(redraw_entities@[jx] == order@[k2]);
                } else {
                    assert(redraw_entities@[redraw_entities@.len() - 1] == e);
                }
            }
            assert forall|j: int|
                redraw0.len() <= j < redraw_entities@.len() implies tree.spec_alive(
                #[trigger] redraw_entities@[j],
            ) && (exists|k2: int| 0 <= k2 < k + 1 && order@[k2] == redraw_entities@[j]) && (
            exists|p: int|
                spec_pass_changed(
                    *tree,
                    st0,
                    *style,
                    shared_source,
                    redraw_entities@[j],
                    p,
                ) && !st0.props@[p].reflow) by {
                if j < redraw_pre.len() {
                    assert(redraw_entities@[j] == redraw_pre[j]);
                    let k2 = choose|k2: int| 0 <= k2 < k && order@[k2] == redraw_pre[j];
                    let p = choose|p: int|
                        spec_pass_changed(
                            *tree,
                            st0,
                            st_pre,
                            shared_source,
                            redraw_pre[j],
                            p,
                        ) && !st0.props@[p].reflow;
                    assert(tree.spec_layout_parent(order@[k2]) is Some);
                    assert(spec_pass_changed(
                        *tree,
                        st0,
                        *style,
                        shared_source,
                        order@[k2],
                        p,
                    ));
                } else {
                    assert(redraw_entities@[j] == e);
                    assert(tree.spec_layout_parent(e) is Some);
                    let lp_e = tree.spec_layout_parent(e)->Some_0;
                    let p = choose|p: int|
                        #[trigger] spec_inherit_changed(
                            st_pre,
                            shared_source,
                            p,
                            lp_e.index as int,
                            e.index as int,
                        ) && !st_pre.props@[p].reflow;
                    assert(spec_pass_changed(*tree, st0, *style, shared_source, e, p)
                        && !st0.props@[p].reflow);
                }
            }
        }
        k = k + 1;
    }
    proof {
        assert forall|x: Entity|
            tree.spec_alive(x) implies spec_inherited_ok(*tree, *style, shared_source, x) by {
            assert(order@.contains(x));
            let k2 = choose|k2: int| 0 <= k2 < order@.len() && order@[k2] == x;
            assert(spec_inherited_ok(*tree, *style, shared_source, order@[k2]));
        }
        assert forall|p: int, idx: int|
            (forall|x: Entity| tree.spec_alive(x) ==> (#[trigger] x.index) as int != idx)
                implies #[trigger] style.inherited_of(p, idx) == st0.inherited_of(p, idx) by {
            assert forall|k2: int|
                0 <= k2 < order.len() implies (#[trigger] order@[k2]).index as int != idx by {
                assert(tree.spec_alive(order@[k2]));
            }
        }
        assert forall|x: Entity, p: int|
            tree.spec_alive(x) && tree.spec_layout_parent(x) is None implies #[trigger] style.inherited_of(
            p,
            (#[trigger] x.index) as int,
        ) == st0.inherited_of(p, x.index as int) by {
            assert(order@.contains(x));
            let k2 = choose|k2: int| 0 <= k2 < order@.len() && order@[k2] == x;
            assert(style.inherited_of(p, order@[k2].index as int) == st0.inherited_of(
                p,
                order@[k2].index as int,
            ));
        }
        // Lift the per-position attribution facts to all live entities.
        assert forall|e2: int|
            style.text_update.spec_get(e2) == (if exists|x: Entity, p: int|
                tree.spec_alive(x) && (#[trigger] x.index) as int == e2 && #[trigger] spec_pass_changed(
                    *tree,
                    st0,
                    *style,
                    shared_source,
                    x,
                    p,
                ) && st0.props@[p].reflow {
                Some(true)
            } else {
                st0.text_update.spec_get(e2)
            }) by {
            if exists|x: Entity, p: int|
                tree.spec_alive(x) && (#[trigger] x.index) as int == e2 && #[trigger] spec_pass_changed(
                    *tree,
                    st0,
                    *style,
                    shared_source,
                    x,
                    p,
                ) && st0.props@[p].reflow {
                let (x, p) = choose|x: Entity, p: int|
                    tree.spec_alive(x) && (#[trigger] x.index) as int == e2
                        && #[trigger] spec_pass_changed(
                        *tree,
                        st0,
                        *style,
                        shared_source,
                        x,
                        p,
                    ) && st0.props@[p].reflow;
                assert(order@.contains(x));
                let k2 = choose|k2: int| 0 <= k2 < order@.len() && order@[k2] == x;
                assert(0 <= k2 < order.len() && order@[k2].index as int == e2
                    && spec_pass_changed(*tree, st0, *style, shared_source, order@[k2], p)
                    && st0.props@[p].reflow);
            } else {
                if exists|k2: int, p: int|
                    0 <= k2 < order.len() && (#[trigger] order@[k2]).index as int == e2
                        && #[trigger] spec_pass_changed(
                        *tree,
                        st0,
                        *style,
                        shared_source,
                        order@[k2],
                        p,
                    ) && st0.props@[p].reflow {
                    let (k2, p) = choose|k2: int, p: int|
                        0 <= k2 < order.len() && (#[trigger] order@[k2]).index as int == e2
                            && #[trigger] spec_pass_changed(
                            *tree,
                            st0,
                            *style,
                            shared_source,
                            order@[k2],
                            p,
                        ) && st0.props@[p].reflow;
                    assert(tree.spec_alive(order@[k2]));
                    assert(false);
                }
            }
        }
        assert forall|x: Entity, p: int|
            tree.spec_alive(x) && #[trigger] spec_pass_changed(
                *tree,
                st0,
                *style,
                shared_source,
                x,
                p,
            ) && !st0.props@[p].reflow implies redraw_entities@.contains(x) by {
            assert(order@.contains(x));
            let k2 = choose|k2: int| 0 <= k2 < order@.len() && order@[k2] == x;
            assert(spec_pass_changed(*tree, st0, *style, shared_source, order@[k2], p));
        }
    }
}

/// Link inheritable inline-tier values down the tree: always the first step
/// of a restyle pass, run even when nothing is marked dirty, because a
/// parent's inline change must reach its children without a restyle mark.
pub fn inline_inheritance_system(style: &mut Style, tree: &Tree, redraw_entities: &mut Vec<Entity>)
    requires
        old(style).wf(),
        tree.wf(),
    ensures
        final(style).wf(),
        final(style).props@ == old(style).props@,
        final(style).rules@ == old(style).rules@,
        final(style).rules_position_independent == old(style).rules_position_independent,
        final(style).ids == old(style).ids,
        final(style).classes == old(style).classes,
        final(style).pseudo == old(style).pseudo,
        final(style).elements == old(style).elements,
        final(style).restyle == old(style).restyle,
        final(style).needs_relayout == old(style).needs_relayout,
        final(style).needs_restyle == old(style).needs_restyle,
        final(style).needs_redraw == old(style).needs_redraw,
        forall|p: int, idx: int| final(style).inline_of(p, idx) == old(style).inline_of(p, idx),
        forall|p: int, idx: int| final(style).shared_of(p, idx) == old(style).shared_of(p, idx),
        forall|e2: int|
            final(style).text_update.spec_get(e2) == old(style).text_update.spec_get(e2)
                || final(style).text_update.spec_get(e2) == Some(true),
        final(redraw_entities)@.len() >= old(redraw_entities)@.len(),
        final(redraw_entities)@.subrange(0, old(redraw_entities)@.len() as int)
            == old(redraw_entities)@,
        forall|p: int, idx: int|
            !(0 <= p < old(style).props.len() && old(style).props@[p].inheritable && old(
                style,
            ).local_of(p, idx) is None) ==> #[trigger] final(style).inherited_of(p, idx) == old(
                style,
            ).inherited_of(p, idx),
        forall|x: Entity, p: int|
            tree.spec_alive(x) && tree.spec_layout_parent(x) is None
                ==> #[trigger] final(style).inherited_of(p, (#[trigger] x.index) as int) == old(
                style,
            ).inherited_of(p, x.index as int),
        forall|p: int, idx: int|
            (forall|x: Entity| tree.spec_alive(x) ==> (#[trigger] x.index) as int != idx)
                ==> #[trigger] final(style).inherited_of(p, idx) == old(style).inherited_of(
                p,
                idx,
            ),
        forall|e2: int|
            final(style).text_update.spec_get(e2) == (if exists|x: Entity, p: int|
                tree.spec_alive(x) && (#[trigger] x.index) as int == e2 && #[trigger] spec_pass_changed(
                    *tree,
                    *old(style),
                    *final(style),
                    false,
                    x,
                    p,
                ) && old(style).props@[p].reflow {
                Some(true)
            } else {
                old(style).text_update.spec_get(e2)
            }),
        forall|x: Entity, p: int|
            tree.spec_alive(x) && #[trigger] spec_pass_changed(
                *tree,
                *old(style),
                *final(style),
                false,
                x,
                p,
            ) && !old(style).props@[p].reflow ==> final(redraw_entities)@.contains(x),
        forall|j: int|
            old(redraw_entities)@.len() <= j < final(redraw_entities)@.len() ==> tree.spec_alive(
                #[trigger] final(redraw_entities)@[j],
            ) && (exists|p: int|
                spec_pass_changed(
                    *tree,
                    *old(style),
                    *final(style),
                    false,
                    final(redraw_entities)@[j],
                    p,
                ) && !old(style).props@[p].reflow),
        forall|x: Entity|
            tree.spec_alive(x) ==> spec_inherited_ok(*tree, *final(style), false, x),
{
    inherit_pass(style, tree, false, redraw_entities);
}

/// Link inheritable shared-tier values down the tree: the last step of a
/// restyle pass, run only after cascade linking has settled every parent.
pub fn shared_inheritance_system(style: &mut Style, tree: &Tree, redraw_entities: &mut Vec<Entity>)
    requires
        old(style).wf(),
        tree.wf(),
    ensures
        final(style).wf(),
        final(style).props@ == old(style).props@,
        final(style).rules@ == old(style).rules@,
        final(style).rules_position_independent == old(style).rules_position_independent,
        final(style).ids == old(style).ids,
        final(style).classes == old(style).classes,
        final(style).pseudo == old(style).pseudo,
        final(style).elements == old(style).elements,
        final(style).restyle == old(style).restyle,
        final(style).needs_relayout == old(style).needs_relayout,
        final(style).needs_restyle == old(style).needs_restyle,
        final(style).needs_redraw == old(style).needs_redraw,
        forall|p: int, idx: int| final(style).inline_of(p, idx) == old(style).inline_of(p, idx),
        forall|p: int, idx: int| final(style).shared_of(p, idx) == old(style).shared_of(p, idx),
        forall|e2: int|
            final(style).text_update.spec_get(e2) == old(style).text_update.spec_get(e2)
                || final(style).text_update.spec_get(e2) == Some(true),
        final(redraw_entities)@.len() >= old(redraw_entities)@.len(),
        final(redraw_entities)@.subrange(0, old(redraw_entities)@.len() as int)
            == old(redraw_entities)@,
        forall|p: int, idx: int|
            !(0 <= p < old(style).props.len() && old(style).props@[p].inheritable && old(
                style,
            ).local_of(p, idx) is None) ==> #[trigger] final(style).inherited_of(p, idx) == old(
                style,
            ).inherited_of(p, idx),
        forall|x: Entity, p: int|
            tree.spec_alive(x) && tree.spec_layout_parent(x) is None
                ==> #[trigger] final(style).inherited_of(p, (#[trigger] x.index) as int) == old(
                style,
            ).inherited_of(p, x.index as int),
        forall|p: int, idx: int|
            (forall|x: Entity| tree.spec_alive(x) ==> (#[trigger] x.index) as int != idx)
                ==> #[trigger] final(style).inherited_of(p, idx) == old(style).inherited_of(
                p,
                idx,
            ),
        forall|e2: int|
            final(style).text_update.spec_get(e2) == (if exists|x: Entity, p: int|
                tree.spec_alive(x) && (#[trigger] x.index) as int == e2 && #[trigger] spec_pass_changed(
                    *tree,
                    *old(style),
                    *final(style),
                    true,
                    x,
                    p,
                ) && old(style).props@[p].reflow {
                Some(true)
            } else {
                old(style).text_update.spec_get(e2)
            }),
        forall|x: Entity, p: int|
            tree.spec_alive(x) && #[trigger] spec_pass_changed(
                *tree,
                *old(style),
                *final(style),
                true,
                x,
                p,
            ) && !old(style).props@[p].reflow ==> final(redraw_entities)@.contains(x),
        forall|j: int|
            old(redraw_entities)@.len() <= j < final(redraw_entities)@.len() ==> tree.spec_alive(
                #[trigger] final(redraw_entities)@[j],
            ) && (exists|p: int|
                spec_pass_changed(
                    *tree,
                    *old(style),
                    *final(style),
                    true,
                    final(redraw_entities)@[j],
                    p,
                ) && !old(style).props@[p].reflow),
        forall|x: Entity|
            tree.spec_alive(x) ==> spec_inherited_ok(*tree, *final(style), true, x),
{
    inherit_pass(style, tree, true, redraw_entities);
}

/// One cached match result: an entity and the rules it matched, kept for
/// structurally identical later siblings within the same parent group.
pub struct MatchedRulesCache {
    /// The entity the result was computed for.
    pub entity: Entity,
    /// Its matched-rule list.
    pub rules: Vec<MatchedRule>,
}

/// How a restyle pass went: how many entities needed a full selector match
/// and how many were served from the sibling cache.
#[derive(Clone, Copy, PartialEq, Eq, Structural, Debug)]
pub struct RestyleReport {
    /// Entities fully matched against the rule set.
    pub full_matches: usize,
    /// Entities whose matched rules came from a look-alike sibling.
    pub cache_hits: usize,
}

/// Find a cached look-alike of `e`: an entry whose entity carries the same
/// selector-relevant state.
fn find_cache_hit(cache: &Vec<MatchedRulesCache>, e: Entity, style: &Style) -> (r: Option<usize>)
    ensures
        r matches Some(c) ==> c < cache.len() && spec_same_selector_state(
            *style,
            cache@[c as int].entity,
            e,
        ),
{
    let mut c: usize = 0;
    while c < cache.len()
        invariant
            c <= cache.len(),
        decreases cache.len() - c,
    {
        if has_same_selector(cache[c].entity, e, style) {
            return Some(c);
        }
        c = c + 1;
    }
    None
}

/// Copy a matched-rule list.
fn copy_matched(v: &Vec<MatchedRule>) -> (r: Vec<MatchedRule>)
    ensures
        r@ == v@,
{
    let mut r: Vec<MatchedRule> = Vec::new();
    let mut i: usize = 0;
    while i < v.len()
        invariant
            i <= v.len(),
            r@ == v@.subrange(0, i as int),
        decreases v.len() - i,
    {
        r.push(v[i]);
        proof {
            assert(r@ =~= v@.subrange(0, i + 1));
        }
        i = i + 1;
    }
    proof {
        assert(v@.subrange(0, v@.len() as int) =~= v@);
    }
    r
}

/// Compare two optional entities.
fn same_parent(a: Option<Entity>, b: Option<Entity>) -> (r: bool)
    ensures
        r == (a == b),
{
    match (a, b) {
        (Some(x), Some(y)) => x == y,
        (None, None) => true,
        _ => false,
    }
}

/// Run one restyle pass.
///
/// Inline inheritance always runs.  When entities are marked dirty, the
/// pass then walks the tree in breadth order, computes each dirty entity's
/// matched rules -- reusing a look-alike sibling's result when the rule set
/// is position-independent and the entity is neither first nor last among
/// its layout siblings -- links the winning declarations into the shared
/// tier, clears the dirty set, and finally runs shared inheritance.
///
/// The contract pins the outcome: every dirty entity's shared tier afterwards
/// holds exactly what linking its matched-rule list (computed against the
/// pass-start state) yields -- whether or not the cache served it -- no other
/// entity's shared tier moves, and inheritance is settled across the whole
/// tree.
#[verifier::loop_isolation(false)]
pub fn style_system(tree: &Tree, style: &mut Style, redraw_entities: &mut Vec<Entity>) -> (report:
    RestyleReport)
    requires
        old(style).wf(),
        tree.wf(),
    ensures
        final(style).wf(),
        forall|idx: int| final(style).restyle.spec_get(idx) is None,
        final(style).props@ == old(style).props@,
        final(style).rules@ == old(style).rules@,
        final(style).rules_position_independent == old(style).rules_position_independent,
        final(style).ids == old(style).ids,
        final(style).classes == old(style).classes,
        final(style).pseudo == old(style).pseudo,
        final(style).elements == old(style).elements,
        forall|p: int, idx: int| final(style).inline_of(p, idx) == old(style).inline_of(p, idx),
        forall|x: Entity, p: int|
            tree.spec_alive(x) && old(style).restyle.spec_get(x.index as int) is Some && 0 <= p
                < old(style).props.len() ==> final(style).shared_of(p, x.index as int)
                == spec_link_result(
                *old(style),
                spec_matched_rules(*tree, *old(style), x),
                p,
                x.index as int,
            ),
        forall|p: int, idx: int|
            (forall|x: Entity|
                tree.spec_alive(x) && old(style).restyle.spec_get(
                    (#[trigger] x.index) as int,
                ) is Some ==> x.index as int != idx) ==> #[trigger] final(style).shared_of(p, idx)
                == old(style).shared_of(p, idx),
        (exists|idx: int| old(style).restyle.spec_get(idx) is Some) ==> forall|x: Entity|
            tree.spec_alive(x) ==> spec_inherited_ok(*tree, *final(style), true, x),
        (forall|idx: int| old(style).restyle.spec_get(idx) is None) ==> forall|x: Entity|
            tree.spec_alive(x) ==> spec_inherited_ok(*tree, *final(style), false, x),
        forall|p: int, idx: int|
            !(0 <= p < old(style).props.len() && old(style).props@[p].inheritable)
                ==> #[trigger] final(style).inherited_of(p, idx) == old(style).inherited_of(
                p,
                idx,
            ),
        forall|p: int, idx: int|
            (old(style).inline_of(p, idx) is Some || old(style).shared_of(p, idx) is Some)
                ==> #[trigger] final(style).inherited_of(p, idx) == old(style).inherited_of(
                p,
                idx,
            ),
        forall|x: Entity, p: int|
            tree.spec_alive(x) && tree.spec_layout_parent(x) is None
                ==> #[trigger] final(style).inherited_of(p, (#[trigger] x.index) as int) == old(
                style,
            ).inherited_of(p, x.index as int),
        forall|p: int, idx: int|
            (forall|x: Entity| tree.spec_alive(x) ==> (#[trigger] x.index) as int != idx)
                ==> #[trigger] final(style).inherited_of(p, idx) == old(style).inherited_of(
                p,
                idx,
            ),
        final(style).needs_relayout == (old(style).needs_relayout || exists|x: Entity|
            tree.spec_alive(x) && old(style).restyle.spec_get((#[trigger] x.index) as int) is Some
                && spec_link_triggers_relayout(
                *old(style),
                spec_matched_rules(*tree, *old(style), x),
                x.index as int,
            )),
        forall|e2: int|
            final(style).text_update.spec_get(e2) == old(style).text_update.spec_get(e2)
                || final(style).text_update.spec_get(e2) == Some(true),
        forall|x: Entity|
            tree.spec_alive(x) && old(style).restyle.spec_get((#[trigger] x.index) as int) is Some
                && spec_link_triggers_reflow(
                *old(style),
                spec_matched_rules(*tree, *old(style), x),
                x.index as int,
            ) && spec_reflow_target(*tree, *final(style), x) is Some
                ==> final(style).text_update.spec_get(
                (spec_reflow_target(*tree, *final(style), x)->Some_0).index as int,
            ) == Some(true),
        forall|x: Entity|
            tree.spec_alive(x) && old(style).restyle.spec_get((#[trigger] x.index) as int) is Some
                && spec_link_triggers_redraw(
                *old(style),
                spec_matched_rules(*tree, *old(style), x),
                x.index as int,
            ) ==> final(redraw_entities)@.contains(x),
        (forall|idx: int| old(style).restyle.spec_get(idx) is None) ==> forall|x: Entity, p: int|
            tree.spec_alive(x) && #[trigger] spec_pass_changed(
                *tree,
                *old(style),
                *final(style),
                false,
                x,
                p,
            ) && !old(style).props@[p].reflow ==> final(redraw_entities)@.contains(x),
        (forall|idx: int| old(style).restyle.spec_get(idx) is None) ==> forall|e2: int|
            final(style).text_update.spec_get(e2) == (if exists|x: Entity, p: int|
                tree.spec_alive(x) && (#[trigger] x.index) as int == e2 && #[trigger] spec_pass_changed(
                    *tree,
                    *old(style),
                    *final(style),
                    false,
                    x,
                    p,
                ) && old(style).props@[p].reflow {
                Some(true)
            } else {
                old(style).text_update.spec_get(e2)
            }),
        final(redraw_entities)@.len() >= old(redraw_entities)@.len(),
        final(redraw_entities)@.subrange(0, old(redraw_entities)@.len() as int)
            == old(redraw_entities)@,
{
    let ghost st0 = *old(style);
    let ghost redraw0 = old(redraw_entities)@;
    let mut report = RestyleReport { full_matches: 0, cache_hits: 0 };

    inline_inheritance_system(style, tree, redraw_entities);
    let ghost st1 = *style;
    let ghost redraw1 = redraw_entities@;

    if style.restyle.is_empty() {
        proof {
            assert(forall|idx: int| st0.restyle.spec_get(idx) is None);
            assert(redraw_entities@.subrange(0, redraw0.len() as int) == redraw0);
            assert(!(exists|x: Entity|
                tree.spec_alive(x) && st0.restyle.spec_get((#[trigger] x.index) as int) is Some
                    && spec_link_triggers_relayout(
                    st0,
                    spec_matched_rules(*tree, st0, x),
                    x.index as int,
                )));
        }
        return report;
    }

    let order = tree.breadth_order();
    let ghost order0 = order@;
    proof {
        assert(forall|x: Entity| tree.spec_alive(x) ==> order0.contains(x));
    }
    let mut group_parent: Option<Entity> = None;
    let mut cache: Vec<MatchedRulesCache> = Vec::new();
    let mut k: usize = 0;
    while k < order.len()
        invariant
            k <= order.len(),
            style.wf(),
            spec_matching_state_eq(*style, st0),
            style.rules_position_independent == st0.rules_position_independent,
            style.props@ == st0.props@,
            style.restyle == st0.restyle,
            forall|p: int, idx: int| style.inline_of(p, idx) == st0.inline_of(p, idx),
            forall|k2: int|
                0 <= k2 < k && st0.restyle.spec_get(
                    (#[trigger] order@[k2]).index as int,
                ) is Some ==> forall|p: int|
                    0 <= p < st0.props.len() ==> style.shared_of(p, order@[k2].index as int)
                        == spec_link_result(
                        st0,
                        spec_matched_rules(*tree, st0, order@[k2]),
                        p,
                        order@[k2].index as int,
                    ),
            forall|p: int, idx: int|
                (forall|k2: int|
                    0 <= k2 < k && (#[trigger] order@[k2]).index as int == idx
                        ==> st0.restyle.spec_get(idx) is None) ==> #[trigger] style.shared_of(
                    p,
                    idx,
                ) == st0.shared_of(p, idx),
            forall|c: int|
                0 <= c < cache.len() ==> tree.spec_alive((#[trigger] cache@[c]).entity)
                    && cache@[c].rules@ == spec_matched_rules(*tree, st0, cache@[c].entity)
                    && tree.spec_layout_parent(cache@[c].entity) == group_parent,
            report.cache_hits + report.full_matches <= k,
            redraw_entities@.len() >= redraw1.len(),
            redraw_entities@.subrange(0, redraw1.len() as int) == redraw1,
            forall|p: int, idx: int| style.inherited_of(p, idx) == st1.inherited_of(p, idx),
            style.needs_relayout == (st1.needs_relayout || exists|k2: int|
                0 <= k2 < k && st0.restyle.spec_get((#[trigger] order@[k2]).index as int) is Some
                    && spec_link_triggers_relayout(
                    st0,
                    spec_matched_rules(*tree, st0, order@[k2]),
                    order@[k2].index as int,
                )),
            forall|e2: int|
                style.text_update.spec_get(e2) == st1.text_update.spec_get(e2)
                    || style.text_update.spec_get(e2) == Some(true),
            forall|k2: int|
                0 <= k2 < k && st0.restyle.spec_get((#[trigger] order@[k2]).index as int) is Some
                    && spec_link_triggers_reflow(
                    st0,
                    spec_matched_rules(*tree, st0, order@[k2]),
                    order@[k2].index as int,
                ) && spec_reflow_target(*tree, *style, order@[k2]) is Some
                    ==> style.text_update.spec_get(
                    (spec_reflow_target(*tree, *style, order@[k2])->Some_0).index as int,
                ) == Some(true),
            forall|k2: int|
                0 <= k2 < k && st0.restyle.spec_get((#[trigger] order@[k2]).index as int) is Some
                    && spec_link_triggers_redraw(
                    st0,
                    spec_matched_rules(*tree, st0, order@[k2]),
                    order@[k2].index as int,
                ) ==> redraw_entities@.contains(order@[k2]),
        decreases order.len() - k,
    {
        let e = order[k];
        proof {
            assert(tree.spec_alive(e));
        }
        if !style.restyle.contains(e.index) {
            k = k + 1;
            continue ;
        }
        let lp_opt = tree.layout_parent(e);
        if !same_parent(group_parent, lp_opt) {
            group_parent = lp_opt;
            cache = Vec::new();
        }
        let sibs = tree.layout_siblings(e);
        let is_first = sibs.len() > 0 && sibs[0] == e;
        let is_last = sibs.len() > 0 && sibs[sibs.len() - 1] == e;

        let mut matched: Option<Vec<MatchedRule>> = None;
        if style.rules_position_independent && lp_opt.is_some() && !is_first && !is_last {
            match find_cache_hit(&cache, e, style) {
                Some(c) => {
                    proof {
                        let e1 = cache@[c as int].entity;
                        assert(spec_same_selector_state(st0, e1, e)) by {
                            assert(spec_same_selector_state(*style, e1, e));
                            assert forall|cc: Seq<char>|
                                spec_has_class(st0, e1, cc) == spec_has_class(st0, e, cc) by {
                                assert(spec_has_class(*style, e1, cc) == spec_has_class(
                                    *style,
                                    e,
                                    cc,
                                ));
                                assert(spec_has_class(st0, e1, cc) == spec_has_class(
                                    *style,
                                    e1,
                                    cc,
                                ));
                                assert(spec_has_class(st0, e, cc) == spec_has_class(
                                    *style,
                                    e,
                                    cc,
                                ));
                            }
                        }
                        lemma_cache_equivalence(*tree, st0, e1, e);
                        assert(cache@[c as int].rules@ == spec_matched_rules(*tree, st0, e));
                    }
                    matched = Some(copy_matched(&cache[c].rules));
                    proof {
                        assert(report.cache_hits + report.full_matches <= k);
                    }
                    report.cache_hits = report.cache_hits + 1;
                },
                None => {},
            }
        }
        let rules: Vec<MatchedRule> = match matched {
            Some(r) => r,
            None => {
                proof {
                    assert(report.cache_hits + report.full_matches <= k);
                }
                report.full_matches = report.full_matches + 1;
                let r = compute_matched_rules(e, tree, style);
                proof {
                    lemma_matched_rules_agnostic(*tree, *style, st0, e);
                }
                r
            },
        };
        proof {
            assert(rules@ == spec_matched_rules(*tree, st0, e));
            lemma_matched_upto_bounds(*tree, st0, e, st0.rules@, st0.rules@.len() as int);
        }
        cache.push(MatchedRulesCache { entity: e, rules: copy_matched(&rules) });
        let ghost st_pre = *style;
        let ghost st_pre_redraw = redraw_entities@;
        if rules.len() > 0 {
            link_style_data(style, tree, e, &rules, redraw_entities);
        }
        proof {
            // The pre-link shared values at e's slot are still the
            // pass-start ones: no earlier iteration touched this slot.
            assert forall|p: int|
                0 <= p < st0.props.len() implies style.shared_of(p, e.index as int)
                == spec_link_result(
                st0,
                spec_matched_rules(*tree, st0, e),
                p,
                e.index as int,
            ) by {
                assert forall|k2: int|
                    0 <= k2 < k && (#[trigger] order@[k2]).index as int == e.index as int
                        implies st0.restyle.spec_get(e.index as int) is None by {
                    if order@[k2].index == e.index {
                        assert(tree.spec_alive(order@[k2]));
                        assert(order@[k2] == e);
                        assert(order@[k2] != order@[k as int]);
                        assert(false);
                    }
                }
                assert(st_pre.shared_of(p, e.index as int) == st0.shared_of(p, e.index as int));
                if rules.len() > 0 {
                    assert(style.shared_of(p, e.index as int) == spec_link_result(
                        st_pre,
                        rules@,
                        p,
                        e.index as int,
                    ));
                } else {
                    assert(rules@.len() == 0);
                    assert(spec_winning(rules@, st0.rules@, p) is None);
                }
            }
            assert(redraw_entities@.subrange(0, redraw1.len() as int) =~= redraw1);
            // Linking judges changes against pass-start values at e's slot.
            assert forall|p: int|
                #[trigger] spec_link_changed(st_pre, rules@, p, e.index as int)
                == spec_link_changed(st0, rules@, p, e.index as int) by {
                assert(st_pre.shared_of(p, e.index as int) == st0.shared_of(p, e.index as int));
            }
            assert(spec_link_triggers_relayout(st_pre, rules@, e.index as int)
                == spec_link_triggers_relayout(st0, rules@, e.index as int)) by {
                if spec_link_triggers_relayout(st_pre, rules@, e.index as int) {
                    let p = choose|p: int|
                        0 <= p < st_pre.props.len() && (#[trigger] st_pre.props@[p]).relayout
                            && spec_link_changed(st_pre, rules@, p, e.index as int);
                    assert(st0.props@[p].relayout && spec_link_changed(
                        st0,
                        rules@,
                        p,
                        e.index as int,
                    ));
                }
                if spec_link_triggers_relayout(st0, rules@, e.index as int) {
                    let p = choose|p: int|
                        0 <= p < st0.props.len() && (#[trigger] st0.props@[p]).relayout
                            && spec_link_changed(st0, rules@, p, e.index as int);
                    assert(st_pre.props@[p].relayout && spec_link_changed(
                        st_pre,
                        rules@,
                        p,
                        e.index as int,
                    ));
                }
            }
            assert(spec_link_triggers_redraw(st_pre, rules@, e.index as int)
                == spec_link_triggers_redraw(st0, rules@, e.index as int)) by {
                if spec_link_triggers_redraw(st_pre, rules@, e.index as int) {
                    let p = choose|p: int|
                        0 <= p < st_pre.props.len() && (#[trigger] st_pre.props@[p]).redraw
                            && spec_link_changed(st_pre, rules@, p, e.index as int);
                    assert(st0.props@[p].redraw && spec_link_changed(
                        st0,
                        rules@,
                        p,
                        e.index as int,
                    ));
                }
                if spec_link_triggers_redraw(st0, rules@, e.index as int) {
                    let p = choose|p: int|
                        0 <= p < st0.props.len() && (#[trigger] st0.props@[p]).redraw
                            && spec_link_changed(st0, rules@, p, e.index as int);
                    assert(st_pre.props@[p].redraw && spec_link_changed(
                        st_pre,
                        rules@,
                        p,
                        e.index as int,
                    ));
                }
            }
            assert(spec_link_triggers_reflow(st_pre, rules@, e.index as int)
                == spec_link_triggers_reflow(st0, rules@, e.index as int)) by {
                if spec_link_triggers_reflow(st_pre, rules@, e.index as int) {
                    let p = choose|p: int|
                        0 <= p < st_pre.props.len() && (#[trigger] st_pre.props@[p]).reflow
                            && spec_link_changed(st_pre, rules@, p, e.index as int);
                    assert(st0.props@[p].reflow && spec_link_changed(
                        st0,
                        rules@,
                        p,
                        e.index as int,
                    ));
                }
                if spec_link_triggers_reflow(st0, rules@, e.index as int) {
                    let p = choose|p: int|
                        0 <= p < st0.props.len() && (#[trigger] st0.props@[p]).reflow
                            && spec_link_changed(st0, rules@, p, e.index as int);
                    assert(st_pre.props@[p].reflow && spec_link_changed(
                        st_pre,
                        rules@,
                        p,
                        e.index as int,
                    ));
                }
            }
            // Display resolution moved at e's slot only, so reflow targets of
            // everything at e's depth or above are what they were.
            assert forall|idx: int|
                idx != e.index as int implies #[trigger] style.resolved_of(
                crate::style::PROP_DISPLAY as int,
                idx,
            ) == st_pre.resolved_of(crate::style::PROP_DISPLAY as int, idx) by {}
            assert forall|k2: int|
                0 <= k2 < k + 1 && st0.restyle.spec_get(
                    (#[trigger] order@[k2]).index as int,
                ) is Some && spec_link_triggers_reflow(
                    st0,
                    spec_matched_rules(*tree, st0, order@[k2]),
                    order@[k2].index as int,
                ) && spec_reflow_target(*tree, *style, order@[k2]) is Some implies style.text_update.spec_get(
                (spec_reflow_target(*tree, *style, order@[k2])->Some_0).index as int,
            ) == Some(true) by {
                let x = order@[k2];
                assert(tree.spec_alive(x));
                assert forall|a: Entity|
                    tree.spec_alive(a) && (#[trigger] a.index) as int == e.index as int
                    implies tree.depth_of(a) >= tree.depth_of(x) by {
                    assert(a == e);
                }
                lemma_reflow_target_agnostic(
                    *tree,
                    *style,
                    st_pre,
                    x,
                    e.index as int,
                    tree.depth_of(x),
                );
                if k2 < k {
                    assert(spec_reflow_target(*tree, st_pre, x) is Some);
                    let tgt = spec_reflow_target(*tree, st_pre, x)->Some_0;
                    assert(st_pre.text_update.spec_get(tgt.index as int) == Some(true));
                    assert(style.text_update.spec_get(tgt.index as int) == Some(true));
                } else {
                    assert(x == e);
                    assert(rules@.len() > 0) by {
                        if rules@.len() == 0 {
                            assert(!spec_link_triggers_reflow(
                                st0,
                                spec_matched_rules(*tree, st0, e),
                                e.index as int,
                            ));
                        }
                    }
                    assert(spec_link_triggers_reflow(st_pre, rules@, e.index as int));
                    assert(spec_reflow_target(*tree, st_pre, e) is Some);
                    let tgt = spec_reflow_target(*tree, st_pre, e)->Some_0;
                    assert(style.text_update.spec_get(tgt.index as int) == Some(true));
                }
            }
            assert forall|k2: int|
                0 <= k2 < k + 1 && st0.restyle.spec_get(
                    (#[trigger] order@[k2]).index as int,
                ) is Some && spec_link_triggers_redraw(
                    st0,
                    spec_matched_rules(*tree, st0, order@[k2]),
                    order@[k2].index as int,
                ) implies redraw_entities@.contains(order@[k2]) by {
                if k2 < k {
                    let jx = choose|jx: int|
                        0 <= jx < st_pre_redraw.len() && st_pre_redraw[jx] == order@[k2];
                    assert(redraw_entities@[jx] == order@[k2]);
                } else {
                    assert(spec_link_triggers_redraw(st_pre, rules@, e.index as int));
                    assert(redraw_entities@[redraw_entities@.len() - 1] == e);
                }
            }
        }
        k = k + 1;
    }
    let ghost st_after_loop = *style;
    style.restyle.clear();
    proof {
        crate::style::Style::lemma_wf_rules_carry(st0, *style);
    }
    let ghost st_after_clear = *style;
    shared_inheritance_system(style, tree, redraw_entities);
    proof {
        assert(redraw_entities@.subrange(0, redraw0.len() as int) =~= redraw0);
        // Lift the per-position loop facts to all live dirty entities.
        assert forall|x: Entity, p: int|
            tree.spec_alive(x) && st0.restyle.spec_get(x.index as int) is Some && 0 <= p
                < st0.props.len() implies (*style).shared_of(p, x.index as int)
            == spec_link_result(
            st0,
            spec_matched_rules(*tree, st0, x),
            p,
            x.index as int,
        ) by {
            assert(order0.contains(x));
            assert(order@ == order0);
            let k2 = choose|k2: int| 0 <= k2 < order@.len() && order@[k2] == x;
            assert(st0.restyle.spec_get((order@[k2]).index as int) is Some);
            assert(st_after_loop.shared_of(p, x.index as int) == spec_link_result(
                st0,
                spec_matched_rules(*tree, st0, x),
                p,
                x.index as int,
            ));
            assert(st_after_clear.shared_of(p, x.index as int) == st_after_loop.shared_of(
                p,
                x.index as int,
            ));
            assert((*style).shared_of(p, x.index as int) == st_after_clear.shared_of(
                p,
                x.index as int,
            ));
        }
        assert forall|p: int, idx: int|
            (forall|x: Entity|
                tree.spec_alive(x) && st0.restyle.spec_get((#[trigger] x.index) as int) is Some
                    ==> x.index as int != idx) implies #[trigger] (*style).shared_of(p, idx)
            == st0.shared_of(p, idx) by {
            assert forall|k2: int|
                0 <= k2 < order.len() && (#[trigger] order@[k2]).index as int == idx
                    implies st0.restyle.spec_get(idx) is None by {
                assert(tree.spec_alive(order@[k2]));
                if st0.restyle.spec_get(idx) is Some {
                    assert(order@[k2].index as int != idx);
                }
            }
            assert(st_after_loop.shared_of(p, idx) == st0.shared_of(p, idx));
            assert(st_after_clear.shared_of(p, idx) == st_after_loop.shared_of(p, idx));
            assert((*style).shared_of(p, idx) == st_after_clear.shared_of(p, idx));
        }
        // Display never moves outside the linking of each entity's own slot,
        // so every reflow target is stable from link time to the end.
        assert forall|idx2: int|
            true implies #[trigger] (*style).resolved_of(crate::style::PROP_DISPLAY as int, idx2)
            == st_after_loop.resolved_of(crate::style::PROP_DISPLAY as int, idx2) by {
            assert((*style).inherited_of(crate::style::PROP_DISPLAY as int, idx2)
                == st_after_clear.inherited_of(crate::style::PROP_DISPLAY as int, idx2)) by {
                assert(!st_after_clear.props@[crate::style::PROP_DISPLAY as int].inheritable);
            }
        }
        // Inherited tier frames: pass one, the matching phase (which never
        // writes it), and pass two all leave the excluded slots alone.
        assert forall|p: int, idx2: int|
            !(0 <= p < st0.props.len() && st0.props@[p].inheritable) implies #[trigger] (
            *style).inherited_of(p, idx2) == st0.inherited_of(p, idx2) by {
            assert(st1.inherited_of(p, idx2) == st0.inherited_of(p, idx2));
            assert(st_after_loop.inherited_of(p, idx2) == st1.inherited_of(p, idx2));
            assert(st_after_clear.inherited_of(p, idx2) == st_after_loop.inherited_of(p, idx2));
        }
        assert forall|p: int, idx2: int|
            (st0.inline_of(p, idx2) is Some || st0.shared_of(p, idx2) is Some) implies #[trigger] (
            *style).inherited_of(p, idx2) == st0.inherited_of(p, idx2) by {
            assert(st1.inherited_of(p, idx2) == st0.inherited_of(p, idx2));
            assert(st_after_loop.inherited_of(p, idx2) == st1.inherited_of(p, idx2));
            assert(st_after_clear.inherited_of(p, idx2) == st_after_loop.inherited_of(p, idx2));
            if st0.inline_of(p, idx2) is Some {
            } else {
                // A shared value never vanishes: linking keeps or replaces it.
                assert(st_after_clear.shared_of(p, idx2) is Some) by {
                    if forall|x: Entity|
                        tree.spec_alive(x) && st0.restyle.spec_get(
                            (#[trigger] x.index) as int,
                        ) is Some ==> x.index as int != idx2 {
                        assert(st_after_clear.shared_of(p, idx2) == st0.shared_of(p, idx2));
                    } else {
                        let x = choose|x: Entity|
                            tree.spec_alive(x) && st0.restyle.spec_get(
                                (#[trigger] x.index) as int,
                            ) is Some && x.index as int == idx2;
                        if 0 <= p < st0.props.len() {
                            assert((*style).shared_of(p, x.index as int) == spec_link_result(
                                st0,
                                spec_matched_rules(*tree, st0, x),
                                p,
                                x.index as int,
                            ));
                            assert(st_after_clear.shared_of(p, idx2) == (*style).shared_of(
                                p,
                                idx2,
                            ));
                        } else {
                            assert(st_after_clear.shared_of(p, idx2) is None);
                            assert(st0.shared_of(p, idx2) is None);
                        }
                    }
                }
            }
        }
        assert forall|x: Entity, p: int|
            tree.spec_alive(x) && tree.spec_layout_parent(x) is None implies #[trigger] (
            *style).inherited_of(p, (#[trigger] x.index) as int) == st0.inherited_of(
            p,
            x.index as int,
        ) by {
            assert(st1.inherited_of(p, x.index as int) == st0.inherited_of(p, x.index as int));
            assert(st_after_loop.inherited_of(p, x.index as int) == st1.inherited_of(
                p,
                x.index as int,
            ));
            assert(st_after_clear.inherited_of(p, x.index as int) == st_after_loop.inherited_of(
                p,
                x.index as int,
            ));
        }
        assert forall|p: int, idx2: int|
            (forall|x: Entity| tree.spec_alive(x) ==> (#[trigger] x.index) as int != idx2)
                implies #[trigger] (*style).inherited_of(p, idx2) == st0.inherited_of(
                p,
                idx2,
            ) by {
            assert(st1.inherited_of(p, idx2) == st0.inherited_of(p, idx2));
            assert(st_after_loop.inherited_of(p, idx2) == st1.inherited_of(p, idx2));
            assert(st_after_clear.inherited_of(p, idx2) == st_after_loop.inherited_of(p, idx2));
        }
        // The relayout flag: exactly the linking changes raise it.
        assert((*style).needs_relayout == (st0.needs_relayout || exists|x: Entity|
            tree.spec_alive(x) && st0.restyle.spec_get((#[trigger] x.index) as int) is Some
                && spec_link_triggers_relayout(
                st0,
                spec_matched_rules(*tree, st0, x),
                x.index as int,
            ))) by {
            assert((*style).needs_relayout == st_after_loop.needs_relayout);
            if exists|k2: int|
                0 <= k2 < order.len() && st0.restyle.spec_get(
                    (#[trigger] order@[k2]).index as int,
                ) is Some && spec_link_triggers_relayout(
                    st0,
                    spec_matched_rules(*tree, st0, order@[k2]),
                    order@[k2].index as int,
                ) {
                let k2 = choose|k2: int|
                    0 <= k2 < order.len() && st0.restyle.spec_get(
                        (#[trigger] order@[k2]).index as int,
                    ) is Some && spec_link_triggers_relayout(
                        st0,
                        spec_matched_rules(*tree, st0, order@[k2]),
                        order@[k2].index as int,
                    );
                assert(tree.spec_alive(order@[k2]));
            }
            if exists|x: Entity|
                tree.spec_alive(x) && st0.restyle.spec_get((#[trigger] x.index) as int) is Some
                    && spec_link_triggers_relayout(
                    st0,
                    spec_matched_rules(*tree, st0, x),
                    x.index as int,
                ) {
                let x = choose|x: Entity|
                    tree.spec_alive(x) && st0.restyle.spec_get(
                        (#[trigger] x.index) as int,
                    ) is Some && spec_link_triggers_relayout(
                        st0,
                        spec_matched_rules(*tree, st0, x),
                        x.index as int,
                    );
                assert(order0.contains(x));
                let k2 = choose|k2: int| 0 <= k2 < order@.len() && order@[k2] == x;
                assert(st0.restyle.spec_get(order@[k2].index as int) is Some);
            }
        }
        // Reflow and redraw completeness survive the shared pass.
        assert forall|x: Entity|
            tree.spec_alive(x) && st0.restyle.spec_get((#[trigger] x.index) as int) is Some
                && spec_link_triggers_reflow(
                st0,
                spec_matched_rules(*tree, st0, x),
                x.index as int,
            ) && spec_reflow_target(*tree, *style, x) is Some implies (*style).text_update.spec_get(
            (spec_reflow_target(*tree, *style, x)->Some_0).index as int,
        ) == Some(true) by {
            assert(order0.contains(x));
            let k2 = choose|k2: int| 0 <= k2 < order@.len() && order@[k2] == x;
            assert forall|a: Entity|
                tree.spec_alive(a) && (#[trigger] a.index) as int == -1 implies tree.depth_of(a)
                >= tree.depth_of(x) by {}
            lemma_reflow_target_agnostic(*tree, *style, st_after_loop, x, -1, tree.depth_of(x));
            assert(spec_reflow_target(*tree, st_after_loop, x) is Some);
            let tgt = spec_reflow_target(*tree, st_after_loop, x)->Some_0;
            assert(st_after_loop.text_update.spec_get(tgt.index as int) == Some(true));
            assert(st_after_clear.text_update.spec_get(tgt.index as int) == Some(true));
            assert((*style).text_update.spec_get(tgt.index as int) == Some(true));
        }
        assert forall|x: Entity|
            tree.spec_alive(x) && st0.restyle.spec_get((#[trigger] x.index) as int) is Some
                && spec_link_triggers_redraw(
                st0,
                spec_matched_rules(*tree, st0, x),
                x.index as int,
            ) implies redraw_entities@.contains(x) by {
            assert(order0.contains(x));
            let k2 = choose|k2: int| 0 <= k2 < order@.len() && order@[k2] == x;
            assert(st0.restyle.spec_get(order@[k2].index as int) is Some);
        }
        // Text marks only ever appear, never change to anything else.
        assert forall|e2: int|
            (*style).text_update.spec_get(e2) == st0.text_update.spec_get(e2)
                || (*style).text_update.spec_get(e2) == Some(true) by {
            assert(st1.text_update.spec_get(e2) == st0.text_update.spec_get(e2)
                || st1.text_update.spec_get(e2) == Some(true));
            assert(st_after_loop.text_update.spec_get(e2) == st1.text_update.spec_get(e2)
                || st_after_loop.text_update.spec_get(e2) == Some(true));
            assert(st_after_clear.text_update.spec_get(e2) == st_after_loop.text_update.spec_get(
                e2,
            ));
        }
    }
    report
}

} // verus!
