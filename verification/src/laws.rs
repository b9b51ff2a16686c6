//! The engine's governing laws, stated and proved once over the
//! specification functions that the public contracts use.

use vstd::prelude::*;

use crate::entity::Entity;
use crate::style::Style;
use crate::systems::{
    spec_inherited_ok, spec_link_result, spec_matched_rules, spec_matched_upto, spec_mr_gt,
    spec_insert_desc, MatchedRule,
};
use crate::tree::Tree;

verus! {

/// With inheritance settled (as a restyle pass leaves it), an entity with no
/// value of its own resolves every inheritable property to exactly its
/// layout parent's resolved value -- and hence, along the chain, to its
/// nearest styled ancestor's value.
pub proof fn lemma_inheritable_follows_ancestor(t: Tree, st: Style, x: Entity, p: int)
    requires
        t.wf(),
        st.wf(),
        t.spec_alive(x),
        spec_inherited_ok(t, st, true, x),
        t.spec_layout_parent(x) is Some,
        0 <= p < st.props.len(),
        st.props@[p].inheritable,
        st.local_of(p, x.index as int) is None,
    ensures
        st.resolved_of(p, x.index as int) == st.resolved_of(
            p,
            (t.spec_layout_parent(x)->Some_0).index as int,
        ),
{
    let lp = t.spec_layout_parent(x)->Some_0;
    assert(st.inherited_of(p, x.index as int) == st.visible_of(p, lp.index as int));
}

/// An entity with no matching rule, no inline value, and nothing inherited
/// resolves every property to its declared default.
pub proof fn lemma_unstyled_resolves_to_default(st: Style, x: Entity, p: int)
    requires
        st.wf(),
        0 <= p < st.props.len(),
        st.local_of(p, x.index as int) is None,
        st.inherited_of(p, x.index as int) is None,
    ensures
        st.resolved_of(p, x.index as int) == st.props@[p].default_value,
{
}

/// Linking is idempotent: running the cascade again over the same matched
/// rules, from the state the first run produced, changes nothing.  Together
/// with `compute_matched_rules`' exact contract (its result is a function of
/// the stores alone), re-running a restyle without intervening mutation
/// leaves every resolved value as it was.
pub proof fn lemma_link_idempotent(st1: Style, st2: Style, m: Seq<MatchedRule>, p: int, idx: int)
    requires
        st2.rules@ == st1.rules@,
        st2.shared_of(p, idx) == spec_link_result(st1, m, p, idx),
    ensures
        spec_link_result(st2, m, p, idx) == spec_link_result(st1, m, p, idx),
{
}

/// Matched-rule lists are strictly ordered by the cascade: higher
/// specificity first, and among equal specificities the later-declared rule
/// first.  Since linking takes the first rule in the list that declares a
/// property, the rule declared later wins every specificity tie.
pub proof fn lemma_cascade_order(t: Tree, st: Style, e: Entity)
    ensures
        forall|k1: int, k2: int|
            0 <= k1 < k2 < spec_matched_rules(t, st, e).len() ==> spec_mr_gt(
                #[trigger] spec_matched_rules(t, st, e)[k1],
                #[trigger] spec_matched_rules(t, st, e)[k2],
            ),
{
    assert(st.rules@.len() == st.rules.len());
    lemma_matched_upto_sorted(t, st, e, st.rules@, st.rules@.len() as int);
}

/// On a specificity tie between two matched rules, the one standing earlier
/// in the list -- the one the cascade prefers -- is the one declared later.
pub proof fn lemma_later_rule_wins_ties(t: Tree, st: Style, e: Entity, k1: int, k2: int)
    requires
        0 <= k1 < k2 < spec_matched_rules(t, st, e).len(),
        spec_matched_rules(t, st, e)[k1].specificity == spec_matched_rules(t, st, e)[k2].specificity,
    ensures
        spec_matched_rules(t, st, e)[k1].rule > spec_matched_rules(t, st, e)[k2].rule,
{
    lemma_cascade_order(t, st, e);
    assert(spec_mr_gt(spec_matched_rules(t, st, e)[k1], spec_matched_rules(t, st, e)[k2]));
}

/// Inserting an entry whose rule index is fresh keeps a cascade-sorted list
/// sorted.
proof fn lemma_insert_desc_sorted(m: MatchedRule, s: Seq<MatchedRule>)
    requires
        forall|k1: int, k2: int|
            0 <= k1 < k2 < s.len() ==> spec_mr_gt(#[trigger] s[k1], #[trigger] s[k2]),
        forall|k: int| 0 <= k < s.len() ==> (#[trigger] s[k]).rule != m.rule,
    ensures
        forall|k1: int, k2: int|
            0 <= k1 < k2 < spec_insert_desc(m, s).len() ==> spec_mr_gt(
                #[trigger] spec_insert_desc(m, s)[k1],
                #[trigger] spec_insert_desc(m, s)[k2],
            ),
    decreases s.len(),
{
    if s.len() == 0 {
    } else if spec_mr_gt(m, s[0]) {
        let r = spec_insert_desc(m, s);
        assert(r == seq![m] + s);
        assert forall|k1: int, k2: int|
            0 <= k1 < k2 < r.len() implies spec_mr_gt(#[trigger] r[k1], #[trigger] r[k2]) by {
            if k1 == 0 {
                assert(r[k2] == s[k2 - 1]);
                if k2 > 1 {
                    assert(spec_mr_gt(s[0], s[k2 - 1]));
                }
            } else {
                assert(r[k1] == s[k1 - 1] && r[k2] == s[k2 - 1]);
            }
        }
    } else {
        assert forall|k1: int, k2: int|
            0 <= k1 < k2 < s.drop_first().len() implies spec_mr_gt(
            #[trigger] s.drop_first()[k1],
            #[trigger] s.drop_first()[k2],
        ) by {
            assert(s.drop_first()[k1] == s[k1 + 1] && s.drop_first()[k2] == s[k2 + 1]);
        }
        assert forall|k: int|
            0 <= k < s.drop_first().len() implies (#[trigger] s.drop_first()[k]).rule
            != m.rule by {
            assert(s.drop_first()[k] == s[k + 1]);
        }
        lemma_insert_desc_sorted(m, s.drop_first());
        let inner = spec_insert_desc(m, s.drop_first());
        let r = spec_insert_desc(m, s);
        assert(r == seq![s[0]] + inner);
        // s[0] outranks m (their keys differ) and every original entry.
        assert(s[0].rule != m.rule);
        assert(spec_mr_gt(s[0], m));
        crate::systems::lemma_insert_desc_member(m, s.drop_first());
        assert forall|k1: int, k2: int|
            0 <= k1 < k2 < r.len() implies spec_mr_gt(#[trigger] r[k1], #[trigger] r[k2]) by {
            if k1 == 0 {
                assert(r[k2] == inner[k2 - 1]);
                if inner[k2 - 1] == m {
                } else {
                    let kk = choose|kk: int|
                        0 <= kk < s.drop_first().len() && s.drop_first()[kk] == inner[k2 - 1];
                    assert(s[kk + 1] == inner[k2 - 1]);
                    assert(spec_mr_gt(s[0], s[kk + 1]));
                }
            } else {
                assert(r[k1] == inner[k1 - 1] && r[k2] == inner[k2 - 1]);
            }
        }
    }
}

/// Matched-rule prefixes are cascade-sorted.
proof fn lemma_matched_upto_sorted(
    t: Tree,
    st: Style,
    e: Entity,
    rules: Seq<crate::style::StyleRule>,
    n: int,
)
    requires
        n <= rules.len(),
        rules.len() <= usize::MAX,
    ensures
        forall|k1: int, k2: int|
            0 <= k1 < k2 < spec_matched_upto(t, st, e, rules, n).len() ==> spec_mr_gt(
                #[trigger] spec_matched_upto(t, st, e, rules, n)[k1],
                #[trigger] spec_matched_upto(t, st, e, rules, n)[k2],
            ),
    decreases n,
{
    if n > 0 {
        lemma_matched_upto_sorted(t, st, e, rules, n - 1);
        match crate::systems::spec_first_match(t, st, e, rules[n - 1].selectors@) {
            Some(sp) => {
                crate::systems::lemma_matched_upto_bounds(t, st, e, rules, n - 1);
                let prev = spec_matched_upto(t, st, e, rules, n - 1);
                assert forall|k: int|
                    0 <= k < prev.len() implies (#[trigger] prev[k]).rule != ((n - 1) as usize) by {
                    crate::systems::lemma_matched_upto_bounds(t, st, e, rules, n - 1);
                    assert((spec_matched_upto(t, st, e, rules, n - 1)[k]).rule < n - 1);
                }
                lemma_insert_desc_sorted(
                    MatchedRule { rule: (n - 1) as usize, specificity: sp },
                    prev,
                );
            },
            None => {},
        }
    }
}

} // verus!
