//! End-to-end tests of the style engine: tree shape, selector matching,
//! caching, cascade linking, inheritance, and removal.

use vizia::context::Context;
use vizia::entity::Entity;
use vizia::events::{ContextProxy, Event, EventProxy, Message, ProxyEmitError};
use vizia::selector::{nth_position_matches, Combinator, Compound, PseudoSelector, Selector, StatePseudo};
use vizia::style::{Declaration, PropertyDef, PseudoState, StyleError, StyleRule, DISPLAY_NONE, PROP_DISPLAY};
use vizia::systems::compute_matched_rules;
use vizia::window::{WindowPosition, WindowSize};

const RED: u64 = 0xff0000ff;
const BLUE: u64 = 0x0000ffff;

fn compound() -> Compound {
    Compound { kind: None, id: None, classes: Vec::new(), pseudos: Vec::new() }
}

fn class_compound(c: &str) -> Compound {
    Compound { kind: None, id: None, classes: vec![c.to_string()], pseudos: Vec::new() }
}

fn kind_compound(k: &str) -> Compound {
    Compound { kind: Some(k.to_string()), id: None, classes: Vec::new(), pseudos: Vec::new() }
}

fn simple_selector(part: Compound, specificity: u32) -> Selector {
    Selector { parts: vec![part], combinators: Vec::new(), specificity }
}

fn rule(id: u64, sel: Selector, prop: usize, value: u64) -> StyleRule {
    StyleRule {
        id,
        selectors: vec![sel],
        declarations: vec![Declaration { property: prop, value }],
    }
}

fn paint_prop() -> PropertyDef {
    PropertyDef {
        inheritable: false,
        relayout: false,
        redraw: true,
        reflow: false,
        default_value: 0,
    }
}

fn font_prop() -> PropertyDef {
    PropertyDef {
        inheritable: true,
        relayout: true,
        redraw: true,
        reflow: true,
        default_value: 16,
    }
}

#[test]
fn inline_beats_rule_and_defaults_hold() {
    // Tree: root -> a (class "card") -> grandchild; rule `.card` paints red,
    // an inline override paints blue.  Inline wins on a; the grandchild has
    // no override and no matching rule, and background is not inheritable,
    // so it keeps the declared default.
    let mut cx = Context::new();
    let bg = cx.style.register_property(paint_prop());
    let root = Entity::root();
    let a = cx.create(root, false);
    let grandchild = cx.create(a, false);
    cx.style.set_classes(a.index, vec!["card".to_string()]);
    cx.set_rules(vec![rule(1, simple_selector(class_compound("card"), 10), bg, RED)]).unwrap();
    cx.style.set_inline(bg, a.index, BLUE);
    cx.restyle();
    assert_eq!(cx.resolved(a, bg), BLUE);
    assert_eq!(cx.resolved(grandchild, bg), 0);
    assert_eq!(cx.resolved(root, bg), 0);
}

#[test]
fn later_rule_wins_specificity_tie() {
    let mut cx = Context::new();
    let bg = cx.style.register_property(paint_prop());
    let a = cx.create(Entity::root(), false);
    cx.style.set_classes(a.index, vec!["card".to_string()]);
    cx.set_rules(vec![
        rule(1, simple_selector(class_compound("card"), 10), bg, RED),
        rule(2, simple_selector(class_compound("card"), 10), bg, BLUE),
    ])
    .unwrap();
    cx.restyle();
    assert_eq!(cx.resolved(a, bg), BLUE);
}

#[test]
fn higher_specificity_wins() {
    let mut cx = Context::new();
    let bg = cx.style.register_property(paint_prop());
    let a = cx.create(Entity::root(), false);
    cx.style.set_classes(a.index, vec!["card".to_string()]);
    cx.style.set_id(a.index, "hero".to_string());
    let id_sel = Selector {
        parts: vec![Compound {
            kind: None,
            id: Some("hero".to_string()),
            classes: Vec::new(),
            pseudos: Vec::new(),
        }],
        combinators: Vec::new(),
        specificity: 100,
    };
    cx.set_rules(vec![
        rule(1, id_sel, bg, RED),
        rule(2, simple_selector(class_compound("card"), 10), bg, BLUE),
    ])
    .unwrap();
    cx.restyle();
    assert_eq!(cx.resolved(a, bg), RED);
}

#[test]
fn hundred_siblings_one_full_match_per_shape() {
    // 100 identical labels under one parent: the first and last sibling are
    // matched fully (their positions matter to positional selectors), every
    // middle sibling is served from the cache.
    let mut cx = Context::new();
    let font_size = cx.style.register_property(font_prop());
    let parent = cx.create(Entity::root(), false);
    let mut labels = Vec::new();
    for _ in 0..100 {
        let l = cx.create(parent, false);
        cx.style.set_element(l.index, "label".to_string());
        labels.push(l);
    }
    cx.set_rules(vec![rule(1, simple_selector(kind_compound("label"), 1), font_size, 20)])
        .unwrap();
    let report = cx.restyle();
    assert_eq!(report.cache_hits, 98);
    // Fully matched: root, the parent, and the first and last label.
    assert_eq!(report.full_matches, 4);
    for l in &labels {
        assert_eq!(cx.resolved(*l, font_size), 20);
    }
    // The labels' displayed layout ancestor needs its text re-shaped.
    assert!(cx.style.text_update.get(parent.index).is_some());
    assert!(cx.style.text_update.get(Entity::root().index).is_none());
}

#[test]
fn identical_middle_siblings_match_alike() {
    let mut cx = Context::new();
    let bg = cx.style.register_property(paint_prop());
    let parent = cx.create(Entity::root(), false);
    let mut kids = Vec::new();
    for _ in 0..4 {
        let k = cx.create(parent, false);
        cx.style.set_classes(k.index, vec!["row".to_string()]);
        kids.push(k);
    }
    cx.set_rules(vec![rule(1, simple_selector(class_compound("row"), 10), bg, RED)]).unwrap();
    let m1 = compute_matched_rules(kids[1], &cx.tree, &cx.style);
    let m2 = compute_matched_rules(kids[2], &cx.tree, &cx.style);
    assert_eq!(m1, m2);
    assert!(!m1.is_empty());
}

#[test]
fn nth_child_splits_identical_siblings() {
    // An nth-child selector makes two otherwise identical siblings at
    // different positions receive different matched lists, and disables the
    // sibling cache.
    let mut cx = Context::new();
    let bg = cx.style.register_property(paint_prop());
    let parent = cx.create(Entity::root(), false);
    let mut kids = Vec::new();
    for _ in 0..4 {
        let k = cx.create(parent, false);
        cx.style.set_classes(k.index, vec!["row".to_string()]);
        kids.push(k);
    }
    let sel = Selector {
        parts: vec![Compound {
            kind: None,
            id: None,
            classes: vec!["row".to_string()],
            pseudos: vec![PseudoSelector::NthChild(0, 2)],
        }],
        combinators: Vec::new(),
        specificity: 11,
    };
    cx.set_rules(vec![rule(1, sel, bg, RED)]).unwrap();
    let m1 = compute_matched_rules(kids[1], &cx.tree, &cx.style);
    let m2 = compute_matched_rules(kids[2], &cx.tree, &cx.style);
    assert_ne!(m1, m2);
    let report = cx.restyle();
    assert_eq!(report.cache_hits, 0);
    // kids[1] is the second child (1-based position 2).
    assert_eq!(cx.resolved(kids[1], bg), RED);
    assert_eq!(cx.resolved(kids[2], bg), 0);
}

#[test]
fn matching_and_restyle_are_idempotent() {
    let mut cx = Context::new();
    let bg = cx.style.register_property(paint_prop());
    let font_size = cx.style.register_property(font_prop());
    let a = cx.create(Entity::root(), false);
    let b = cx.create(a, false);
    cx.style.set_classes(a.index, vec!["card".to_string()]);
    cx.set_rules(vec![
        rule(1, simple_selector(class_compound("card"), 10), bg, RED),
        rule(2, simple_selector(class_compound("card"), 10), font_size, 20),
    ])
    .unwrap();
    let m1 = compute_matched_rules(a, &cx.tree, &cx.style);
    let m2 = compute_matched_rules(a, &cx.tree, &cx.style);
    assert_eq!(m1, m2);
    cx.restyle();
    let first = (cx.resolved(a, bg), cx.resolved(a, font_size), cx.resolved(b, font_size));
    // Mark everything dirty again without changing anything else.
    cx.style.mark_restyle(a.index);
    cx.style.mark_restyle(b.index);
    cx.restyle();
    let second = (cx.resolved(a, bg), cx.resolved(a, font_size), cx.resolved(b, font_size));
    assert_eq!(first, second);
}

#[test]
fn inheritable_values_flow_down() {
    let mut cx = Context::new();
    let font_size = cx.style.register_property(font_prop());
    let a = cx.create(Entity::root(), false);
    let b = cx.create(a, false);
    let c = cx.create(b, false);
    cx.style.set_classes(a.index, vec!["card".to_string()]);
    cx.set_rules(vec![rule(1, simple_selector(class_compound("card"), 10), font_size, 24)])
        .unwrap();
    cx.restyle();
    // a gets 24 from the rule; b and c inherit it; the root keeps the default.
    assert_eq!(cx.resolved(a, font_size), 24);
    assert_eq!(cx.resolved(b, font_size), 24);
    assert_eq!(cx.resolved(c, font_size), 24);
    assert_eq!(cx.resolved(Entity::root(), font_size), 16);
}

#[test]
fn inline_values_inherit_without_restyle_marks() {
    let mut cx = Context::new();
    let font_size = cx.style.register_property(font_prop());
    let a = cx.create(Entity::root(), false);
    let b = cx.create(a, false);
    cx.restyle();
    cx.style.set_inline(font_size, a.index, 30);
    cx.restyle();
    assert_eq!(cx.resolved(a, font_size), 30);
    assert_eq!(cx.resolved(b, font_size), 30);
}

#[test]
fn removal_prunes_every_table() {
    let mut cx = Context::new();
    let bg = cx.style.register_property(paint_prop());
    let a = cx.create(Entity::root(), false);
    let b = cx.create(a, false);
    cx.style.set_inline(bg, b.index, RED);
    cx.style.set_id(b.index, "inner".to_string());
    cx.style.set_classes(b.index, vec!["row".to_string()]);
    cx.style.set_element(b.index, "label".to_string());
    cx.remove(a);
    // The whole subtree is dead, and every side table forgot it.
    assert!(!cx.tree.alive(a));
    assert!(!cx.tree.alive(b));
    assert!(cx.style.inline[bg].get(b.index).is_none());
    assert!(cx.style.ids.get(b.index).is_none());
    assert!(cx.style.classes.get(b.index).is_none());
    assert!(cx.style.elements.get(b.index as u64).is_none());
    assert!(cx.style.restyle.get(b.index).is_none());
    assert!(cx.tree.alive(Entity::root()));
}

#[test]
fn slot_reuse_gets_a_new_generation() {
    let mut cx = Context::new();
    let a = cx.create(Entity::root(), false);
    cx.remove(a);
    let b = cx.create(Entity::root(), false);
    assert_eq!(a.index, b.index);
    assert_ne!(a.generation, b.generation);
    assert!(!cx.tree.alive(a));
    assert!(cx.tree.alive(b));
}

#[test]
fn unsupported_selector_rejected_whole() {
    let mut cx = Context::new();
    let bg = cx.style.register_property(paint_prop());
    let a = cx.create(Entity::root(), false);
    cx.style.set_classes(a.index, vec!["card".to_string()]);
    cx.set_rules(vec![rule(1, simple_selector(class_compound("card"), 10), bg, RED)]).unwrap();
    cx.restyle();
    assert_eq!(cx.resolved(a, bg), RED);
    // A rule set with an unimplemented pseudo-class is refused whole; the
    // previous rules stay in effect.
    let bad = Selector {
        parts: vec![Compound {
            kind: None,
            id: None,
            classes: Vec::new(),
            pseudos: vec![PseudoSelector::Lang("en".to_string())],
        }],
        combinators: Vec::new(),
        specificity: 10,
    };
    let err = cx.set_rules(vec![
        rule(1, simple_selector(class_compound("card"), 10), bg, BLUE),
        rule(2, bad, bg, BLUE),
    ]);
    assert_eq!(err, Err(StyleError::UnsupportedSelector { rule: 1, selector: 0 }));
    cx.restyle();
    assert_eq!(cx.resolved(a, bg), RED);
}

#[test]
fn malformed_selector_rejected() {
    let mut cx = Context::new();
    let bg = cx.style.register_property(paint_prop());
    let broken = Selector {
        parts: vec![compound()],
        combinators: vec![Combinator::Child],
        specificity: 0,
    };
    let err = cx.set_rules(vec![rule(1, broken, bg, RED)]);
    assert_eq!(err, Err(StyleError::MalformedSelector { rule: 0, selector: 0 }));
}

#[test]
fn descendant_and_child_combinators_walk_layout_ancestry() {
    let mut cx = Context::new();
    let bg = cx.style.register_property(paint_prop());
    let a = cx.create(Entity::root(), false);
    cx.style.set_classes(a.index, vec!["card".to_string()]);
    let b = cx.create(a, false);
    let c = cx.create(b, false);
    cx.style.set_element(c.index, "label".to_string());
    // `.card label` -- descendant; parts are stored subject first.
    let descendant = Selector {
        parts: vec![kind_compound("label"), class_compound("card")],
        combinators: vec![Combinator::Descendant],
        specificity: 11,
    };
    // `.card > label` -- child; c's layout parent is b, not a.
    let child = Selector {
        parts: vec![kind_compound("label"), class_compound("card")],
        combinators: vec![Combinator::Child],
        specificity: 11,
    };
    assert!(vizia::matcher::matches(c, &descendant, &cx.tree, &cx.style));
    assert!(!vizia::matcher::matches(c, &child, &cx.tree, &cx.style));
    assert!(vizia::matcher::matches(b, &child, &cx.tree, &cx.style) == false);
}

#[test]
fn ignored_wrappers_are_transparent() {
    // root -> [a, w (ignored) -> [b, c], d]: the layout children of the root
    // are a, b, c, d, so c sits at 1-based position 3.
    let mut cx = Context::new();
    let bg = cx.style.register_property(paint_prop());
    let root = Entity::root();
    let a = cx.create(root, false);
    let w = cx.create(root, true);
    let b = cx.create(w, false);
    let c = cx.create(w, false);
    let d = cx.create(root, false);
    let sibs: Vec<Entity> = cx.tree.layout_siblings(a);
    assert_eq!(sibs, vec![a, b, c, d]);
    assert_eq!(cx.tree.layout_parent(b), Some(root));
    let third = Selector {
        parts: vec![Compound {
            kind: None,
            id: None,
            classes: Vec::new(),
            pseudos: vec![PseudoSelector::NthChild(0, 3)],
        }],
        combinators: Vec::new(),
        specificity: 10,
    };
    cx.set_rules(vec![rule(1, third, bg, RED)]).unwrap();
    cx.restyle();
    assert_eq!(cx.resolved(c, bg), RED);
    assert_eq!(cx.resolved(b, bg), 0);
    assert_eq!(cx.resolved(d, bg), 0);
}

#[test]
fn sibling_combinators_follow_layout_order() {
    let mut cx = Context::new();
    let bg = cx.style.register_property(paint_prop());
    let parent = cx.create(Entity::root(), false);
    let a = cx.create(parent, false);
    let b = cx.create(parent, false);
    let c = cx.create(parent, false);
    cx.style.set_element(a.index, "label".to_string());
    // `label + *`: anything directly after a label.
    let next = Selector {
        parts: vec![compound(), kind_compound("label")],
        combinators: vec![Combinator::NextSibling],
        specificity: 2,
    };
    // `label ~ *`: anything after a label.
    let later = Selector {
        parts: vec![compound(), kind_compound("label")],
        combinators: vec![Combinator::LaterSibling],
        specificity: 2,
    };
    assert!(vizia::matcher::matches(b, &next, &cx.tree, &cx.style));
    assert!(!vizia::matcher::matches(c, &next, &cx.tree, &cx.style));
    assert!(vizia::matcher::matches(c, &later, &cx.tree, &cx.style));
    assert!(!vizia::matcher::matches(a, &later, &cx.tree, &cx.style));
}

#[test]
fn state_pseudo_classes_read_flag_storage() {
    let mut cx = Context::new();
    let bg = cx.style.register_property(paint_prop());
    let a = cx.create(Entity::root(), false);
    let b = cx.create(Entity::root(), false);
    let mut hovered = PseudoState::empty();
    hovered.hover = true;
    cx.style.set_pseudo_state(a.index, hovered);
    let hover_sel = Selector {
        parts: vec![Compound {
            kind: None,
            id: None,
            classes: Vec::new(),
            pseudos: vec![PseudoSelector::State(StatePseudo::Hover)],
        }],
        combinators: Vec::new(),
        specificity: 10,
    };
    cx.set_rules(vec![rule(1, hover_sel, bg, RED)]).unwrap();
    cx.restyle();
    assert_eq!(cx.resolved(a, bg), RED);
    assert_eq!(cx.resolved(b, bg), 0);
}

#[test]
fn display_none_ancestors_skip_reflow_marks() {
    let mut cx = Context::new();
    let font_size = cx.style.register_property(font_prop());
    let hidden = cx.create(Entity::root(), false);
    cx.style.set_inline(PROP_DISPLAY, hidden.index, DISPLAY_NONE);
    let label = cx.create(hidden, false);
    cx.style.set_element(label.index, "label".to_string());
    cx.set_rules(vec![rule(1, simple_selector(kind_compound("label"), 1), font_size, 20)])
        .unwrap();
    cx.restyle();
    // The hidden parent is skipped; the reflow request lands on the root.
    assert!(cx.style.text_update.get(hidden.index).is_none());
    assert!(cx.style.text_update.get(Entity::root().index).is_some());
}

#[test]
fn nth_formula_examples() {
    // an + b over 1-based positions.
    assert!(nth_position_matches(2, 1, 1));
    assert!(!nth_position_matches(2, 1, 2));
    assert!(nth_position_matches(2, 1, 5));
    assert!(nth_position_matches(0, 3, 3));
    assert!(!nth_position_matches(0, 3, 4));
    // -n + 3: the first three positions.
    assert!(nth_position_matches(-1, 3, 2));
    assert!(nth_position_matches(-1, 3, 3));
    assert!(!nth_position_matches(-1, 3, 5));
}

#[test]
fn dirty_set_clears_after_pass() {
    let mut cx = Context::new();
    let a = cx.create(Entity::root(), false);
    assert!(cx.style.restyle.get(a.index).is_some());
    cx.restyle();
    assert!(cx.style.restyle.get(a.index).is_none());
}

#[test]
fn emit_queues_events() {
    let mut cx = Context::new();
    cx.emit(Message { kind: 7, value: 9 });
    let target = cx.create(Entity::root(), false);
    cx.emit_to(target, Message { kind: 8, value: 10 });
    assert_eq!(cx.event_queue.len(), 2);
    assert_eq!(cx.event_queue[0].message.kind, 7);
    assert_eq!(cx.event_queue[1].target, target);
}

struct OpenLoop;

impl EventProxy for OpenLoop {
    fn send(&self, _event: Event) -> Result<(), ()> {
        Ok(())
    }
}

struct ClosedLoop;

impl EventProxy for ClosedLoop {
    fn send(&self, _event: Event) -> Result<(), ()> {
        Err(())
    }
}

#[test]
fn context_proxy_reports_missing_and_closed_loops() {
    let mut with_proxy =
        ContextProxy { current: Entity::root(), event_proxy: Some(OpenLoop) };
    assert_eq!(with_proxy.emit(Message { kind: 1, value: 2 }), Ok(()));
    assert_eq!(with_proxy.redraw(), Ok(()));
    let mut closed =
        ContextProxy { current: Entity::root(), event_proxy: Some(ClosedLoop) };
    assert_eq!(closed.emit(Message { kind: 1, value: 2 }), Err(ProxyEmitError::EventLoopClosed));
    let mut none: ContextProxy<OpenLoop> =
        ContextProxy { current: Entity::root(), event_proxy: None };
    assert_eq!(
        none.emit_to(Entity::root(), Message { kind: 1, value: 2 }),
        Err(ProxyEmitError::Unsupported)
    );
    assert!(ProxyEmitError::Unsupported.message().contains("proxying"));
}

#[test]
fn window_geometry_constructors() {
    let s = WindowSize::new(800, 600);
    assert_eq!((s.width, s.height), (800, 600));
    let p = WindowPosition::new(20, 40);
    assert_eq!((p.x, p.y), (20, 40));
}

#[test]
fn remove_trailing_children_truncates() {
    let mut cx = Context::new();
    let parent = cx.create(Entity::root(), false);
    let kept = cx.create(parent, false);
    let dropped1 = cx.create(parent, false);
    let dropped2 = cx.create(parent, false);
    cx.current = parent;
    cx.count = 1;
    cx.remove_trailing_children();
    assert!(cx.tree.alive(kept));
    assert!(!cx.tree.alive(dropped1));
    assert!(!cx.tree.alive(dropped2));
}

#[test]
fn model_data_found_on_nearest_ancestor() {
    const THEME_TAG: u64 = 42;
    let mut cx = Context::new();
    let a = cx.create(Entity::root(), false);
    let b = cx.create(a, false);
    let c = cx.create(b, false);
    cx.bind_model(a, THEME_TAG, 7);
    assert_eq!(cx.data(c, THEME_TAG), Some(7));
    assert_eq!(cx.data(a, THEME_TAG), Some(7));
    assert_eq!(cx.data(Entity::root(), THEME_TAG), None);
    // A nearer binding shadows the ancestor's.
    cx.bind_model(b, THEME_TAG, 9);
    assert_eq!(cx.data(c, THEME_TAG), Some(9));
    assert_eq!(cx.data(a, THEME_TAG), Some(7));
}

#[test]
fn model_data_dies_with_its_entity() {
    const TAG: u64 = 5;
    let mut cx = Context::new();
    let a = cx.create(Entity::root(), false);
    let b = cx.create(a, false);
    cx.bind_model(b, TAG, 1);
    cx.remove(a);
    let reused = cx.create(Entity::root(), false);
    // The new entity reuses b's slot but sees none of the old data.
    assert_eq!(reused.index, b.index);
    assert_eq!(cx.data(reused, TAG), None);
}

#[test]
fn try_matches_rejects_unsupported_selectors() {
    let mut cx = Context::new();
    let a = cx.create(Entity::root(), false);
    let bad = Selector {
        parts: vec![Compound {
            kind: None,
            id: None,
            classes: Vec::new(),
            pseudos: vec![PseudoSelector::Custom("fancy".to_string())],
        }],
        combinators: Vec::new(),
        specificity: 10,
    };
    assert!(vizia::matcher::try_matches(a, &bad, &cx.tree, &cx.style).is_err());
    let fine = simple_selector(compound(), 0);
    assert_eq!(vizia::matcher::try_matches(a, &fine, &cx.tree, &cx.style), Ok(true));
}

#[test]
fn same_selector_state_requires_equal_class_sets() {
    let mut cx = Context::new();
    let a = cx.create(Entity::root(), false);
    let b = cx.create(Entity::root(), false);
    let c = cx.create(Entity::root(), false);
    cx.style.set_classes(a.index, vec!["x".to_string(), "y".to_string()]);
    cx.style.set_classes(b.index, vec!["y".to_string(), "x".to_string()]);
    cx.style.set_classes(c.index, vec!["x".to_string()]);
    // Order does not matter; membership does.
    assert!(vizia::systems::has_same_selector(a, b, &cx.style));
    assert!(!vizia::systems::has_same_selector(a, c, &cx.style));
}

#[test]
fn remove_children_keeps_the_parent_and_outsiders() {
    let mut cx = Context::new();
    let bg = cx.style.register_property(paint_prop());
    let keeper = cx.create(Entity::root(), false);
    let parent = cx.create(Entity::root(), false);
    let c1 = cx.create(parent, false);
    let c2 = cx.create(parent, false);
    let gc = cx.create(c1, false);
    cx.style.set_inline(bg, keeper.index, RED);
    cx.style.set_inline(bg, parent.index, BLUE);
    cx.remove_children(parent);
    assert!(cx.tree.alive(parent));
    assert!(cx.tree.alive(keeper));
    assert!(!cx.tree.alive(c1));
    assert!(!cx.tree.alive(c2));
    assert!(!cx.tree.alive(gc));
    assert_eq!(cx.tree.children(parent).len(), 0);
    // Outsiders keep their entries; the children's are gone.
    assert_eq!(cx.resolved(keeper, bg), RED);
    assert_eq!(cx.resolved(parent, bg), BLUE);
    assert!(cx.style.inline[bg].get(c1.index).is_none());
}

#[test]
fn removing_the_captured_entity_releases_capture() {
    let mut cx = Context::new();
    let a = cx.create(Entity::root(), false);
    let b = cx.create(Entity::root(), false);
    cx.captured = Some(a);
    cx.remove(b);
    assert_eq!(cx.captured, Some(a));
    cx.remove(a);
    assert_eq!(cx.captured, None);
}

#[test]
fn window_geometry_from_pairs() {
    let s = WindowSize::from((800u32, 600u32));
    assert_eq!((s.width, s.height), (800, 600));
    let p = WindowPosition::from((7u32, 9u32));
    assert_eq!((p.x, p.y), (7, 9));
}
