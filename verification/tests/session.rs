//! Invalidation, restyling and the incremental session.
//!
//! A small style engine and a small block layout stand in for the host's. The
//! engine goes by the marks that a restyle leaves in the style plane: it styles
//! an element that is new, that has a hint, or whose snapshot is unused, and
//! goes below an element only where it is told to.
use std::collections::HashMap;
use serval_layout::box_tree::BoxTree;
use serval_layout::cascade::{
    aggregate_damage, apply_interaction, apply_interaction_bits, count_element_subtree,
    damaged_entry_count, interaction_desired, populate_for_elements, reset_damage, resolve_source,
    restyle_for_animation_tick, restyle_for_interaction, restyle_structural,
    restyle_with_snapshots, run_cascade, run_cascade_with_stylist, InteractionState,
    RestyleOutcome, ACTIVE, CHECKED, FOCUS, FOCUS_WITHIN, HOVER, RELAYOUT, RESTYLE_STYLE_ATTRIBUTE,
};
use serval_layout::dom::{Attribute, Dom, NodeId, NodeKind, QualName};
use serval_layout::fragment::{Edges, FragmentPlane, Layout};
use serval_layout::incremental::{
    collect_subtree, element_by_id, establishes_independent_formatting_context, is_in_flow,
    link_fragment_from, link_href_from, plan_roots, Applied, IncrementalLayout,
};
use serval_layout::invalidate::{classify, coalesce, DomMutation, Invalidation};
use serval_layout::matching::{has_class, has_state, next_sibling_element};
use serval_layout::node_map::NodeMap;
use serval_layout::snapshot::build_snapshot_map;
use serval_layout::style_plane::{
    initial_style, ComputedStyle, DisplayOutside, Overflow, Position, Rgba, StyleEntry, StylePlane,
};

const HTML: &str = "http://www.w3.org/1999/xhtml";
const WIDTH: i32 = 800;
/// A change that only moves what is painted.
const RECALCULATE_OVERFLOW: u32 = 0x7;

fn bits(x: f32) -> u32 {
    x.to_bits()
}

fn rgb(r: f32, g: f32, b: f32) -> Rgba {
    Rgba { r: bits(r), g: bits(g), b: bits(b), a: bits(1.0) }
}

fn red() -> Rgba {
    rgb(1.0, 0.0, 0.0)
}

fn green() -> Rgba {
    rgb(0.0, 1.0, 0.0)
}

fn blue() -> Rgba {
    rgb(0.0, 0.0, 1.0)
}

fn black() -> Rgba {
    rgb(0.0, 0.0, 0.0)
}

fn add_attribute(dom: &mut Dom, id: NodeId, local: &str, value: &str) {
    let number = value.parse::<f32>().ok().map(f32::to_bits);
    dom.add_attribute(
        id,
        Attribute { ns: String::new(), local: local.to_string(), value: value.to_string(), number },
    );
}

fn element(dom: &mut Dom, parent: NodeId, local: &str) -> NodeId {
    dom.append_element(parent, QualName { ns: HTML.to_string(), local: local.to_string() })
}

/// `html > body`, and the body.
fn page() -> (Dom, NodeId) {
    let mut dom = Dom::new();
    let root = dom.document();
    let html = element(&mut dom, root, "html");
    let body = element(&mut dom, html, "body");
    (dom, body)
}

// ---------------------------------------------------------------------------
// The style engine
// ---------------------------------------------------------------------------
type Rules = fn(&Dom, &StylePlane, NodeId, &mut ComputedStyle);

/// Where a style keeps the text of `transform`.
const TRANSFORM: usize = 10;

fn damage_between(old: &ComputedStyle, new: &ComputedStyle) -> u32 {
    let moved = |s: &ComputedStyle| s.longhands[TRANSFORM].is_empty();
    if old.width != new.width || old.height != new.height || moved(old) != moved(new) {
        RELAYOUT
    } else if old.longhands != new.longhands {
        RECALCULATE_OVERFLOW
    } else if old.color != new.color {
        0x1
    } else {
        0
    }
}

fn style_subtree(
    dom: &Dom,
    rules: Rules,
    plane: &mut StylePlane,
    node: NodeId,
    changed: &[NodeId],
    above: bool,
) {
    if dom.kind(node) != NodeKind::Element {
        return;
    }
    let mut entry = plane.entries.remove(node).expect("an entry for every element");
    let unused = changed.contains(&node) && !entry.handled_snapshot;
    let fresh = entry.primary.is_none();
    let below = fresh || above || entry.hint & 0x8 != 0 || unused;
    let inline = entry.inline_style.clone();
    let own = below || entry.hint != 0;
    let dirty = entry.dirty_descendants;
    if own {
        let mut style = initial_style();
        style.display_outside = DisplayOutside::Block;
        style.longhands[TRANSFORM] = inline.unwrap_or_default();
        plane.entries.insert(node, StyleEntry { state: entry.state, ..StyleEntry::blank() });
        rules(dom, plane, node, &mut style);
        if let Some(old) = &entry.primary {
            entry.damage |= damage_between(old, &style);
        }
        entry.primary = Some(style);
    }
    entry.hint = 0;
    entry.handled_snapshot = true;
    entry.dirty_descendants = false;
    plane.entries.insert(node, entry);
    if below || dirty {
        for &child in dom.dom_children(node) {
            style_subtree(dom, rules, plane, child, changed, below);
        }
    }
}

/// An engine over some rules; the snapshots are of some nodes.
fn engine<'a>(
    dom: &'a Dom,
    rules: Rules,
    snapshots: Vec<NodeId>,
) -> impl Fn(StylePlane, NodeId, &Vec<(NodeId, u64)>) -> StylePlane + 'a {
    move |mut plane: StylePlane, root: NodeId, states: &Vec<(NodeId, u64)>| {
        let mut changed = snapshots.clone();
        changed.extend(states.iter().map(|(n, _)| *n));
        style_subtree(dom, rules, &mut plane, root, &changed, false);
        plane
    }
}

fn no_marker(_: &StylePlane, _: NodeId) -> Option<ComputedStyle> {
    None
}

fn cascade(dom: &Dom, rules: Rules) -> StylePlane {
    run_cascade_with_stylist(dom, StylePlane::new(), &engine(dom, rules, vec![]), &no_marker)
}

fn color_of(plane: &StylePlane, id: NodeId) -> Rgba {
    plane.primary(id).expect("a styled element").color
}

fn changed_attribute(node: NodeId, local: &str) -> DomMutation<NodeId> {
    DomMutation::AttributeChanged {
        node,
        name: QualName { ns: String::new(), local: local.to_string() },
        old_value: None,
    }
}

// ---------------------------------------------------------------------------
// The layout
// ---------------------------------------------------------------------------
fn edges() -> Edges {
    Edges { left: 0, top: 0, right: 0, bottom: 0 }
}

fn px(x: Option<u32>) -> Option<i32> {
    x.map(|b| f32::from_bits(b) as i32)
}

/// Stacks the boxes of the elements; the margin is the one of every `<p>`.
fn stack(
    dom: &Dom,
    styles: &StylePlane,
    node: NodeId,
    at: i32,
    margin: f32,
    plane: &mut FragmentPlane,
) -> i32 {
    let mut y = 0;
    for &child in dom.dom_children(node) {
        if dom.kind(child) == NodeKind::Element {
            y += stack(dom, styles, child, y, margin, plane);
        }
    }
    let style = styles.primary(node).expect("a styled element");
    let height = px(style.height).unwrap_or(y);
    let m = if dom.named(node, "p") { margin } else { 0.0 };
    let layout = Layout {
        x: 0,
        y: at,
        width: px(style.width).unwrap_or(WIDTH),
        height,
        border: edges(),
        padding: edges(),
        margin_top: bits(m),
        margin_bottom: bits(m),
    };
    plane.insert(node, layout);
    height
}

fn lay_out(dom: &Dom, styles: &StylePlane, root: NodeId, margin: f32) -> FragmentPlane {
    let mut plane = FragmentPlane::new();
    stack(dom, styles, root, 0, margin, &mut plane);
    plane
}

fn lay_out_all(dom: &Dom, styles: &StylePlane, margin: f32) -> FragmentPlane {
    lay_out(dom, styles, dom.dom_children(dom.document())[0], margin)
}

/// The layouts of a tree's boxes, which start at the element of the root's box.
fn layouts(dom: &Dom, styles: &StylePlane, tree: &BoxTree, margin: f32) -> Vec<Layout> {
    let plane = match tree.nodes[tree.root].style {
        Some(top) => lay_out(dom, styles, top, margin),
        None => FragmentPlane::new(),
    };
    let blank = Layout {
        x: 0,
        y: 0,
        width: 0,
        height: 0,
        border: edges(),
        padding: edges(),
        margin_top: 0,
        margin_bottom: 0,
    };
    let mut out = vec![blank; tree.nodes.len()];
    for n in tree.node_map.keys() {
        if let (Some(index), Some(l)) = (tree.node_map.get(n), plane.rect_of(n)) {
            out[*index] = *l;
        }
    }
    out
}

fn session(dom: &Dom, rules: Rules, margin: f32) -> IncrementalLayout {
    IncrementalLayout::new(
        dom,
        vec!["p { }".to_string()],
        WIDTH,
        600,
        &engine(dom, rules, vec![]),
        &no_marker,
        &|styles: &StylePlane, tree: &BoxTree| layouts(dom, styles, tree, margin),
    )
}

fn apply(
    layout: &mut IncrementalLayout,
    dom: &Dom,
    rules: Rules,
    mutations: &[DomMutation<NodeId>],
    margin: f32,
) -> Applied {
    let mut snapshots = Vec::new();
    for m in mutations {
        if let DomMutation::AttributeChanged { node, name, .. } = m {
            if name.local != "style" {
                snapshots.push(*node);
            }
        }
    }
    layout.apply(
        dom,
        mutations,
        &engine(dom, rules, snapshots),
        &no_marker,
        &|styles: &StylePlane, tree: &BoxTree| layouts(dom, styles, tree, margin),
    )
}

// ---------------------------------------------------------------------------
// Invalidation
// ---------------------------------------------------------------------------
fn class_attr() -> QualName {
    QualName { ns: String::new(), local: "class".to_string() }
}

#[test]
fn classify_maps_each_mutation() {
    let one = |m: &DomMutation<u32>| classify(m);
    assert_eq!(
        one(&DomMutation::AttributeChanged { node: 1, name: class_attr(), old_value: None }),
        vec![Invalidation::RestyleSubtree(1)],
    );
    assert_eq!(
        one(&DomMutation::Inserted { node: 2, parent: 3 }),
        vec![Invalidation::RestyleSubtree(3)],
    );
    assert_eq!(
        one(&DomMutation::Removed { node: 4, former_parent: 5 }),
        vec![Invalidation::RestyleSubtree(5)],
    );
    assert_eq!(
        one(&DomMutation::SubtreeReplaced { node: 6 }),
        vec![Invalidation::RestyleSubtree(6)],
    );
    assert_eq!(
        one(&DomMutation::CharacterDataChanged { node: 7 }),
        vec![Invalidation::RelayoutSubtree(7)],
    );
    assert_eq!(
        one(&DomMutation::Moved { node: 8, from_parent: 9, to_parent: 10 }),
        vec![Invalidation::RestyleSubtree(10), Invalidation::RestyleSubtree(9)],
    );
    assert_eq!(
        one(&DomMutation::Moved { node: 8, from_parent: 9, to_parent: 9 }),
        vec![Invalidation::RestyleSubtree(9)],
    );
    assert_eq!(Invalidation::RelayoutSubtree(7).node(), 7);
}

#[test]
fn coalesce_subsumes_descendants() {
    // 0 → 1 → 2 → 3, and 0 → 4
    let parents: HashMap<u32, u32> = [(1, 0), (2, 1), (3, 2), (4, 0)].into_iter().collect();
    let parent_of = |id: u32| parents.get(&id).copied();
    let invs = vec![
        Invalidation::RestyleSubtree(1u32),
        Invalidation::RelayoutSubtree(2),
        Invalidation::RestyleSubtree(3),
        Invalidation::RestyleSubtree(4),
    ];
    let mut nodes: Vec<u32> = coalesce(&invs, parent_of).iter().map(|i| i.node()).collect();
    nodes.sort();
    assert_eq!(nodes, vec![1, 4], "1's descendants subsumed; sibling 4 kept");
}

#[test]
fn coalesce_keeps_stronger_descendant() {
    let parents: HashMap<u32, u32> = [(1, 0)].into_iter().collect();
    let parent_of = |id: u32| parents.get(&id).copied();
    let invs = vec![Invalidation::RelayoutSubtree(0u32), Invalidation::RestyleSubtree(1)];
    assert_eq!(coalesce(&invs, parent_of).len(), 2);
}

#[test]
fn a_repaint_covers_no_descendant() {
    let parent_of = |id: u32| if id == 1 { Some(0) } else { None };
    let invs = vec![Invalidation::RepaintNode(0u32), Invalidation::RepaintNode(1)];
    assert_eq!(coalesce(&invs, parent_of), invs);
    assert!(!Invalidation::RepaintNode(0u32).covers_descendants());
    assert!(Invalidation::RestyleSubtree(0u32).strength() > Invalidation::RelayoutSubtree(0).strength());
    assert_eq!(Invalidation::RestyleSubtree(3u32).lifted_to(4), Invalidation::RestyleSubtree(4));
}

#[test]
fn the_strongest_at_a_node_stays() {
    let alone = |_: u32| None;
    let (restyle, relayout, repaint) = (
        Invalidation::RestyleSubtree(1u32),
        Invalidation::RelayoutSubtree(1),
        Invalidation::RepaintNode(1),
    );
    assert_eq!(coalesce(&[relayout, restyle], alone), vec![restyle]);
    assert_eq!(coalesce(&[restyle, relayout], alone), vec![restyle]);
    assert_eq!(coalesce(&[repaint, relayout, repaint], alone), vec![relayout]);
    assert_eq!(coalesce(&[restyle, restyle], alone), vec![restyle]);
}

#[test]
fn the_order_of_a_batch_does_not_matter() {
    // 0 → 1 → 2, and 0 → 3
    let parents: HashMap<u32, u32> = [(1, 0), (2, 1), (3, 0)].into_iter().collect();
    let parent_of = |id: u32| parents.get(&id).copied();
    let mut batch = vec![
        Invalidation::RelayoutSubtree(1u32),
        Invalidation::RestyleSubtree(2),
        Invalidation::RestyleSubtree(1),
        Invalidation::RepaintNode(3),
        Invalidation::RelayoutSubtree(3),
    ];
    for _ in 0..batch.len() {
        batch.rotate_left(1);
        let mut kept = coalesce(&batch, parent_of);
        kept.sort_by_key(|i| i.node());
        assert_eq!(
            kept,
            vec![Invalidation::RestyleSubtree(1), Invalidation::RelayoutSubtree(3)],
        );
    }
}

// ---------------------------------------------------------------------------
// The cascade
// ---------------------------------------------------------------------------
fn no_rules(_: &Dom, _: &StylePlane, _: NodeId, _: &mut ComputedStyle) {}

#[test]
fn cascade_populates_element_data_for_every_element() {
    let (mut dom, body) = page();
    let p = element(&mut dom, body, "p");
    dom.append_text(p, "Hello".to_string());
    let plane =
        run_cascade(&dom, StylePlane::new(), &[], &engine(&dom, no_rules, vec![]), &no_marker);
    for id in dom.document_order(dom.document()) {
        let styled = plane.get(id).map(|e| e.primary.is_some());
        let want = if dom.kind(id) == NodeKind::Element { Some(true) } else { None };
        assert_eq!(styled, want);
    }
}

#[test]
fn a_second_cascade_keeps_the_entries_it_finds() {
    let (mut dom, body) = page();
    add_attribute(&mut dom, body, "style", "color: red");
    let mut plane = StylePlane::new();
    plane.entries.insert(body, StyleEntry { state: HOVER, ..StyleEntry::blank() });
    populate_for_elements(&dom, &mut plane);
    assert_eq!(plane.get(body).expect("entry").state, HOVER);
    let plane = run_cascade_with_stylist(&dom, plane, &engine(&dom, no_rules, vec![]), &no_marker);
    let entry = plane.get(body).expect("entry");
    assert_eq!(entry.state, HOVER);
    assert_eq!(entry.inline_style.as_deref(), Some("color: red"));
}

#[test]
fn marker_styles_are_kept_for_those_that_have_one() {
    let (mut dom, body) = page();
    let a = element(&mut dom, body, "li");
    let b = element(&mut dom, body, "li");
    let marker = |_: &StylePlane, n: NodeId| {
        if n == a {
            Some(ComputedStyle { color: red(), ..initial_style() })
        } else {
            None
        }
    };
    let plane =
        run_cascade_with_stylist(&dom, StylePlane::new(), &engine(&dom, no_rules, vec![]), &marker);
    assert_eq!(plane.marker_styles.get(a).map(|s| s.color), Some(red()));
    assert!(plane.marker_styles.get(b).is_none());
}

fn checked_rules(dom: &Dom, plane: &StylePlane, id: NodeId, style: &mut ComputedStyle) {
    if dom.named(id, "input") && has_state(plane, id, CHECKED) {
        style.color = red();
    }
}

#[test]
fn checked_attribute_matches_checked_pseudo() {
    let (mut dom, body) = page();
    for checked in [true, false] {
        let input = element(&mut dom, body, "input");
        add_attribute(&mut dom, input, "type", "checkbox");
        if checked {
            add_attribute(&mut dom, input, "checked", "");
        }
    }
    let inputs: Vec<NodeId> =
        dom.document_order(dom.document()).into_iter().filter(|n| dom.named(*n, "input")).collect();
    assert_eq!(inputs.len(), 2);

    let plane = run_cascade(
        &dom,
        StylePlane::new(),
        &["input:checked { color: rgb(255, 0, 0); }"],
        &engine(&dom, checked_rules, vec![]),
        &no_marker,
    );
    let shade = |id| {
        let c = color_of(&plane, id);
        [c.r, c.g, c.b].map(f32::from_bits)
    };
    let checked = shade(inputs[0]);
    let unchecked = shade(inputs[1]);
    assert!(checked[0] > 0.99 && checked[1] < 0.01, "checked input: red, got {checked:?}");
    assert!(unchecked[0] < 0.01, "unchecked input stays default, got {unchecked:?}");

    // What is no input is not checked, and the state goes with the attribute.
    let (mut other, body) = page();
    let p = element(&mut other, body, "p");
    add_attribute(&mut other, p, "checked", "");
    assert_eq!(cascade(&other, no_rules).get(p).map(|e| e.state), Some(0));
    let (mut plain, body) = page();
    element(&mut plain, body, "input");
    element(&mut plain, body, "input");
    let again = run_cascade_with_stylist(
        &plain,
        plane,
        &engine(&plain, checked_rules, vec![]),
        &no_marker,
    );
    assert_eq!(again.get(inputs[0]).map(|e| e.state & CHECKED), Some(0));
}

// ---------------------------------------------------------------------------
// Interaction
// ---------------------------------------------------------------------------
fn hover_rules(dom: &Dom, plane: &StylePlane, id: NodeId, style: &mut ComputedStyle) {
    if dom.named(id, "p") && has_state(plane, id, HOVER) {
        style.color = red();
    }
}

#[test]
fn interaction_hover_drives_restyle() {
    let (mut dom, body) = page();
    let p0 = element(&mut dom, body, "p");
    let p1 = element(&mut dom, body, "p");
    let plane = cascade(&dom, hover_rules);
    assert_eq!(color_of(&plane, p0), black(), "p0 starts non-red");

    let style = engine(&dom, hover_rules, vec![]);
    let hover0 = InteractionState { hovered: Some(p0 as u64), active: None, focused: None };
    let (plane, _) = restyle_for_interaction(&dom, plane, &hover0, &style, &no_marker);
    assert_eq!(color_of(&plane, p0), red(), "hovered p0");
    assert_eq!(color_of(&plane, p1), black(), "p1 stays default");

    let hover1 = InteractionState { hovered: Some(p1 as u64), active: None, focused: None };
    let (plane, outcome) = restyle_for_interaction(&dom, plane, &hover1, &style, &no_marker);
    assert_eq!(color_of(&plane, p1), red(), "now-hovered p1");
    assert_eq!(color_of(&plane, p0), black(), "p0 reverts to default");
    assert!(!outcome.needs_relayout);
    assert_eq!(outcome.damage, 0x1);
}

fn focus_rules(dom: &Dom, plane: &StylePlane, id: NodeId, style: &mut ComputedStyle) {
    if dom.named(id, "div") && has_state(plane, id, FOCUS_WITHIN) {
        style.color = green();
    }
    if dom.named(id, "p") && has_state(plane, id, FOCUS) {
        style.color = red();
    }
}

#[test]
fn interaction_focus_within_walks_ancestors() {
    let (mut dom, body) = page();
    let div = element(&mut dom, body, "div");
    let p = element(&mut dom, div, "p");
    let plane = cascade(&dom, focus_rules);

    let focus = InteractionState { hovered: None, active: None, focused: Some(p as u64) };
    let style = engine(&dom, focus_rules, vec![]);
    let (plane, _) = restyle_for_interaction(&dom, plane, &focus, &style, &no_marker);
    assert_eq!(color_of(&plane, p), red(), "focused <p>");
    assert_eq!(color_of(&plane, div), green(), "ancestor <div>");
    assert!(!has_state(&plane, div, FOCUS), ":focus is the focused element's alone");
}

#[test]
fn an_unchanged_interaction_restyles_nothing() {
    let (mut dom, body) = page();
    let p = element(&mut dom, body, "p");
    let plane = cascade(&dom, hover_rules);
    let state = InteractionState { hovered: Some(p as u64), active: Some(p as u64), focused: None };
    let style = engine(&dom, hover_rules, vec![]);
    let (mut plane, _) = restyle_for_interaction(&dom, plane, &state, &style, &no_marker);
    assert!(has_state(&plane, p, ACTIVE) && has_state(&plane, body, HOVER));
    assert!(apply_interaction(&dom, &mut plane, &state).is_empty());
    let (plane, outcome) = restyle_for_interaction(&dom, plane, &state, &style, &no_marker);
    assert_eq!(outcome, RestyleOutcome::default());
    assert_eq!(color_of(&plane, p), red());
}

#[test]
fn a_source_that_is_gone_is_no_target() {
    let (dom, body) = page();
    assert_eq!(resolve_source(&dom, body as u64), Some(body));
    assert_eq!(resolve_source(&dom, dom.len() as u64), None);
    assert_eq!(resolve_source(&dom, u64::MAX), None);
    let nothing = InteractionState { hovered: Some(u64::MAX), active: None, focused: None };
    assert_eq!(interaction_desired(&dom, &nothing).len(), 0);
}

#[test]
fn states_that_no_interaction_decides_stay() {
    let (mut dom, body) = page();
    let p = element(&mut dom, body, "p");
    let mut plane = StylePlane::new();
    let checked = 1u64 << 8;
    plane.entries.insert(p, StyleEntry { state: checked | FOCUS, ..StyleEntry::blank() });
    let hover = InteractionState { hovered: Some(p as u64), active: None, focused: None };
    let changed = apply_interaction_bits(&mut plane, &interaction_desired(&dom, &hover));
    assert!(changed.contains(&(p, checked | FOCUS)), "with the state before");
    assert!(changed.contains(&(body, 0)), "the pointer is over what is above it too");
    assert_eq!(plane.get(p).expect("entry").state, checked | HOVER);
}

// ---------------------------------------------------------------------------
// Restyling
// ---------------------------------------------------------------------------
fn class_rules(dom: &Dom, _: &StylePlane, id: NodeId, style: &mut ComputedStyle) {
    for (class, color) in [("a", red()), ("b", blue()), ("keep", green())] {
        if has_class(dom, id, class, false) {
            style.color = color;
        }
    }
}

#[test]
fn incremental_restyle_matches_full_recascade_on_class_toggle() {
    let build = |class: &str| {
        let (mut dom, body) = page();
        let p = element(&mut dom, body, "p");
        add_attribute(&mut dom, p, "class", class);
        let span = element(&mut dom, body, "span");
        add_attribute(&mut dom, span, "class", "keep");
        (dom, p, span)
    };
    let (before, p, span) = build("a");
    let plane = cascade(&before, class_rules);
    assert_eq!(color_of(&plane, p), red(), "p starts red");

    let (after, _, _) = build("b");
    let (plane, outcome) = restyle_with_snapshots(
        &after,
        plane,
        &[changed_attribute(p, "class")],
        &engine(&after, class_rules, vec![p]),
        &no_marker,
    );
    let oracle = cascade(&after, class_rules);
    assert_eq!(color_of(&plane, p), color_of(&oracle, p));
    assert_eq!(color_of(&plane, p), blue(), "<p> after a→b");
    assert_eq!(color_of(&plane, span), color_of(&oracle, span));
    assert_eq!(color_of(&plane, span), green(), "<span> stays green");
    assert_eq!(outcome.restyled_elements, 1);
}

fn box_rules(dom: &Dom, _: &StylePlane, id: NodeId, style: &mut ComputedStyle) {
    let boxed = dom.ancestors(id).iter().any(|&a| has_class(dom, a, "box", false));
    if dom.named(id, "p") && boxed {
        style.color = blue();
    }
}

#[test]
fn incremental_restyle_propagates_to_descendants() {
    let build = |class: &str| {
        let (mut dom, body) = page();
        let div = element(&mut dom, body, "div");
        if !class.is_empty() {
            add_attribute(&mut dom, div, "class", class);
        }
        let p = element(&mut dom, div, "p");
        (dom, div, p)
    };
    let (before, div, p) = build("");
    let plane = cascade(&before, box_rules);
    assert_eq!(color_of(&plane, p), black(), "p starts black");

    let (after, _, _) = build("box");
    let (plane, _) = restyle_with_snapshots(
        &after,
        plane,
        &[changed_attribute(div, "class")],
        &engine(&after, box_rules, vec![div]),
        &no_marker,
    );
    assert_eq!(color_of(&plane, p), color_of(&cascade(&after, box_rules), p));
    assert_eq!(color_of(&plane, p), blue(), "descendant <p> via `.box p`");
}

fn state_rules(dom: &Dom, _: &StylePlane, id: NodeId, style: &mut ComputedStyle) {
    if dom.named(id, "p") && dom.attribute(id, "", "data-state") == Some("on") {
        style.color = green();
    }
}

#[test]
fn incremental_restyle_handles_attribute_selectors() {
    let build = |state: &str| {
        let (mut dom, body) = page();
        let p = element(&mut dom, body, "p");
        add_attribute(&mut dom, p, "data-state", state);
        (dom, p)
    };
    let (before, p) = build("off");
    let plane = cascade(&before, state_rules);
    assert_eq!(color_of(&plane, p), black(), "p starts black");

    let (after, _) = build("on");
    let (plane, _) = restyle_with_snapshots(
        &after,
        plane,
        &[changed_attribute(p, "data-state")],
        &engine(&after, state_rules, vec![p]),
        &no_marker,
    );
    assert_eq!(color_of(&plane, p), color_of(&cascade(&after, state_rules), p));
    assert_eq!(color_of(&plane, p), green(), "p after data-state→on");
}

fn size_rules(dom: &Dom, _: &StylePlane, id: NodeId, style: &mut ComputedStyle) {
    for (class, color) in [("red", red()), ("blue", blue())] {
        if has_class(dom, id, class, false) {
            style.color = color;
        }
    }
    for (class, width) in [("wide", 200.0), ("narrow", 50.0), ("w0", 50.0), ("w1", 200.0)] {
        if has_class(dom, id, class, false) {
            style.width = Some(bits(width));
        }
    }
    if dom.named(id, "p") {
        style.height = Some(bits(20.0));
    }
}

fn classed(class: &str) -> (Dom, NodeId) {
    let (mut dom, body) = page();
    let p = element(&mut dom, body, "p");
    add_attribute(&mut dom, p, "class", class);
    (dom, p)
}

#[test]
fn restyle_outcome_distinguishes_repaint_from_relayout() {
    for (from, to, relayout) in [("red", "blue", false), ("narrow", "wide", true)] {
        let (before, p) = classed(from);
        let plane = cascade(&before, size_rules);
        let (after, _) = classed(to);
        let (plane, outcome) = restyle_with_snapshots(
            &after,
            plane,
            &[changed_attribute(p, "class")],
            &engine(&after, size_rules, vec![p]),
            &no_marker,
        );
        assert_eq!(outcome.needs_relayout, relayout, "{from} to {to}");
        assert_eq!(aggregate_damage(&plane), outcome.damage);
        assert_eq!(damaged_entry_count(&plane), outcome.restyled_elements);
    }
}

#[test]
fn damage_is_a_union_and_can_be_reset() {
    let mut plane = StylePlane::new();
    plane.entries.insert(1, StyleEntry { damage: 0x1, ..StyleEntry::blank() });
    plane.entries.insert(2, StyleEntry { damage: 0x4, ..StyleEntry::blank() });
    plane.entries.insert(3, StyleEntry::blank());
    assert_eq!(aggregate_damage(&plane), 0x5);
    assert_eq!(damaged_entry_count(&plane), 2);
    reset_damage(&mut plane);
    assert_eq!(aggregate_damage(&plane), 0);
    assert_eq!(damaged_entry_count(&plane), 0);
    assert_eq!(plane.entries.len(), 3);
}

#[test]
fn a_structural_restyle_counts_the_elements_below() {
    let (mut dom, body) = page();
    let div = element(&mut dom, body, "div");
    element(&mut dom, div, "p");
    dom.append_text(div, "t".to_string());
    assert_eq!(count_element_subtree(&dom, div), 2);
    assert_eq!(count_element_subtree(&dom, dom.document()), 4);
    let plane = cascade(&dom, no_rules);
    let style = engine(&dom, no_rules, vec![]);
    let (_, outcome) = restyle_structural(&dom, plane, &vec![div], &style, &no_marker);
    assert_eq!(outcome.restyled_elements, 2);
    assert_eq!(outcome.damage, 0);
}

#[test]
fn an_animation_tick_restyles_the_targets() {
    let (mut dom, body) = page();
    let a = element(&mut dom, body, "p");
    let b = element(&mut dom, body, "p");
    let mut plane = cascade(&dom, no_rules);
    for n in [a, b] {
        let mut entry = plane.entries.remove(n).expect("entry");
        entry.primary = Some(ComputedStyle { color: red(), ..initial_style() });
        plane.entries.insert(n, entry);
    }
    let style = engine(&dom, no_rules, vec![]);
    let (plane, _) = restyle_for_animation_tick(&dom, plane, &[a as u64], &style, &no_marker);
    assert_eq!(color_of(&plane, a), black(), "the target is styled again");
    assert_eq!(color_of(&plane, b), red(), "its sibling is not");
}

// ---------------------------------------------------------------------------
// The session
// ---------------------------------------------------------------------------
#[test]
fn color_change_is_repaint_only_and_skips_layout() {
    let (before, p) = classed("red");
    let mut layout = session(&before, size_rules, 0.0);
    let rect_before = *layout.fragments.rect_of(p).expect("p rect");
    assert_eq!(color_of(&layout.styles, p), red(), "p starts red");

    let (after, _) = classed("blue");
    let applied = apply(&mut layout, &after, size_rules, &[changed_attribute(p, "class")], 0.0);
    assert_eq!(applied, Applied::RepaintOnly, "color swap skips layout");
    assert_eq!(color_of(&layout.styles, p), blue(), "p after restyle");
    let rect_after = *layout.fragments.rect_of(p).expect("p rect");
    assert_eq!(rect_before, rect_after, "a color change must not move the box");
}

#[test]
fn width_change_restyles_and_relayouts_matching_full() {
    let (before, p) = classed("narrow");
    let mut layout = session(&before, size_rules, 0.0);
    assert_eq!(layout.fragments.rect_of(p).expect("p rect").width, 50);

    let (after, _) = classed("wide");
    let applied = apply(&mut layout, &after, size_rules, &[changed_attribute(p, "class")], 0.0);
    assert_eq!(applied, Applied::Restyled, "a width change lays out again");

    let oracle = lay_out_all(&after, &cascade(&after, size_rules), 0.0);
    let inc = layout.fragments.rect_of(p).expect("p rect");
    assert_eq!(inc.width, oracle.rect_of(p).expect("p rect").width);
    assert_eq!(inc.width, 200);
}

fn fixed_body_rules(dom: &Dom, _: &StylePlane, id: NodeId, style: &mut ComputedStyle) {
    if dom.named(id, "body") {
        style.height = Some(bits(200.0));
        style.overflow_x = Overflow::Hidden;
        style.overflow_y = Overflow::Hidden;
    }
    if dom.named(id, "p") {
        style.height = Some(bits(20.0));
    }
}

fn paragraphs(n: usize) -> (Dom, NodeId, Vec<NodeId>) {
    let (mut dom, body) = page();
    let ps = (0..n).map(|_| element(&mut dom, body, "p")).collect();
    (dom, body, ps)
}

#[test]
fn structural_change_splices_incrementally() {
    let (before, body, _) = paragraphs(0);
    let mut layout = session(&before, fixed_body_rules, 16.0);
    let (after, _, ps) = paragraphs(1);
    let p = ps[0];
    let muts = [DomMutation::Inserted { node: p, parent: body }];
    assert_eq!(apply(&mut layout, &after, fixed_body_rules, &muts, 16.0), Applied::Spliced);

    let oracle = lay_out_all(&after, &cascade(&after, fixed_body_rules), 16.0);
    let spliced = layout.fragments.rect_of(p).expect("new <p> laid out");
    let full = oracle.rect_of(p).expect("oracle <p>");
    assert_eq!(spliced.y, full.y, "spliced <p> y must match full");
    assert_eq!(spliced.height, full.height, "spliced <p> height must match full");
    assert!(!layout.paint_side_valid);
}

fn open_body_rules(dom: &Dom, _: &StylePlane, id: NodeId, style: &mut ComputedStyle) {
    if dom.named(id, "body") {
        style.height = Some(bits(200.0));
    }
    if dom.named(id, "p") {
        style.height = Some(bits(20.0));
    }
}

#[test]
fn margined_first_child_falls_back_to_full() {
    let (before, body, _) = paragraphs(0);
    let mut layout = session(&before, open_body_rules, 16.0);
    let (after, _, ps) = paragraphs(1);
    let muts = [DomMutation::Inserted { node: ps[0], parent: body }];
    assert_eq!(apply(&mut layout, &after, open_body_rules, &muts, 16.0), Applied::FullRecompute);

    let oracle = lay_out_all(&after, &cascade(&after, open_body_rules), 16.0);
    let got = layout.fragments.rect_of(ps[0]).expect("new <p> laid out");
    assert_eq!(got.y, oracle.rect_of(ps[0]).expect("oracle <p>").y);
    assert!(layout.paint_side_valid);
}

fn div_rules(dom: &Dom, _: &StylePlane, id: NodeId, style: &mut ComputedStyle) {
    if dom.named(id, "div") {
        style.width = Some(bits(50.0));
    }
    if dom.named(id, "p") {
        style.height = Some(bits(20.0));
    }
}

#[test]
fn structural_size_growth_falls_back_to_full() {
    let build = |n: usize| {
        let (mut dom, body) = page();
        let div = element(&mut dom, body, "div");
        let ps: Vec<NodeId> = (0..n).map(|_| element(&mut dom, div, "p")).collect();
        (dom, div, ps)
    };
    let (before, div, _) = build(1);
    let mut layout = session(&before, div_rules, 0.0);
    let (after, _, ps) = build(2);
    let muts = [DomMutation::Inserted { node: ps[1], parent: div }];
    assert_eq!(apply(&mut layout, &after, div_rules, &muts, 0.0), Applied::FullRecompute);
    assert!(layout.fragments.rect_of(ps[1]).is_some(), "new <p> laid out after fallback");
}

fn last_child_rules(dom: &Dom, _: &StylePlane, id: NodeId, style: &mut ComputedStyle) {
    if dom.named(id, "p") && next_sibling_element(dom, id).is_none() {
        style.color = red();
    }
}

#[test]
fn structural_resibling_recolors_existing_via_partial_cascade() {
    let (before, body, ps) = paragraphs(1);
    let mut layout = session(&before, last_child_rules, 0.0);
    assert_eq!(color_of(&layout.styles, ps[0]), red(), "p1 starts red");

    let (after, _, ps) = paragraphs(2);
    let muts = [DomMutation::Inserted { node: ps[1], parent: body }];
    apply(&mut layout, &after, last_child_rules, &muts, 0.0);

    let oracle = cascade(&after, last_child_rules);
    for p in &ps {
        assert_eq!(color_of(&layout.styles, *p), color_of(&oracle, *p));
    }
    assert_eq!(color_of(&layout.styles, ps[0]), black(), "p1 recolored");
    assert_eq!(color_of(&layout.styles, ps[1]), red(), "p2 is now the last child");
}

#[test]
fn inner_html_replace_splices_matching_full() {
    let (before, body, _) = paragraphs(1);
    let mut layout = session(&before, fixed_body_rules, 16.0);
    let (mut after, _) = page();
    let kids: Vec<NodeId> = ["one", "two", "three"]
        .iter()
        .map(|t| {
            let p = element(&mut after, body, "p");
            after.append_text(p, t.to_string());
            p
        })
        .collect();
    let muts = [DomMutation::SubtreeReplaced { node: body }];
    assert_eq!(apply(&mut layout, &after, fixed_body_rules, &muts, 16.0), Applied::Spliced);

    let oracle = lay_out_all(&after, &cascade(&after, fixed_body_rules), 16.0);
    assert_eq!(kids.len(), 3);
    for &p in &kids {
        let c = oracle.rect_of(p).expect("oracle paragraph");
        let i = layout.fragments.rect_of(p).expect("spliced paragraph");
        assert_eq!((c.x, c.y), (i.x, i.y));
    }
}

/// `div.n` boxes with a transform in their `style`.
fn movers(n: usize, transform: &str) -> (Dom, Vec<NodeId>) {
    let (mut dom, body) = page();
    let nodes = (0..n)
        .map(|_| {
            let node = element(&mut dom, body, "div");
            add_attribute(&mut dom, node, "class", "n");
            if !transform.is_empty() {
                add_attribute(&mut dom, node, "style", transform);
            }
            node
        })
        .collect();
    (dom, nodes)
}

fn mover_rules(dom: &Dom, _: &StylePlane, id: NodeId, style: &mut ComputedStyle) {
    if has_class(dom, id, "n", false) {
        style.position = Position::Absolute;
        style.width = Some(bits(80.0));
        style.height = Some(bits(40.0));
    }
    // The transform of a class, as the `style` attribute has it.
    for (class, moved) in [("t1", "1"), ("t2", "2"), ("t3", "3"), ("t4", "4"), ("t0", "0")] {
        if has_class(dom, id, class, false) {
            style.longhands[TRANSFORM] = moved.to_string();
        }
    }
}

fn transformed(n: usize, classes: &str) -> (Dom, Vec<NodeId>) {
    let (mut dom, body) = page();
    let nodes = (0..n)
        .map(|_| {
            let node = element(&mut dom, body, "div");
            add_attribute(&mut dom, node, "class", classes);
            node
        })
        .collect();
    (dom, nodes)
}

fn all_changed(nodes: &[NodeId], local: &str) -> Vec<DomMutation<NodeId>> {
    nodes.iter().map(|&n| changed_attribute(n, local)).collect()
}

#[test]
fn transform_change_is_repaint_only_not_relayout() {
    for n in [200usize, 1000] {
        let (before, nodes) = transformed(n, "n t0");
        let mut layout = session(&before, mover_rules, 0.0);
        let sizes: Vec<(i32, i32)> = nodes
            .iter()
            .map(|&node| {
                let l = layout.fragments.rect_of(node).expect("a box");
                (l.width, l.height)
            })
            .collect();
        for cls in ["n t1", "n t2", "n t3", "n t4"] {
            let (after, _) = transformed(n, cls);
            let muts = all_changed(&nodes, "class");
            let applied = apply(&mut layout, &after, mover_rules, &muts, 0.0);
            assert_eq!(applied, Applied::RepaintOnly, "N={n} {cls}");
            assert_eq!(layout.last_damage & RECALCULATE_OVERFLOW, RECALCULATE_OVERFLOW);
            assert_ne!(layout.last_damage & RELAYOUT, RELAYOUT);
        }
        for (&node, size) in nodes.iter().zip(&sizes) {
            let now = layout.fragments.rect_of(node).expect("a box");
            assert_eq!((now.width, now.height), *size);
        }
    }
}

#[test]
fn sequential_repaint_only_applies_each_re_register() {
    let (before, nodes) = transformed(4, "n t0");
    let mut layout = session(&before, mover_rules, 0.0);
    for cls in ["n t1", "n t2", "n t3"] {
        let (after, _) = transformed(4, cls);
        let muts = all_changed(&nodes, "class");
        assert_eq!(apply(&mut layout, &after, mover_rules, &muts, 0.0), Applied::RepaintOnly);
        assert_eq!(layout.last_damage & RECALCULATE_OVERFLOW, RECALCULATE_OVERFLOW, "{cls}");
    }
}

#[test]
fn width_change_relayouts_control() {
    let (before, nodes) = transformed(8, "n w0");
    let mut layout = session(&before, size_rules, 0.0);
    let (after, _) = transformed(8, "n w1");
    let muts = all_changed(&nodes, "class");
    assert_eq!(apply(&mut layout, &after, size_rules, &muts, 0.0), Applied::Restyled);
    assert_eq!(layout.last_damage & RELAYOUT, RELAYOUT);
}

#[test]
fn inline_style_transform_restyles_repaint_only() {
    let (before, nodes) = movers(1, "transform:translate(1px,1px)");
    let mut layout = session(&before, mover_rules, 0.0);
    for (x, y) in [(40, 40), (90, 15), (5, 70)] {
        let (after, _) = movers(1, &format!("transform:translate({x}px,{y}px)"));
        let muts = all_changed(&nodes, "style");
        assert_eq!(apply(&mut layout, &after, mover_rules, &muts, 0.0), Applied::RepaintOnly);
        assert_eq!(layout.last_damage & RECALCULATE_OVERFLOW, RECALCULATE_OVERFLOW);
        assert_ne!(layout.last_damage & RELAYOUT, RELAYOUT);
    }
}

/// How far a painter moves the boxes to the right by the transforms of their
/// styles; the most of all boxes.
fn translate_x(layout: &IncrementalLayout) -> f32 {
    layout.emit_paint_list(&NodeMap::new(), &|s, _| {
        let sources = s.built.nodes.iter().filter_map(|b| b.style);
        let moved = sources.filter_map(|n| {
            let style = s.styles.primary(n)?;
            let (_, rest) = style.longhands[TRANSFORM].split_once("translate(")?;
            rest.split_once("px")?.0.parse::<f32>().ok()
        });
        moved.fold(f32::MIN, f32::max)
    })
}

fn square_rules(dom: &Dom, _: &StylePlane, id: NodeId, style: &mut ComputedStyle) {
    if dom.named(id, "p") {
        style.width = Some(bits(40.0));
        style.height = Some(bits(40.0));
    }
}

#[test]
fn emit_paint_list_survives_a_repaint_only_transform() {
    let build = |x: u32| {
        let (mut dom, body) = page();
        let p = element(&mut dom, body, "p");
        add_attribute(&mut dom, p, "style", &format!("transform: translate({x}px, 0px)"));
        dom.append_text(p, "hi".to_string());
        (dom, p)
    };
    let (before, p) = build(10);
    let mut layout = session(&before, square_rules, 0.0);
    let painted = |l: &IncrementalLayout| {
        l.emit_paint_list(&NodeMap::new(), &|s, _| {
            let contents = s.built.nodes.iter().filter_map(|b| b.inline_content.as_ref());
            contents.flat_map(|c| c.runs.iter()).map(|r| r.text.clone()).collect::<Vec<_>>()
        })
    };
    assert_eq!(painted(&layout), vec!["hi".to_string()], "paints text initially");
    let (after, _) = build(90);
    let muts = [changed_attribute(p, "style")];
    let applied = apply(&mut layout, &after, square_rules, &muts, 0.0);
    assert_eq!(applied, Applied::RepaintOnly, "a transform-only change is paint-tier");
    assert_eq!(painted(&layout), vec!["hi".to_string()], "still paints the text");
}

#[test]
fn repaint_only_transform_moves_the_emitted_translate() {
    let (before, nodes) = movers(1, "transform:translate(10px,0px)");
    let mut layout = session(&before, mover_rules, 0.0);
    assert_eq!(translate_x(&layout), 10.0, "starts at translate-x 10");
    let (after, _) = movers(1, "transform:translate(90px,0px)");
    let muts = all_changed(&nodes, "style");
    let applied = apply(&mut layout, &after, mover_rules, &muts, 0.0);
    assert_eq!(applied, Applied::RepaintOnly, "a transform-only change is paint-tier");
    assert_eq!(translate_x(&layout), 90.0, "the new translate is painted");
}

#[test]
fn inline_transform_first_application_relayouts_then_repaints() {
    let (before, nodes) = movers(1, "");
    let mut layout = session(&before, mover_rules, 0.0);
    let muts = all_changed(&nodes, "style");
    let (first, _) = movers(1, "transform:translate(10px,10px)");
    assert_eq!(apply(&mut layout, &first, mover_rules, &muts, 0.0), Applied::Restyled);
    let (second, _) = movers(1, "transform:translate(20px,30px)");
    assert_eq!(apply(&mut layout, &second, mover_rules, &muts, 0.0), Applied::RepaintOnly);
}

#[test]
fn sustained_inline_transform_motion_stays_repaint_only() {
    let (before, nodes) = movers(1, "transform:translate(0px,0px)");
    let mut layout = session(&before, mover_rules, 0.0);
    let size = |l: &IncrementalLayout| {
        let r = l.fragments.rect_of(nodes[0]).expect("a box");
        (r.width, r.height)
    };
    let size0 = size(&layout);
    for i in 1..=400u32 {
        let (x, y) = (i % 100, (i * 3) % 100);
        let (after, _) = movers(1, &format!("transform:translate({x}px,{y}px)"));
        let muts = all_changed(&nodes, "style");
        let applied = apply(&mut layout, &after, mover_rules, &muts, 0.0);
        assert_eq!(applied, Applied::RepaintOnly, "frame {i}");
        assert_eq!(layout.last_damage, RECALCULATE_OVERFLOW, "frame {i}");
    }
    assert_eq!(size(&layout), size0, "sustained motion must never resize the box");
}

#[test]
fn a_layout_keeps_the_scroll_in_range() {
    let (before, p) = classed("narrow");
    let mut layout = session(&before, size_rules, 0.0);
    layout.viewport.scroll = (0, 500);
    let muts = [changed_attribute(p, "class")];
    let (red, _) = classed("narrow red");
    assert_eq!(apply(&mut layout, &red, size_rules, &muts, 0.0), Applied::RepaintOnly);
    assert_eq!(layout.viewport_scroll(), (0, 500), "a repaint leaves the window alone");
    let (wide, _) = classed("wide");
    assert_eq!(apply(&mut layout, &wide, size_rules, &muts, 0.0), Applied::Restyled);
    assert_eq!(layout.viewport_scroll(), (0, 0), "the page does not scroll");
    assert!(layout.paint_side_valid && layout.images.is_empty());
    assert!(layout.built.node_map.get(p).is_some());
}

fn root_rules(dom: &Dom, _: &StylePlane, id: NodeId, style: &mut ComputedStyle) {
    if dom.named(id, "p") {
        style.height = Some(bits(2000.0));
    }
    if dom.named(id, "html") && has_class(dom, id, "still", false) {
        style.overflow_x = Overflow::Hidden;
        style.overflow_y = Overflow::Clip;
        style.height = Some(bits(2000.0));
    }
}

#[test]
fn a_root_that_hides_its_overflow_pins_the_window_after_a_relayout() {
    let build = |class: &str| {
        let (mut dom, body) = page();
        element(&mut dom, body, "p");
        let html = dom.dom_children(dom.document())[0];
        add_attribute(&mut dom, html, "class", class);
        (dom, html)
    };
    let (before, html) = build("");
    let mut layout = session(&before, root_rules, 0.0);
    assert!(layout.viewport.scrolls_x && layout.viewport.scrolls_y);
    layout.set_viewport_scroll(&before, (0, 64 * 500));
    assert_eq!(layout.viewport_scroll(), (0, 64 * 500));
    let (after, _) = build("still");
    let muts = [changed_attribute(html, "class")];
    assert_eq!(apply(&mut layout, &after, root_rules, &muts, 0.0), Applied::Restyled);
    assert!(!layout.viewport.scrolls_x && !layout.viewport.scrolls_y);
    assert_eq!(layout.viewport_scroll(), (0, 0));
    assert_eq!((layout.viewport.width, layout.viewport.height), (WIDTH, 600));
}

#[test]
fn a_snapshot_is_of_the_attributes_before_the_batch() {
    let (mut dom, body) = page();
    let p = element(&mut dom, body, "p");
    add_attribute(&mut dom, p, "class", "three");
    add_attribute(&mut dom, p, "title", "t");
    let change = |node, local: &str, old: Option<&str>| DomMutation::AttributeChanged {
        node,
        name: QualName { ns: String::new(), local: local.to_string() },
        old_value: old.map(str::to_string),
    };
    let batch = [
        change(p, "class", Some("one")),
        change(p, "id", Some("i")),
        DomMutation::CharacterDataChanged { node: body },
        change(p, "class", Some("two")),
        change(99, "class", None),
    ];
    let snapshots = build_snapshot_map(&dom, &batch);
    assert_eq!(snapshots.len(), 1, "one element that is there changed");
    let s = snapshots.get(p).expect("a snapshot");
    let value = |local: &str| {
        s.attributes.iter().find(|a| a.local == local).map(|a| a.value.as_str())
    };
    assert_eq!(s.attributes.len(), 3);
    assert_eq!(value("class"), Some("one"), "as before the first change");
    assert_eq!(value("id"), Some("i"), "it was removed");
    assert_eq!(value("title"), Some("t"));
    assert!(s.class_changed && s.id_changed && !s.other_changed);
    assert_eq!(s.changed, vec!["class", "id", "class"]);
    let added = build_snapshot_map(&dom, &[change(p, "title", None)]);
    let s = added.get(p).expect("a snapshot");
    assert!(s.attributes.iter().all(|a| a.local != "title"), "it was not there");
    assert!(s.other_changed && !s.class_changed && !s.id_changed);
}

#[test]
fn no_mutations_change_nothing() {
    let (dom, p) = classed("red");
    let mut layout = session(&dom, size_rules, 0.0);
    assert_eq!(apply(&mut layout, &dom, size_rules, &[], 0.0), Applied::Unchanged);
    assert_eq!(color_of(&layout.styles, p), red());
    assert!(layout.has_sheets(&["p { }"]));
    assert!(!layout.has_sheets(&["p {}"]));
    assert!(!layout.has_sheets(&[]));
}

#[test]
fn a_hint_is_left_for_a_changed_style_attribute() {
    let (dom, nodes) = movers(1, "left:0");
    let plane = cascade(&dom, mover_rules);
    let keep = |plane: StylePlane, _: NodeId, _: &Vec<(NodeId, u64)>| plane;
    let (plane, _) = restyle_with_snapshots(
        &dom,
        plane,
        &[changed_attribute(nodes[0], "style")],
        &keep,
        &no_marker,
    );
    assert_eq!(plane.get(nodes[0]).expect("entry").hint, RESTYLE_STYLE_ATTRIBUTE);
    let body = dom.parent(nodes[0]).expect("a parent");
    assert!(plane.get(body).expect("entry").dirty_descendants);
}

fn section_rules(dom: &Dom, _: &StylePlane, id: NodeId, style: &mut ComputedStyle) {
    if dom.named(id, "section") {
        style.height = Some(bits(100.0));
    }
    if dom.named(id, "p") {
        style.height = Some(bits(20.0));
    }
}

#[test]
fn a_splice_leaves_what_is_beside_it() {
    let build = |n: usize| {
        let (mut dom, body) = page();
        let a = element(&mut dom, body, "section");
        let b = element(&mut dom, body, "section");
        let p = element(&mut dom, b, "p");
        let new: Vec<NodeId> = (1..n).map(|_| element(&mut dom, a, "p")).collect();
        (dom, a, b, p, new)
    };
    let (before, a, b, p, _) = build(1);
    let mut layout = session(&before, section_rules, 0.0);
    let kept = [b, p].map(|n| *layout.fragments.rect_of(n).expect("a box"));
    let (after, _, _, _, new) = build(2);
    let muts = [DomMutation::Inserted { node: new[0], parent: a }];
    assert_eq!(apply(&mut layout, &after, section_rules, &muts, 0.0), Applied::Spliced);
    assert_eq!([b, p].map(|n| *layout.fragments.rect_of(n).expect("a box")), kept);
}

#[test]
fn the_roots_of_a_batch_are_coalesced() {
    let (dom, body, ps) = paragraphs(2);
    let muts = [
        DomMutation::Inserted { node: ps[1], parent: body },
        changed_attribute(ps[0], "class"),
        DomMutation::CharacterDataChanged { node: ps[1] },
    ];
    assert_eq!(plan_roots(&dom, &muts), vec![body]);
    assert_eq!(plan_roots(&dom, &muts[1..]), vec![ps[0], ps[1]]);
    assert_eq!(collect_subtree(&dom, body), vec![body, ps[0], ps[1]]);
}

#[test]
fn a_changed_text_is_laid_out_with_its_element() {
    let build = |text: &str| {
        let (mut dom, body) = page();
        let section = element(&mut dom, body, "section");
        let t = dom.append_text(section, text.to_string());
        (dom, section, t)
    };
    let (before, section, t) = build("one");
    let mut layout = session(&before, section_rules, 0.0);
    let (after, _, _) = build("two");
    let muts = [DomMutation::CharacterDataChanged { node: t }];
    assert_eq!(plan_roots(&after, &muts), vec![section]);
    assert_eq!(apply(&mut layout, &after, section_rules, &muts, 0.0), Applied::Spliced);
    let oracle = lay_out_all(&after, &cascade(&after, section_rules), 0.0);
    assert_eq!(layout.fragments.rect_of(section), oracle.rect_of(section));
    // Two texts of one element come to one root, and so does a text with its element.
    let edited = || DomMutation::CharacterDataChanged { node: t };
    let twice = [edited(), edited(), changed_attribute(section, "class")];
    assert_eq!(plan_roots(&after, &twice), vec![section]);
}

#[test]
fn what_keeps_margins_in() {
    let mut plane = StylePlane::new();
    plane.set_primary(1, initial_style());
    plane.set_primary(2, ComputedStyle { overflow_y: Overflow::Hidden, ..initial_style() });
    plane.set_primary(3, ComputedStyle { position: Position::Absolute, ..initial_style() });
    assert!(!establishes_independent_formatting_context(&plane, 1));
    assert!(establishes_independent_formatting_context(&plane, 2));
    assert!(establishes_independent_formatting_context(&plane, 3));
    assert!(!establishes_independent_formatting_context(&plane, 4));
    assert!(is_in_flow(&plane, 1) && !is_in_flow(&plane, 3));
}

#[test]
fn elements_are_found_by_id_and_links_by_what_was_hit() {
    let (mut dom, body) = page();
    let a = element(&mut dom, body, "a");
    add_attribute(&mut dom, a, "href", "#part");
    let t = dom.append_text(a, "go".to_string());
    let first = element(&mut dom, body, "p");
    let inner = element(&mut dom, first, "i");
    add_attribute(&mut dom, inner, "id", "part");
    let second = element(&mut dom, body, "p");
    add_attribute(&mut dom, second, "id", "part");
    assert_eq!(element_by_id(&dom, "part"), Some(inner), "the first in document order");
    assert_eq!(element_by_id(&dom, "other"), None);
    assert_eq!(link_href_from(&dom, Some(t)).as_deref(), Some("#part"));
    assert_eq!(link_fragment_from(&dom, Some(t)).as_deref(), Some("part"));
    assert_eq!(link_href_from(&dom, Some(first)), None);
    assert_eq!(link_href_from(&dom, None), None);
}
