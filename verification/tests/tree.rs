//! The document tree: navigation, selector matching and the accessibility tree.
use serval_layout::a11y::{accesskit_tree, build_subtree, direct_text, role_for};
use serval_layout::a11y::{AccessNode, Action, Role, Toggled, TreeUpdate};
use serval_layout::adapter::{next_sibling, prev_sibling, NodeRef};
use serval_layout::cascade::{FOCUS, HOVER};
use serval_layout::dom::{Attribute, Dom, NodeId, NodeKind, QualName};
use serval_layout::fragment::{Edges, FragmentPlane, Layout, Rect};
use serval_layout::matching::{
    apply_selector_flags, attr_matches, each_class, first_element_child, handled_snapshot,
    has_class, has_id, has_local_name, has_namespace, has_selector_flags, has_state, is_empty,
    is_root, is_same_type, next_sibling_element, prev_sibling_element,
    relative_selector_search_direction, AttrOperation, AttrOperator,
};
use serval_layout::style_plane::{StyleEntry, StylePlane};

const HTML: &str = "http://www.w3.org/1999/xhtml";
const VOID: [&str; 5] = ["img", "br", "link", "input", "meta"];

fn add_attribute(dom: &mut Dom, id: NodeId, local: &str, value: &str) {
    let number = value.parse::<f32>().ok().map(f32::to_bits);
    dom.add_attribute(
        id,
        Attribute { ns: String::new(), local: local.to_string(), value: value.to_string(), number },
    );
}

fn element(dom: &mut Dom, parent: NodeId, local: &str) -> NodeId {
    dom.append_element(parent, QualName { ns: HTML.to_string(), local: local.to_string() })
}

/// Reads markup in which every element is closed and every value is quoted.
fn parse(html: &str) -> Dom {
    let mut dom = Dom::new();
    let mut open = vec![dom.document()];
    let mut rest = html;
    while !rest.is_empty() {
        let top = *open.last().expect("an open node");
        if let Some(tag) = rest.strip_prefix('<') {
            let end = tag.find('>').expect("a closed tag");
            let (inside, after) = (&tag[..end], &tag[end + 1..]);
            rest = after;
            if inside.starts_with('/') {
                open.pop();
                continue;
            }
            let (name, mut attributes) = inside.split_once(' ').unwrap_or((inside, ""));
            let id = element(&mut dom, top, name);
            while !attributes.trim().is_empty() {
                attributes = attributes.trim_start();
                let bare = attributes.find(' ').unwrap_or(attributes.len());
                match attributes.find('=') {
                    Some(eq) if eq < bare => {
                        let value = &attributes[eq + 2..];
                        let quote = value.find('"').expect("a closing quote");
                        add_attribute(&mut dom, id, &attributes[..eq], &value[..quote]);
                        attributes = &value[quote + 1..];
                    },
                    _ => {
                        add_attribute(&mut dom, id, &attributes[..bare], "");
                        attributes = &attributes[bare..];
                    },
                }
            }
            if !VOID.contains(&name) {
                open.push(id);
            }
        } else {
            let end = rest.find('<').unwrap_or(rest.len());
            dom.append_text(top, rest[..end].to_string());
            rest = &rest[end..];
        }
    }
    dom
}

fn find_all(dom: &Dom, local: &str) -> Vec<NodeId> {
    dom.document_order(dom.document()).into_iter().filter(|&n| dom.named(n, local)).collect()
}

fn find(dom: &Dom, local: &str) -> NodeId {
    find_all(dom, local)[0]
}

fn no_edges() -> Edges {
    Edges { left: 0, top: 0, right: 0, bottom: 0 }
}

fn boxed(x: i32, y: i32, width: i32, height: i32) -> Layout {
    Layout {
        x,
        y,
        width,
        height,
        border: no_edges(),
        padding: no_edges(),
        margin_top: 0,
        margin_bottom: 0,
    }
}

/// Every element at (1, 2) in its parent.
fn fragments_of(dom: &Dom) -> FragmentPlane {
    let mut plane = FragmentPlane::new();
    for n in dom.document_order(dom.document()) {
        if dom.kind(n) == NodeKind::Element {
            plane.insert(n, boxed(1, 2, 30, 40));
        }
    }
    plane
}

fn access(tree: &TreeUpdate, n: NodeId) -> &AccessNode {
    tree.nodes
        .iter()
        .find(|(id, _)| *id == n as u64)
        .map(|(_, node)| node)
        .unwrap_or_else(|| panic!("node missing from the tree"))
}

#[test]
fn dom_maps_to_accessibility_tree() {
    let mut dom = Dom::new();
    let root = dom.document();
    let div = element(&mut dom, root, "div");
    let p = element(&mut dom, div, "p");
    dom.append_text(p, "13".to_string());
    let button = element(&mut dom, div, "button");
    let plus = dom.append_text(button, "+".to_string());

    let fragments = fragments_of(&dom);
    let tree = accesskit_tree(&dom, &fragments, Some(button));

    assert_eq!(tree.root, root as u64);
    assert_eq!(tree.focus, button as u64);

    let root_node = access(&tree, root);
    assert_eq!(root_node.role, Role::Window);
    assert!(root_node.children.contains(&(div as u64)));

    let button_node = access(&tree, button);
    assert_eq!(button_node.role, Role::Button);
    assert_eq!(button_node.label.as_deref(), Some("+"));
    assert_eq!(button_node.bounds, Some(Rect { x0: 2, y0: 4, x1: 32, y1: 44 }));
    assert!(button_node.children.is_empty());

    let p_node = access(&tree, p);
    assert_eq!(p_node.role, Role::Paragraph);
    assert_eq!(p_node.label.as_deref(), Some("13"));

    assert!(tree.nodes.iter().all(|(id, _)| *id != plus as u64));
}

#[test]
fn aria_role_and_checked_reach_the_tree() {
    let mut dom = Dom::new();
    let root = dom.document();
    let div = element(&mut dom, root, "div");
    let radio = element(&mut dom, div, "div");
    add_attribute(&mut dom, radio, "role", "radio");
    add_attribute(&mut dom, radio, "aria-checked", "true");
    let switch = element(&mut dom, div, "button");
    add_attribute(&mut dom, switch, "role", "switch");
    add_attribute(&mut dom, switch, "aria-checked", "false");

    let fragments = fragments_of(&dom);
    let tree = accesskit_tree(&dom, &fragments, None);

    let radio_node = access(&tree, radio);
    assert_eq!(radio_node.role, Role::RadioButton);
    assert_eq!(radio_node.toggled, Some(Toggled::True));

    let switch_node = access(&tree, switch);
    assert_eq!(switch_node.role, Role::Switch);
    assert_eq!(switch_node.toggled, Some(Toggled::False));
}

#[test]
fn serval_lane_view_emits_accessibility_tree() {
    let mut dom = Dom::new();
    let root = dom.document();
    let button = element(&mut dom, root, "button");
    dom.append_text(button, "Go".to_string());

    let fragments = fragments_of(&dom);
    let tree = accesskit_tree(&dom, &fragments, Some(button));
    assert_eq!(tree.focus, button as u64);
    assert!(tree.nodes.iter().any(|(id, node)| *id == button as u64
        && node.role == Role::Button
        && node.label.as_deref() == Some("Go")));
}

#[test]
fn focus_falls_back_to_root() {
    let mut dom = Dom::new();
    let root = dom.document();
    element(&mut dom, root, "div");

    let fragments = fragments_of(&dom);
    let tree = accesskit_tree(&dom, &fragments, None);
    assert_eq!(tree.focus, root as u64);
}

#[test]
fn a_node_without_a_box_has_no_bounds() {
    let dom = parse("<html><body><p>x</p></body></html>");
    let tree = accesskit_tree(&dom, &FragmentPlane::new(), None);
    assert!(tree.nodes.iter().all(|(_, node)| node.bounds.is_none()));
    // One entry for the document and one for each element.
    assert_eq!(tree.nodes.len(), 4);
}

#[test]
fn every_child_in_the_tree_is_listed_once() {
    let dom = parse("<html><body><p>a</p><div><button>b</button></div></body></html>");
    let tree = accesskit_tree(&dom, &fragments_of(&dom), None);
    for (_, node) in &tree.nodes {
        for child in &node.children {
            assert_eq!(tree.nodes.iter().filter(|(id, _)| id == child).count(), 1);
        }
    }
}

#[test]
fn a_subtree_shows_its_actions_and_leaves_out_what_is_skipped() {
    let dom = parse("<html><body><button>go</button><input><p>t</p><div>no</div></body></html>");
    let body = find(&dom, "body");
    let skipped = find(&dom, "div");
    let (nodes, id, actionable) = build_subtree(
        &dom,
        &fragments_of(&dom),
        body,
        &|_: &Dom, n: NodeId| 1000 + n as u64,
        &|_: &Dom, n: NodeId| n == skipped,
    );
    assert_eq!(id, 1000 + body as u64);
    let action_of = |n: NodeId| {
        nodes
            .iter()
            .find(|(have, _)| *have == 1000 + n as u64)
            .map(|(_, node)| node.action)
            .expect("listed")
    };
    let (button, input, p) = (find(&dom, "button"), find(&dom, "input"), find(&dom, "p"));
    assert_eq!(action_of(button), Some(Action::Click));
    assert_eq!(action_of(input), Some(Action::Focus));
    assert_eq!(action_of(p), None);
    assert_eq!(actionable, vec![button, input]);
    assert!(nodes.iter().all(|(have, _)| *have != 1000 + skipped as u64));
}

#[test]
fn roles_and_labels_go_by_name() {
    let dom = parse("<html><body><label>a<b>x</b>b</label><section></section></body></html>");
    let label = find(&dom, "label");
    assert_eq!(role_for(&dom, label), Role::Label);
    assert_eq!(direct_text(&dom, label), "ab");
    assert_eq!(role_for(&dom, find(&dom, "section")), Role::GenericContainer);
    assert_eq!(role_for(&dom, dom.document()), Role::Window);
}

#[test]
fn adapter_walks_a_parsed_document() {
    let document = parse("<html><body><p>Hello</p></body></html>");
    let root = NodeRef::document(&document);
    let body = root.with_id(find(&document, "body"));
    let p = body.with_id(find(&document, "p"));

    let children = p.dom_children();
    let text = children.first().expect("text node under p");
    assert!(matches!(text.kind(), NodeKind::Text));
    assert_eq!(text.dom().text(text.id()), Some("Hello"));
}

#[test]
fn adapter_sibling_navigation() {
    let document = parse("<html><body><p>a</p><p>b</p><p>c</p></body></html>");
    let body = NodeRef::new(&document, find(&document, "body"));
    let ps: Vec<NodeRef> =
        body.dom_children().into_iter().filter(|n| n.dom().named(n.id(), "p")).collect();
    assert_eq!(ps.len(), 3);

    assert!(ps[0].prev_sibling().is_none());
    assert_eq!(ps[1].prev_sibling().map(|n| n.id()), Some(ps[0].id()));
    assert_eq!(ps[1].next_sibling().map(|n| n.id()), Some(ps[2].id()));
    assert!(ps[2].next_sibling().is_none());
}

#[test]
fn adapter_round_trips_parent_child() {
    let document = parse("<html><body><p>x</p></body></html>");
    let root = NodeRef::document(&document);
    let children = root.dom_children();
    let html = children.first().expect("html");
    assert_eq!(html.parent().map(|p| p.id()), Some(root.id()));
    assert_eq!(html.flat_children().len(), 1);
}

#[test]
fn a_step_aside_leads_back() {
    let dom = parse("<ul><li>a</li>text<li>b</li></ul>");
    let ul = find(&dom, "ul");
    let children = dom.dom_children(ul);
    for pair in children.windows(2) {
        assert_eq!(next_sibling(&dom, pair[0]), Some(pair[1]));
        assert_eq!(prev_sibling(&dom, pair[1]), Some(pair[0]));
    }
    assert_eq!(prev_sibling(&dom, dom.document()), None);
    assert_eq!(next_sibling(&dom, dom.document()), None);
}

#[test]
fn root_pseudo_matches_the_document_root_element() {
    let document = parse("<html><body><p>x</p></body></html>");
    assert!(is_root(&document, find(&document, "html")), ":root must match <html>");
    assert!(!is_root(&document, find(&document, "body")));
    assert!(!is_root(&document, find(&document, "p")));
}

#[test]
fn cascade_matches_class_and_id_selectors() {
    let document =
        parse("<html><body><h1 id=\"title\">T</h1><p class=\"highlight\">P</p></body></html>");
    let h1 = find(&document, "h1");
    let p = find(&document, "p");
    assert!(has_class(&document, p, "highlight", false));
    assert!(!has_class(&document, h1, "highlight", false));
    assert!(has_id(&document, h1, "title", false));
    assert!(!has_id(&document, p, "title", false));
}

fn with_value(operator: AttrOperator, ignore_case: bool, value: &str) -> AttrOperation {
    AttrOperation::WithValue { operator, ignore_case, value: value.to_string() }
}

#[test]
fn cascade_matches_attribute_selectors() {
    let document = parse(
        "<html><body><p data-state=\"on\">A</p><p hidden>B</p><p data-state=\"off\">C</p></body></html>",
    );
    let ps = find_all(&document, "p");
    assert_eq!(ps.len(), 3);
    let on = with_value(AttrOperator::Equal, false, "on");
    let green = |n| attr_matches(&document, n, Some(""), "data-state", &on);
    let blue = |n| attr_matches(&document, n, Some(""), "hidden", &AttrOperation::Exists);

    assert!(green(ps[0]), "[data-state=on]");
    assert!(blue(ps[1]), "[hidden]");
    assert!(!green(ps[2]) && !blue(ps[2]), "data-state=off matches neither rule");
}

#[test]
fn attribute_operators_compare_as_css_has_it() {
    let document = parse("<p lang=\"en-GB\" rel=\"next Last\" empty=\"\"></p>");
    let p = find(&document, "p");
    let asks = |name: &str, operator, ignore_case, value: &str| {
        attr_matches(&document, p, None, name, &with_value(operator, ignore_case, value))
    };
    assert!(asks("lang", AttrOperator::DashMatch, false, "en"));
    assert!(!asks("lang", AttrOperator::DashMatch, false, "e"));
    assert!(asks("rel", AttrOperator::Includes, false, "next"));
    assert!(!asks("rel", AttrOperator::Includes, false, "ext"));
    assert!(!asks("rel", AttrOperator::Includes, false, "last"));
    assert!(asks("rel", AttrOperator::Includes, true, "last"));
    assert!(asks("rel", AttrOperator::Prefix, false, "ne"));
    assert!(asks("rel", AttrOperator::Substring, false, "t L"));
    assert!(asks("rel", AttrOperator::Suffix, true, "LAST"));
    assert!(!asks("rel", AttrOperator::Suffix, false, "LAST"));
    assert!(!asks("rel", AttrOperator::Prefix, false, ""));
    assert!(asks("empty", AttrOperator::Equal, false, ""));
    assert!(!asks("missing", AttrOperator::Equal, false, ""));
}

#[test]
fn names_and_kinds_are_matched() {
    let mut document = parse("<html><body><p>a</p> <p></p><i></i></body></html>");
    let (ps, i) = (find_all(&document, "p"), find(&document, "i"));
    assert!(has_local_name(&document, i, "i") && !has_local_name(&document, i, "p"));
    assert!(has_namespace(&document, i, HTML) && !has_namespace(&document, i, ""));
    assert!(is_same_type(&document, ps[0], ps[1]) && !is_same_type(&document, ps[0], i));
    assert!(!is_empty(&document, ps[0]) && is_empty(&document, ps[1]));
    assert_eq!(next_sibling_element(&document, ps[0]), Some(ps[1]));
    assert_eq!(prev_sibling_element(&document, ps[1]), Some(ps[0]));
    assert_eq!(next_sibling_element(&document, i), None);
    assert_eq!(first_element_child(&document, find(&document, "body")), Some(ps[0]));
    assert_eq!(first_element_child(&document, ps[0]), None);
    // What has a comment in it is not empty.
    document.append_other(ps[1], NodeKind::Comment);
    assert!(!is_empty(&document, ps[1]));
}

#[test]
fn classes_are_words() {
    let dom = parse("<p class=\" a  b\tc \"></p><p></p>");
    let ps = find_all(&dom, "p");
    let words: Vec<String> = each_class(&dom, ps[0]).iter().map(|w| w.iter().collect()).collect();
    assert_eq!(words, vec!["a", "b", "c"]);
    assert!(each_class(&dom, ps[1]).is_empty());
    assert!(has_class(&dom, ps[0], "B", true) && !has_class(&dom, ps[0], "B", false));
}

/// `:hover` goes by the state that the host gave the element.
#[test]
fn cascade_matches_hover_pseudo_class() {
    let document = parse("<html><body><p>A</p><p>B</p></body></html>");
    let ps = find_all(&document, "p");
    assert_eq!(ps.len(), 2);
    let mut plane = StylePlane::new();
    plane.entries.insert(ps[0], StyleEntry { state: HOVER, ..StyleEntry::blank() });
    plane.entries.insert(ps[1], StyleEntry::blank());
    assert!(has_state(&plane, ps[0], HOVER), ":hover <p>");
    assert!(!has_state(&plane, ps[1], HOVER), "non-hovered <p>");
    assert!(!has_state(&plane, ps[0], FOCUS));
    assert!(!has_state(&plane, document.document(), HOVER));
}

#[test]
fn selector_flags_go_to_the_element_and_its_parent() {
    let dom = parse("<div><p></p></div>");
    let (div, p) = (find(&dom, "div"), find(&dom, "p"));
    let mut plane = StylePlane::new();
    plane.entries.insert(div, StyleEntry::blank());
    plane.entries.insert(p, StyleEntry::blank());
    apply_selector_flags(&dom, &mut plane, p, u32::MAX);
    let own = plane.get(p).expect("entry").selector_flags;
    let above = plane.get(div).expect("entry").selector_flags;
    assert_ne!(own, 0);
    assert_ne!(above, 0);
    assert_eq!(own & above, 0, "no flag is for both");
    assert!(has_selector_flags(&plane, p, own) && !has_selector_flags(&plane, p, above));
    assert_eq!(relative_selector_search_direction(&plane, p) & !own, 0);
    assert_eq!(relative_selector_search_direction(&plane, dom.document()), 0);
}

#[test]
fn a_snapshot_is_handled_once_it_was_used() {
    let mut plane = StylePlane::new();
    plane.entries.insert(3, StyleEntry { handled_snapshot: true, ..StyleEntry::blank() });
    plane.entries.insert(4, StyleEntry::blank());
    assert!(handled_snapshot(&plane, 3, true));
    assert!(!handled_snapshot(&plane, 4, true));
}
