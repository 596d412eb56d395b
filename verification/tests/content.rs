//! Inline content, list markers, the box tree and the values that styles hold.
use base64::Engine as _;
use serval_layout::box_tree::{
    build_box_tree, build_subtree, layout_subtree, layout_via_box_tree, BoxTree, LayoutPath,
};
use serval_layout::cascade::{run_cascade, sheets_in_order, SheetOrigin};
use serval_layout::computed_query::{computed_value_string, longhand_names};
use serval_layout::construct::{
    apply_white_space_collapse, collapse_preserving_breaks, collapse_whitespace,
    default_object_size_from_attrs, dimension_attr, establishes_inline_context,
    external_texture_key_of, flows_inline, has_clearance, is_floating, is_inline_block,
    is_inline_element, is_replaced, no_wrap_of, replaced_intrinsic_size, replaced_px_size, Extent,
};
use serval_layout::contain_intrinsic::{
    choose_axis, first_px_length, parse_contain_intrinsic_declarations,
    populate_contain_intrinsic_overrides, px_lengths, px_lengths_among, AxisCandidate, CssToken,
    SimpleSelector,
};
use serval_layout::dom::{Attribute, Dom, NodeId, QualName};
use serval_layout::fragment::{Edges, Layout};
use serval_layout::image_decode::{ImagePlane, NoImageLoader};
use serval_layout::inline_content::{
    gather_inline_content, gather_inline_group, list_marker_content, list_marker_inline_run,
    FontFamilySpec, GenericFamilyKind, InlineContent,
};
use serval_layout::layout_style::{
    box_display, content_alignment, css_style, item_alignment, to_taffy_style, AlignValue, Axes,
    BasisValue, BorderLine, BorderValue, BoxDisplay, BoxOverflow, BoxPosition, BoxSizing,
    BoxValues, ContentAlignment, Dimension, FlexDirection, FlexWrap, GapValue, ItemAlignment,
    LengthPercentage, MarginValue, Sides, SizeValue,
};
use serval_layout::list_marker::{alpha_marker, list_marker_text, marker_kind, roman_marker};
use serval_layout::pipeline::{lay_out_document, paint_list_from_layout_dom, render, LaidOut};
use serval_layout::style_plane::{
    initial_style, Clear, ComputedStyle, ContainIntrinsicOverride, DisplayInside, DisplayOutside,
    Float, FontFamily, GenericFont, ListStyleType, Overflow, Position, Rgba, StylePlane,
    WhiteSpaceCollapse,
};

const HTML: &str = "http://www.w3.org/1999/xhtml";
const VOID: [&str; 5] = ["img", "br", "link", "input", "meta"];
const BLOCKS: [&str; 8] = ["html", "body", "p", "div", "ul", "ol", "li", "section"];

fn add_attribute(dom: &mut Dom, id: NodeId, local: &str, value: &str) {
    let number = value.parse::<f32>().ok().map(f32::to_bits);
    dom.add_attribute(
        id,
        Attribute { ns: String::new(), local: local.to_string(), value: value.to_string(), number },
    );
}

fn element(dom: &mut Dom, parent: NodeId, local: &str) -> NodeId {
    dom.append_element(parent, QualName { ns: HTML.to_string(), local: local.to_string() })
}

/// Reads markup in which every element is closed and every value is quoted.
fn parse(html: &str) -> Dom {
    let mut dom = Dom::new();
    let mut open = vec![dom.document()];
    let mut rest = html;
    while !rest.is_empty() {
        let top = *open.last().expect("an open node");
        if let Some(tag) = rest.strip_prefix('<') {
            let end = tag.find('>').expect("a closed tag");
            let (inside, after) = (&tag[..end], &tag[end + 1..]);
            rest = after;
            if inside.starts_with('/') {
                open.pop();
                continue;
            }
            let (name, mut attributes) = inside.split_once(' ').unwrap_or((inside, ""));
            let id = element(&mut dom, top, name);
            while !attributes.trim().is_empty() {
                attributes = attributes.trim_start();
                let bare = attributes.find(' ').unwrap_or(attributes.len());
                match attributes.find('=') {
                    Some(eq) if eq < bare => {
                        let value = &attributes[eq + 2..];
                        let quote = value.find('"').expect("a closing quote");
                        add_attribute(&mut dom, id, &attributes[..eq], &value[..quote]);
                        attributes = &value[quote + 1..];
                    },
                    _ => {
                        add_attribute(&mut dom, id, &attributes[..bare], "");
                        attributes = &attributes[bare..];
                    },
                }
            }
            if !VOID.contains(&name) {
                open.push(id);
            }
        } else {
            let end = rest.find('<').unwrap_or(rest.len());
            dom.append_text(top, rest[..end].to_string());
            rest = &rest[end..];
        }
    }
    dom
}

fn find_all(dom: &Dom, local: &str) -> Vec<NodeId> {
    dom.document_order(dom.document()).into_iter().filter(|&n| dom.named(n, local)).collect()
}

fn find(dom: &Dom, local: &str) -> NodeId {
    find_all(dom, local)[0]
}

fn bits(x: f32) -> u32 {
    x.to_bits()
}

fn block() -> ComputedStyle {
    ComputedStyle { display_outside: DisplayOutside::Block, ..initial_style() }
}

fn named_marker(name: &str) -> ListStyleType {
    ListStyleType::Name(name.to_string())
}

/// The styles that a page has by default: blocks, numbered lists and bold text.
fn page_styles(dom: &Dom) -> StylePlane {
    let mut plane = StylePlane::new();
    for n in dom.document_order(dom.document()) {
        let name = match dom.element_name(n) {
            Some(name) => name.local.clone(),
            None => continue,
        };
        let mut style = if BLOCKS.contains(&name.as_str()) { block() } else { initial_style() };
        if name == "b" || name == "strong" {
            style.font_weight = bits(700.0);
        }
        if name == "li" && dom.parent(n).is_some_and(|p| dom.named(p, "ol")) {
            style.list_style_type = named_marker("decimal");
        }
        plane.set_primary(n, style);
    }
    plane
}

fn restyle(plane: &mut StylePlane, n: NodeId, change: impl Fn(&mut ComputedStyle)) {
    let mut entry = plane.entries.remove(n).expect("an entry");
    if let Some(style) = &mut entry.primary {
        change(style);
    }
    plane.entries.insert(n, entry);
}

fn texts(content: &InlineContent) -> Vec<&str> {
    content.runs.iter().map(|r| r.text.as_str()).collect()
}

fn content_of(built: &BoxTree, n: NodeId) -> &InlineContent {
    let index = *built.node_map.get(n).expect("a box");
    built.get_node_context(index).expect("inline content")
}

/// The text of the marker that hangs beside an element's box.
fn hanging(built: &BoxTree, n: NodeId) -> Option<String> {
    let index = *built.node_map.get(n).expect("a box");
    built.nodes[index].marker.as_ref().map(|m| m.runs[0].text.clone())
}

fn built(dom: &Dom, styles: &StylePlane) -> BoxTree {
    build_box_tree(dom, styles, &ImagePlane::new())
}

// ---------------------------------------------------------------------------
// White space
// ---------------------------------------------------------------------------
#[test]
fn white_space_collapses_to_single_spaces() {
    assert_eq!(collapse_whitespace("  a \n\t b"), " a b");
    assert_eq!(collapse_whitespace(" \n "), " ");
    assert_eq!(collapse_whitespace(""), "");
    assert_eq!(collapse_whitespace("a\u{2003}\u{a0}\u{3000}b\u{200b}c\u{85}"), "a b\u{200b}c ");
    for s in ["a \n b", "\n", " x  \n\n\ty "] {
        assert_eq!(collapse_whitespace(&collapse_preserving_breaks(s)), collapse_whitespace(s));
    }
    let once = collapse_whitespace("a  b\n\nc ");
    assert_eq!(collapse_whitespace(&once), once);
}

#[test]
fn breaks_can_be_preserved() {
    assert_eq!(collapse_preserving_breaks("a  b"), "a b");
    assert_eq!(collapse_preserving_breaks("a  \n  b"), "a\nb");
    let mut styles = StylePlane::new();
    for (n, mode) in [
        (1, WhiteSpaceCollapse::Collapse),
        (2, WhiteSpaceCollapse::Preserve),
        (3, WhiteSpaceCollapse::PreserveBreaks),
        (4, WhiteSpaceCollapse::BreakSpaces),
    ] {
        styles.set_primary(n, ComputedStyle { white_space_collapse: mode, ..initial_style() });
    }
    let collapsed = |n| apply_white_space_collapse(&styles, n, "a  \n b");
    assert_eq!(collapsed(1), "a b");
    assert_eq!(collapsed(2), "a  \n b");
    assert_eq!(collapsed(3), "a\nb");
    assert_eq!(collapsed(4), "a  \n b");
    assert_eq!(collapsed(5), "a b", "an element without a style collapses");
}

// ---------------------------------------------------------------------------
// Inline content
// ---------------------------------------------------------------------------
#[test]
fn inline_flow_gathers_styled_runs_on_one_line() {
    let document = parse("<html><body><p>Hello <b>world</b> !</p></body></html>");
    let styles = page_styles(&document);
    let tree = built(&document, &styles);
    let p = find(&document, "p");
    let content = content_of(&tree, p);
    assert!(content.runs.len() >= 2);
    assert!(content.runs.iter().any(|r| f32::from_bits(r.weight) < 500.0), "a normal run");
    assert!(content.runs.iter().any(|r| f32::from_bits(r.weight) >= 600.0), "a bold run");
    assert_eq!(texts(content), vec!["Hello ", "world", " !"]);
    // One line: the paragraph is one leaf, so nothing in it is stacked.
    let index = *tree.node_map.get(p).expect("a box");
    assert!(tree.nodes[index].children.is_empty());
    assert!(tree.node_map.get(find(&document, "b")).is_none());
}

#[test]
fn cascade_font_family_flows_into_text_leaf() {
    let document = parse("<html><body><p>x</p></body></html>");
    let mut styles = page_styles(&document);
    let p = find(&document, "p");
    restyle(&mut styles, p, |s| {
        s.font_family = vec![FontFamily::Generic(GenericFont::Monospace)];
    });
    let tree = built(&document, &styles);
    let run = content_of(&tree, p).runs.first().expect("inline content has a run");
    assert!(matches!(
        run.font_family,
        Some(FontFamilySpec::Generic(GenericFamilyKind::Monospace))
    ));
}

#[test]
fn line_breaks_and_boxes_flow_between_the_runs() {
    let document = parse("<p>a<br>b<img width=\"40\" height=\"30\">c</p>");
    let styles = page_styles(&document);
    let p = find(&document, "p");
    let content = gather_inline_content(&document, &styles, &ImagePlane::new(), p);
    assert_eq!(texts(&content), vec!["a", "\n", "b", "c"]);
    assert_eq!(content.boxes.len(), 1);
    assert_eq!(content.boxes[0].index, 3, "after the bytes of a, the break and b");
    assert_eq!(content.boxes[0].source, find(&document, "img"));
}

#[test]
fn a_group_of_children_flows_by_itself() {
    let document = parse("<div>one <i>two</i><section>s</section>three</div>");
    let styles = page_styles(&document);
    let div = find(&document, "div");
    let children = document.dom_children(div);
    let content =
        gather_inline_group(&document, &styles, &ImagePlane::new(), div, &children[..2]);
    assert_eq!(texts(&content), vec!["one ", "two"]);
    assert!(!establishes_inline_context(&document, &styles, div));
}

#[test]
fn what_flows_inline() {
    let document = parse("<div><b>x</b><img><p>y</p><i>z</i></div>");
    let mut styles = page_styles(&document);
    let (b, img, p, i) =
        (find(&document, "b"), find(&document, "img"), find(&document, "p"), find(&document, "i"));
    restyle(&mut styles, i, |s| {
        s.display_inside = DisplayInside::FlowRoot;
        s.nowrap = true;
        s.float = Float::Left;
        s.clear = Clear::Both;
    });
    assert!(flows_inline(&document, &styles, b) && flows_inline(&document, &styles, i));
    assert!(!flows_inline(&document, &styles, img) && !flows_inline(&document, &styles, p));
    assert!(is_replaced(&document, img) && !is_replaced(&document, b));
    assert_eq!(is_inline_element(&styles, b), Some(true));
    assert_eq!(is_inline_element(&styles, p), Some(false));
    assert_eq!(is_inline_element(&styles, document.document()), None);
    assert!(is_inline_block(&styles, i) && !is_inline_block(&styles, b));
    assert!(no_wrap_of(&styles, i) && !no_wrap_of(&styles, b));
    assert!(is_floating(&styles, i) && !is_floating(&styles, b));
    assert!(has_clearance(&styles, i) && !has_clearance(&styles, b));
}

#[test]
fn an_inline_block_is_a_box_with_content() {
    let document = parse("<p>a<b>in</b></p>");
    let mut styles = page_styles(&document);
    let b = find(&document, "b");
    restyle(&mut styles, b, |s| {
        s.display_inside = DisplayInside::FlowRoot;
        s.width = Some(bits(30.0));
    });
    let content =
        gather_inline_content(&document, &styles, &ImagePlane::new(), find(&document, "p"));
    assert_eq!(texts(&content), vec!["a"]);
    let inside = content.boxes[0].block.as_ref().expect("an inline-block");
    assert_eq!(texts(&inside.content), vec!["in"]);
    assert_eq!(inside.css_width, Some(bits(30.0)));
    assert_eq!(inside.css_height, None);
}

// ---------------------------------------------------------------------------
// Lists
// ---------------------------------------------------------------------------
fn markers(html: &str) -> Vec<Option<String>> {
    let document = parse(html);
    let styles = page_styles(&document);
    let tree = built(&document, &styles);
    find_all(&document, "li").into_iter().map(|li| hanging(&tree, li)).collect()
}

#[test]
fn unordered_list_item_marker_hangs_left() {
    let found = markers("<html><body><ul><li>Item</li></ul></body></html>");
    assert_eq!(found, vec![Some("\u{2022}".to_string())]);
}

#[test]
fn ordered_list_markers_differ_per_item() {
    let found = markers("<html><body><ol><li>A</li><li>B</li></ol></body></html>");
    assert_eq!(found.len(), 2, "two list items -> two hanging markers");
    assert_ne!(found[0], found[1]);
    assert_eq!(found[0].as_deref(), Some("1."));
    assert_eq!(found[1].as_deref(), Some("2."));
}

#[test]
fn list_style_type_selects_the_marker() {
    let first_marker = |kind: ListStyleType| {
        let document = parse("<html><body><ol><li>x</li></ol></body></html>");
        let mut styles = page_styles(&document);
        let li = find(&document, "li");
        let mut entry = styles.entries.remove(li).expect("an entry");
        entry.primary = Some(ComputedStyle { list_style_type: kind, ..block() });
        styles.entries.insert(li, entry);
        hanging(&built(&document, &styles), li)
    };
    let decimal = first_marker(named_marker("decimal"));
    let alpha = first_marker(named_marker("lower-alpha"));
    let square = first_marker(named_marker("square"));
    let none = first_marker(ListStyleType::NoMarker);
    assert_eq!(decimal.as_deref(), Some("1."));
    assert_eq!(alpha.as_deref(), Some("a."));
    assert_eq!(square.as_deref(), Some("\u{25AA}"));
    assert_ne!(decimal, alpha);
    assert_ne!(decimal, square);
    assert!(none.is_none(), "list-style-type: none has no marker");
    assert_eq!(first_marker(named_marker("upper-roman")).as_deref(), Some("I."));
    assert_eq!(first_marker(named_marker("upper-latin")).as_deref(), Some("A."));
    assert_eq!(first_marker(named_marker("circle")).as_deref(), Some("\u{25E6}"));
    assert_eq!(first_marker(ListStyleType::Anonymous).as_deref(), Some("\u{2022}"));
}

#[test]
fn display_none_list_item_emits_no_marker() {
    let document = parse("<html><body><ul><li>x</li></ul></body></html>");
    let mut styles = page_styles(&document);
    let li = find(&document, "li");
    restyle(&mut styles, li, |s| {
        s.display_outside = DisplayOutside::Off;
        s.display_inside = DisplayInside::Off;
    });
    let tree = built(&document, &styles);
    let index = *tree.node_map.get(li).expect("a box");
    assert_eq!(tree.compute_child_layout_inner(&styles, index, false), LayoutPath::Hidden);
}

#[test]
fn ol_start_and_li_value_offset_the_ordinals() {
    let plain = markers(
        "<html><body><ol><li>a</li><li>b</li><li>c</li><li>d</li><li>e</li>\
         <li>f</li><li>g</li><li>h</li><li>i</li><li>j</li><li>k</li></ol></body></html>",
    );
    assert_eq!(plain.len(), 11);

    let started = markers("<html><body><ol start=\"5\"><li>x</li></ol></body></html>");
    assert_eq!(started.len(), 1);
    assert_eq!(started[0], plain[4], "start=5 first marker == plain `5.`");

    let valued =
        markers("<html><body><ol><li>a</li><li value=\"10\">b</li><li>c</li></ol></body></html>");
    assert_eq!(valued.len(), 3);
    assert_eq!(valued[0], plain[0], "first item `1.`");
    assert_eq!(valued[1], plain[9], "value=10 item `10.`");
    assert_eq!(valued[2], plain[10], "item after value=10 `11.`");
}

#[test]
fn ol_reversed_counts_down() {
    let plain = markers("<html><body><ol><li>a</li><li>b</li><li>c</li></ol></body></html>");
    let rev = markers("<html><body><ol reversed><li>a</li><li>b</li><li>c</li></ol></body></html>");
    assert_eq!(rev.len(), 3);
    assert_eq!(rev[0], plain[2], "first item counts down from 3 (`3.`)");
    assert_eq!(rev[1], plain[1], "`2.`");
    assert_eq!(rev[2], plain[0], "`1.`");
}

#[test]
fn list_style_position_inside_flows_marker_inline() {
    let analyze = |inside: bool| {
        let document = parse("<html><body><ul><li>Item</li></ul></body></html>");
        let mut styles = page_styles(&document);
        let li = find(&document, "li");
        restyle(&mut styles, li, |s| s.list_style_inside = inside);
        let tree = built(&document, &styles);
        let flowing: usize =
            content_of(&tree, li).runs.iter().map(|r| r.text.chars().count()).sum();
        (tree.marker_boxes().len(), flowing)
    };
    let outside = analyze(false);
    let inside = analyze(true);
    assert_eq!(outside.0, 1, "outside (default): one hanging marker");
    assert_eq!(inside.0, 0, "inside: no hanging marker");
    assert!(inside.1 > outside.1, "inside prepends the marker inline");
    assert_eq!(inside.1, outside.1 + 2, "the bullet and a space");
}

#[test]
fn counters_are_written_in_letters_and_numerals() {
    let letters: Vec<String> = [1, 26, 27, 52, 703].map(|n| alpha_marker(n, false)).to_vec();
    assert_eq!(letters, vec!["a", "z", "aa", "az", "aaa"]);
    assert_eq!(alpha_marker(28, true), "AB");
    let numerals: Vec<String> = [1, 4, 9, 40, 1994, 3999].map(|n| roman_marker(n, true)).to_vec();
    assert_eq!(numerals, vec!["I", "IV", "IX", "XL", "MCMXCIV", "MMMCMXCIX"]);
    assert_eq!(roman_marker(14, false), "xiv");
    assert_eq!(roman_marker(0, true), "0");
    assert_eq!(roman_marker(4000, true), "4000");
}

#[test]
fn a_marker_has_the_style_of_its_item_but_no_lines() {
    let document = parse("<ul><li>x</li></ul><p>y</p>");
    let mut styles = page_styles(&document);
    let (li, p) = (find(&document, "li"), find(&document, "p"));
    let red = Rgba { r: bits(1.0), g: 0, b: 0, a: bits(1.0) };
    restyle(&mut styles, li, |s| {
        s.color = red;
        s.underline = true;
        s.line_through = true;
    });
    let content = list_marker_content(&document, &styles, li).expect("a marker");
    assert_eq!(content.runs[0].color, red);
    assert!(!content.runs[0].underline && !content.runs[0].strikethrough);
    let run = list_marker_inline_run(&document, &styles, li).expect("a marker");
    assert_eq!(run.text, "\u{2022} ");
    assert!(list_marker_text(&document, &styles, p).is_none(), "a paragraph has no marker");
    assert!(marker_kind(&styles, document.document()).is_none());
}

// ---------------------------------------------------------------------------
// Replaced elements and the box tree
// ---------------------------------------------------------------------------
/// A document with a 16 by 16 blue image.
fn img_html() -> String {
    let blue = image::RgbaImage::from_pixel(16, 16, image::Rgba([0, 0, 255, 255]));
    let mut png = Vec::new();
    blue.write_to(&mut std::io::Cursor::new(&mut png), image::ImageFormat::Png)
        .expect("encode test PNG");
    let b64 = base64::engine::general_purpose::STANDARD.encode(&png);
    format!("<html><body><img src=\"data:image/png;base64,{b64}\"></body></html>")
}

#[test]
fn a_subtree_is_laid_out_like_a_document() {
    let document = parse("<html><body><div><p>one</p></div><p>two</p></body></html>");
    let styles = page_styles(&document);
    let images = ImagePlane::new();
    let div = find(&document, "div");
    let ps = find_all(&document, "p");
    // Each box as wide as its place in the tree, counted from one.
    let compute = |_: &StylePlane, tree: &BoxTree| {
        let none = Edges { left: 0, top: 0, right: 0, bottom: 0 };
        (0..tree.nodes.len())
            .map(|k| Layout {
                x: 0,
                y: 0,
                width: k as i32 + 1,
                height: 0,
                border: none,
                padding: none,
                margin_top: 0,
                margin_bottom: 0,
            })
            .collect::<Vec<_>>()
    };
    let (fragments, tree) = layout_subtree(&document, &styles, &images, div, &compute);
    assert_eq!(tree.nodes[tree.root].style, Some(div));
    assert_eq!(fragments.len(), 2, "the subtree alone");
    assert_eq!(fragments.rect_of(ps[0]).expect("a place").width, 1, "children before parents");
    assert_eq!(fragments.rect_of(div).expect("a place").width, 2);
    assert!(fragments.rect_of(ps[1]).is_none(), "not of the subtree");
    assert_eq!(build_subtree(&document, &styles, &images, div).nodes.len(), 2);

    let (whole, _) = layout_via_box_tree(&document, &styles, &images, &compute);
    assert_eq!(whole.len(), 5);
    let mut listed: Vec<NodeId> = whole.iter().into_iter().map(|(n, _)| n).collect();
    listed.sort();
    let mut nodes = vec![find(&document, "html"), find(&document, "body"), div, ps[0], ps[1]];
    nodes.sort();
    assert_eq!(listed, nodes, "every node with a place, once");
}

#[test]
fn img_takes_intrinsic_size() {
    let document = parse(&img_html());
    let styles = page_styles(&document);
    let images = ImagePlane::decode_from_dom(&document);
    let img = find(&document, "img");
    let size = replaced_px_size(&document, &styles, &images, img);
    assert_eq!(size, (Extent::Pixels(16), Extent::Pixels(16)));
    let tree = build_box_tree(&document, &styles, &images);
    let index = *tree.node_map.get(img).expect("a box");
    assert_eq!(
        tree.compute_child_layout_inner(&styles, index, false),
        LayoutPath::Replaced(Extent::Pixels(16), Extent::Pixels(16)),
    );
}

#[test]
fn img_css_width_overrides_intrinsic() {
    let document = parse(&img_html());
    let mut styles = page_styles(&document);
    let img = find(&document, "img");
    restyle(&mut styles, img, |s| s.width = Some(bits(50.0)));
    let images = ImagePlane::decode_from_dom(&document);
    let size = replaced_px_size(&document, &styles, &images, img);
    assert_eq!(size.0, Extent::Px(bits(50.0)), "css width 50");
    assert_eq!(size.1, Extent::Pixels(16), "intrinsic height 16");
}

#[test]
fn objects_have_a_default_size() {
    let document = parse("<video></video><canvas width=\"40\" height=\"-1\"></canvas><img>");
    let px = |x: f32| Extent::Px(bits(x));
    let (video, canvas, img) =
        (find(&document, "video"), find(&document, "canvas"), find(&document, "img"));
    assert_eq!(default_object_size_from_attrs(&document, video), (px(300.0), px(150.0)));
    assert_eq!(default_object_size_from_attrs(&document, canvas), (px(40.0), px(150.0)));
    assert_eq!(dimension_attr(&document, canvas, "width"), Some(bits(40.0)));
    assert_eq!(dimension_attr(&document, canvas, "height"), None);
    let none = ImagePlane::new();
    assert_eq!(replaced_intrinsic_size(&document, &none, img), None);
    let styles = page_styles(&document);
    assert_eq!(replaced_px_size(&document, &styles, &none, img), (px(0.0), px(0.0)));
}

#[test]
fn textures_go_by_their_keys() {
    let document = parse(
        "<external-texture key=\"7\"></external-texture>\
         <canvas data-serval-external-texture-key=\"9\"></canvas><video key=\"3\"></video>",
    );
    assert_eq!(external_texture_key_of(&document, find(&document, "external-texture")), Some(7));
    assert_eq!(external_texture_key_of(&document, find(&document, "canvas")), Some(9));
    assert_eq!(external_texture_key_of(&document, find(&document, "video")), None);
}

#[test]
fn text_beside_blocks_gets_an_anonymous_box() {
    let document = parse("<div>loose<p>para</p></div>");
    let styles = page_styles(&document);
    let tree = built(&document, &styles);
    let index = *tree.node_map.get(find(&document, "div")).expect("a box");
    let children = &tree.nodes[index].children;
    assert_eq!(children.len(), 2);
    let anonymous = &tree.nodes[children[0]];
    assert_eq!(texts(anonymous.inline_content.as_ref().expect("content")), vec!["loose"]);
    assert_eq!(tree.compute_child_layout_inner(&styles, index, false), LayoutPath::Block);
    assert_eq!(tree.compute_child_layout_inner(&styles, index, true), LayoutPath::Hidden);
    assert_eq!(tree.compute_child_layout_inner(&styles, children[0], false), LayoutPath::Text);
}

#[test]
fn the_fragments_are_those_of_the_boxes() {
    let document = parse("<div><p>a</p><p>b</p></div>");
    let styles = page_styles(&document);
    let tree = built(&document, &styles);
    let none = Edges { left: 0, top: 0, right: 0, bottom: 0 };
    let layouts: Vec<Layout> = (0..tree.nodes.len())
        .map(|i| Layout {
            x: i as i32,
            y: 0,
            width: 1,
            height: 1,
            border: none,
            padding: none,
            margin_top: 0,
            margin_bottom: 0,
        })
        .collect();
    let fragments = tree.fragments(&layouts);
    for p in find_all(&document, "p") {
        let index = *tree.node_map.get(p).expect("a box");
        assert_eq!(fragments.rect_of(p).map(|l| l.x), Some(index as i32));
    }
}

// ---------------------------------------------------------------------------
// Intrinsic sizes under containment
// ---------------------------------------------------------------------------
fn chars(s: &str) -> Vec<char> {
    s.chars().collect()
}

#[test]
fn lengths_are_read_from_a_value() {
    assert_eq!(px_lengths("10px auto 2.5px"), vec![bits(10.0), bits(2.5)]);
    assert_eq!(px_lengths("auto 0"), vec![bits(0.0)]);
    assert_eq!(px_lengths("1em -3px 5"), Vec::<u32>::new());
    assert_eq!(px_lengths("calc(4px) 7PX"), vec![bits(7.0)], "what is in a function is passed over");
    assert_eq!(first_px_length("none"), None);
    assert_eq!(px_lengths("1e2px 3em 4E0px"), vec![bits(100.0), bits(4.0)]);
    assert_eq!(px_lengths("1ex 2ecm 5px"), vec![bits(5.0)], "no exponent");
    assert_eq!(first_px_length("auto 12px"), Some(bits(12.0)));
    let tokens = vec![
        CssToken::Dimension { value: bits(3.0), unit: "px".to_string() },
        CssToken::Other,
        CssToken::Number(bits(0.0)),
        CssToken::Number(bits(1.0)),
    ];
    assert_eq!(px_lengths_among(&tokens), vec![bits(3.0), bits(0.0)]);
}

#[test]
fn declarations_come_to_a_size() {
    let declared = |css: &str| parse_contain_intrinsic_declarations(&chars(css));
    let both = |w: f32, h: f32| ContainIntrinsicOverride {
        width: Some(bits(w)),
        height: Some(bits(h)),
    };
    assert_eq!(declared("contain-intrinsic-size: 30px 40px"), both(30.0, 40.0));
    assert_eq!(declared("contain-intrinsic-size: 30px"), both(30.0, 30.0));
    let last = "contain-intrinsic-width: 1px; color: red; contain-intrinsic-size: 2px 3px";
    assert_eq!(declared(last), both(2.0, 3.0));
    assert_eq!(
        declared("contain-intrinsic-height: 9px"),
        ContainIntrinsicOverride { width: None, height: Some(bits(9.0)) },
    );
    assert_eq!(declared("width: 4px"), ContainIntrinsicOverride { width: None, height: None });
}

#[test]
fn simple_selectors_are_read_and_matched() {
    let dom = parse("<p id=\"a\" class=\"x y\"></p><div></div>");
    let (p, div) = (find(&dom, "p"), find(&dom, "div"));
    let read = |s: &str| SimpleSelector::parse(&chars(s));
    assert!(read("p.x#a").expect("simple").matches(&dom, p));
    assert!(read("P").expect("simple").matches(&dom, p), "names have no case");
    assert!(!read("p.z").expect("simple").matches(&dom, p));
    assert!(!read(".x").expect("simple").matches(&dom, div));
    assert!(read("p > i").is_none() && read("p:hover").is_none() && read("p[a]").is_none());
}

fn overrides(dom: &Dom, sheets: &[&str]) -> StylePlane {
    let mut plane = StylePlane::new();
    populate_contain_intrinsic_overrides(dom, &mut plane, sheets);
    plane
}

#[test]
fn the_stronger_rule_wins_then_the_later() {
    let dom = parse("<p class=\"x\"></p><div></div>");
    let (p, div) = (find(&dom, "p"), find(&dom, "div"));
    let plane = overrides(
        &dom,
        &[
            ".x { contain-intrinsic-width: 1px }",
            "p { contain-intrinsic-width: 2px; contain-intrinsic-height: 3px } \
             p { contain-intrinsic-height: 4px }",
        ],
    );
    let found = plane.contain_intrinsic.get(p).expect("an override");
    assert_eq!(found.width, Some(bits(1.0)), "the class is stronger than the name");
    assert_eq!(found.height, Some(bits(4.0)), "the later of two equals");
    assert!(plane.contain_intrinsic.get(div).is_none());
}

#[test]
fn an_inline_style_is_the_strongest() {
    let dom = parse("<p id=\"a\" style=\"contain-intrinsic-size: 8px 9px\"></p>");
    let p = find(&dom, "p");
    let plane = overrides(&dom, &["#a { contain-intrinsic-size: 1px }"]);
    let found = plane.contain_intrinsic.get(p).expect("an override");
    assert_eq!((found.width, found.height), (Some(bits(8.0)), Some(bits(9.0))));
}

#[test]
fn a_tie_goes_to_the_newcomer() {
    let old = AxisCandidate { value: 1, specificity: 5, order: 2 };
    assert_eq!(choose_axis(Some(old), 9, 4, 3), Some(old));
    let new = AxisCandidate { value: 9, specificity: 5, order: 2 };
    assert_eq!(choose_axis(Some(old), 9, 5, 2), Some(new));
    assert_eq!(choose_axis(None, 9, 5, 2), Some(new));
}

#[test]
fn a_contained_image_is_sized_by_its_override() {
    let dom = parse("<video></video>");
    let video = find(&dom, "video");
    let recalc = |mut plane: StylePlane, root: NodeId, _: &Vec<(NodeId, u64)>| {
        plane.set_primary(root, ComputedStyle { contain_size: true, ..initial_style() });
        plane
    };
    let plane = run_cascade(
        &dom,
        StylePlane::new(),
        &["video { contain-intrinsic-width: 11px }"],
        &recalc,
        &|_: &StylePlane, _: NodeId| None,
    );
    let size = replaced_px_size(&dom, &plane, &ImagePlane::new(), video);
    assert_eq!(size, (Extent::Px(bits(11.0)), Extent::Px(bits(150.0))));
}

// ---------------------------------------------------------------------------
// Computed values
// ---------------------------------------------------------------------------
#[test]
fn a_computed_value_is_found_by_its_property() {
    let names = longhand_names();
    let mut plane = StylePlane::new();
    let longhands = std::array::from_fn(|i| format!("value of {}", names[i]));
    plane.set_primary(1, ComputedStyle { longhands, ..initial_style() });
    for name in &names {
        assert_eq!(computed_value_string(&plane, 1, name), Some(format!("value of {name}")));
    }
    assert_eq!(computed_value_string(&plane, 1, "margin"), None);
    assert_eq!(computed_value_string(&plane, 2, "color"), None);
}

#[test]
fn a_fresh_style_answers_every_longhand_with_its_initial_value() {
    let mut plane = StylePlane::new();
    plane.set_primary(1, initial_style());
    for name in longhand_names() {
        assert!(computed_value_string(&plane, 1, name).is_some(), "{name}");
    }
    for (name, value) in [
        ("color", "rgb(0, 0, 0)"),
        ("display", "inline"),
        ("font-size", "16px"),
        ("text-align", "start"),
        ("width", "auto"),
        ("padding-left", "0px"),
    ] {
        assert_eq!(computed_value_string(&plane, 1, name), Some(value.to_string()));
    }
    assert_eq!(computed_value_string(&plane, 1, "Color"), None);
}

// ---------------------------------------------------------------------------
// The style of a box
// ---------------------------------------------------------------------------
fn box_values() -> BoxValues {
    let zero = LengthPercentage::Px(0);
    BoxValues {
        display_outside: DisplayOutside::Block,
        display_inside: DisplayInside::Flow,
        box_sizing: BoxSizing::ContentBox,
        position: Position::Static,
        overflow_x: Overflow::Visible,
        overflow_y: Overflow::Auto,
        float: Float::Left,
        clear: Clear::Right,
        width: SizeValue::Length(LengthPercentage::Px(1)),
        height: SizeValue::Keyword,
        min_width: SizeValue::Auto,
        min_height: SizeValue::Length(LengthPercentage::Percent(2)),
        max_width: SizeValue::NoLimit,
        max_height: SizeValue::Length(LengthPercentage::Calc(3)),
        aspect_ratio: Some(4),
        inset: Sides {
            left: MarginValue::Auto,
            right: MarginValue::Length(LengthPercentage::Px(5)),
            top: MarginValue::Auto,
            bottom: MarginValue::Length(LengthPercentage::Px(6)),
        },
        margin: Sides {
            left: MarginValue::Length(LengthPercentage::Px(7)),
            right: MarginValue::Auto,
            top: MarginValue::Length(zero),
            bottom: MarginValue::Auto,
        },
        padding: Sides {
            left: zero,
            right: LengthPercentage::Px(8),
            top: LengthPercentage::Percent(9),
            bottom: zero,
        },
        border: Sides {
            left: BorderValue { width: 10, line: BorderLine::Drawn },
            right: BorderValue { width: 11, line: BorderLine::NoLine },
            top: BorderValue { width: 12, line: BorderLine::Hidden },
            bottom: BorderValue { width: 13, line: BorderLine::Drawn },
        },
        column_gap: GapValue::Length(LengthPercentage::Px(14)),
        row_gap: GapValue::Normal,
        align_content: AlignValue::Left,
        justify_content: AlignValue::Normal,
        align_items: AlignValue::Normal,
        align_self: AlignValue::Auto,
        flex_direction: FlexDirection::ColumnReverse,
        flex_wrap: FlexWrap::Wrap,
        flex_grow: 15,
        flex_shrink: 16,
        flex_basis: BasisValue::Content,
    }
}

#[test]
fn every_value_comes_to_its_side() {
    let style = to_taffy_style(&box_values());
    let px = |n| Dimension::Length(LengthPercentage::Px(n));
    assert_eq!(style.display, BoxDisplay::Block);
    assert_eq!(style.position, BoxPosition::Relative);
    assert_eq!((style.overflow_x, style.overflow_y), (BoxOverflow::Visible, BoxOverflow::Scroll));
    assert_eq!((style.float, style.clear), (Float::Left, Clear::Right));
    assert_eq!(style.size, Axes { width: px(1), height: Dimension::Auto });
    assert_eq!(style.min_size.height, Dimension::Length(LengthPercentage::Percent(2)));
    assert_eq!(style.max_size.width, Dimension::Auto);
    assert_eq!(style.max_size.height, Dimension::Length(LengthPercentage::Calc(3)));
    assert_eq!(style.aspect_ratio, Some(4));
    assert_eq!((style.inset.right, style.inset.bottom), (px(5), px(6)));
    assert_eq!((style.margin.left, style.margin.right), (px(7), Dimension::Auto));
    assert_eq!(style.padding.top, LengthPercentage::Percent(9));
    assert_eq!(style.border.left, LengthPercentage::Px(10));
    assert_eq!(style.border.right, LengthPercentage::Px(0), "no line, no width");
    assert_eq!(style.border.top, LengthPercentage::Px(0));
    assert_eq!(style.border.bottom, LengthPercentage::Px(13));
    assert_eq!(style.gap.width, LengthPercentage::Px(14));
    assert_eq!(style.gap.height, LengthPercentage::Px(0));
    assert_eq!(style.align_content, Some(ContentAlignment::Start));
    assert_eq!(style.justify_content, None);
    assert_eq!(style.align_items, Some(ItemAlignment::Stretch));
    assert_eq!(style.align_self, None);
    assert_eq!((style.flex_grow, style.flex_shrink), (15, 16));
    assert_eq!(style.flex_basis, Dimension::Auto);
}

#[test]
fn a_replaced_box_has_its_size_forced() {
    let style = to_taffy_style(&box_values());
    let forced = css_style(style, Some((20, 30)));
    assert_eq!(forced.size.width, Dimension::Length(LengthPercentage::Px(20)));
    assert_eq!(forced.size.height, Dimension::Length(LengthPercentage::Px(30)));
    assert_eq!(forced.margin, style.margin);
    assert_eq!(css_style(style, None), style);
}

#[test]
fn keywords_are_laid_out_as_the_nearest_there_is() {
    assert_eq!(box_display(DisplayOutside::Block, DisplayInside::Table), BoxDisplay::Grid);
    assert_eq!(box_display(DisplayOutside::Block, DisplayInside::Contents), BoxDisplay::Flex);
    assert_eq!(box_display(DisplayOutside::Off, DisplayInside::Flow), BoxDisplay::Off);
    assert_eq!(content_alignment(AlignValue::Baseline), None);
    assert_eq!(content_alignment(AlignValue::SpaceEvenly), Some(ContentAlignment::SpaceEvenly));
    assert_eq!(item_alignment(AlignValue::SelfEnd), Some(ItemAlignment::End));
    assert_eq!(item_alignment(AlignValue::SpaceAround), None);
}

// ---------------------------------------------------------------------------
// The whole way
// ---------------------------------------------------------------------------
#[test]
fn a_document_is_rendered_and_painted() {
    let html = img_html();
    let document = parse(&html);
    let (body, img) = (find(&document, "body"), find(&document, "img"));
    let recalc = |mut plane: StylePlane, root: NodeId, _: &Vec<(NodeId, u64)>| {
        for n in document.document_order(root) {
            plane.set_primary(n, block());
        }
        plane
    };
    let marker = |_: &StylePlane, _: NodeId| None;
    let none = Edges { left: 0, top: 0, right: 0, bottom: 0 };
    let compute = |_: &StylePlane, tree: &BoxTree| -> Vec<Layout> {
        tree.nodes
            .iter()
            .map(|node| {
                let side = match node.replaced_size {
                    Some((Extent::Pixels(w), _)) => w as i32,
                    Some((Extent::Px(w), _)) => f32::from_bits(w) as i32,
                    None => 100,
                };
                Layout {
                    x: 0,
                    y: 0,
                    width: side,
                    height: side,
                    border: none,
                    padding: none,
                    margin_top: 0,
                    margin_bottom: 0,
                }
            })
            .collect()
    };
    let fragments = render(&document, &[], &recalc, &marker, &compute);
    assert_eq!(fragments.rect_of(body).map(|l| l.width), Some(100));
    assert_eq!(fragments.rect_of(img).map(|l| l.width), Some(0), "without images");
    let sheets = ["img { contain-intrinsic-width: 5px }"];
    let painted = paint_list_from_layout_dom(
        &document,
        &sheets,
        &NoImageLoader,
        &recalc,
        &marker,
        &compute,
        &|laid: &LaidOut| {
            let overridden = laid.styles.contain_intrinsic.get(img).is_some();
            (laid.images.len(), laid.fragments.rect_of(img).map(|l| l.width), overridden)
        },
    );
    assert_eq!(painted, (1, Some(16), true));
    let laid =
        lay_out_document(&document, &sheets, &NoImageLoader, &recalc, &marker, &compute);
    assert!(laid.backgrounds.is_empty() && laid.tree.node_map.get(img).is_some());
}

#[test]
fn author_origin_beats_ua_default_below_specificity() {
    let sheets = sheets_in_order("strong { font-weight: bold }", &["* { font-weight: normal; }"]);
    assert_eq!(
        sheets,
        vec![
            (SheetOrigin::UserAgent, "strong { font-weight: bold }"),
            (SheetOrigin::Author, "* { font-weight: normal; }"),
        ],
    );
}
