//! Scrolling, places in the document, fonts and media.
use serval_layout::box_tree::BoxTree;
use serval_layout::dom::{Dom, NodeId, QualName, QuirksMode};
use serval_layout::font_metrics::{
    generic_name, map_generic, Family, FontRequest, FontResolver, GenericFamily, PerEm,
};
use serval_layout::fragment::{
    absolute_origin, content_corner, document_rect, origin_of, Edges, FragmentPlane, Layout, Rect,
};
use serval_layout::incremental::{BlockHit, IncrementalLayout};
use serval_layout::media::{evaluate_media_query, MediaEnvironment, MediaQueryEvaluator};
use serval_layout::node_map::NodeMap;
use serval_layout::overlays::OverlaySlot;
use serval_layout::scroll::{
    content_far_edge, document_scroll_range, merged_scroll, nearest_offset, scroll_extent,
    scroll_step, ScrollKey, Viewport,
};
use serval_layout::style_plane::{
    initial_style, ComputedStyle, DisplayOutside, FontFamily, GenericFont, Overflow, Position,
    StyleEntry, StylePlane,
};
use serval_layout::stylist::{build_stylist, inline_blocks};
use serval_layout::text_layout::TextMeasureCtx;
use serval_layout::topmost::{scroll_shift, Scene};
use std::cell::Cell;
use style::device::servo::FontMetricsProvider;
use style::device::Device;
use style::font_metrics::FontMetrics;
use style::media_queries::MediaType;
use style::properties::style_structs::Font;
use style::properties::ComputedValues;
use style::queries::values::PrefersColorScheme;
use style::servo::media_features::PointerCapabilities;
use style::stylesheets::Origin;
use style::stylist::Stylist;
use style::values::computed::font::{GenericFontFamily, QueryFontMetricsFlags};
use style::values::computed::{CSSPixelLength, Length};

const HTML: &str = "http://www.w3.org/1999/xhtml";
/// A pixel in units of scrolling.
const PX: i64 = 64;

fn element(dom: &mut Dom, parent: NodeId, local: &str) -> NodeId {
    dom.append_element(parent, QualName { ns: HTML.to_string(), local: local.to_string() })
}

fn page() -> (Dom, NodeId, NodeId) {
    let mut dom = Dom::new();
    let root = dom.document();
    let html = element(&mut dom, root, "html");
    let body = element(&mut dom, html, "body");
    (dom, html, body)
}

fn frame(x: i32, y: i32, width: i32, height: i32) -> Layout {
    let none = Edges { left: 0, top: 0, right: 0, bottom: 0 };
    Layout { x, y, width, height, border: none, padding: none, margin_top: 0, margin_bottom: 0 }
}

/// A session over a document that is laid out as given, in a window of 800 by 600.
fn session(dom: &Dom, boxes: &[(NodeId, Layout)], root: fn() -> ComputedStyle) -> IncrementalLayout {
    IncrementalLayout::new(
        dom,
        Vec::new(),
        800,
        600,
        &|mut plane: StylePlane, top: NodeId, _: &Vec<(NodeId, u64)>| {
            for n in dom.document_order(top) {
                plane.set_primary(n, if n == top { root() } else { block() });
            }
            plane
        },
        &|_: &StylePlane, _: NodeId| None,
        &|_: &StylePlane, tree: &BoxTree| {
            let mut out = vec![frame(0, 0, 0, 0); tree.nodes.len()];
            for (n, l) in boxes {
                out[*tree.node_map.get(*n).expect("a box")] = *l;
            }
            out
        },
    )
}

fn block() -> ComputedStyle {
    ComputedStyle { display_outside: DisplayOutside::Block, ..initial_style() }
}

fn hiding() -> ComputedStyle {
    ComputedStyle { overflow_x: Overflow::Hidden, overflow_y: Overflow::Hidden, ..block() }
}

/// A page of 2000 pixels, which scrolls by 1400.
fn tall(root: fn() -> ComputedStyle) -> (Dom, IncrementalLayout) {
    let (mut dom, html, body) = page();
    let div = element(&mut dom, body, "div");
    let boxes = [
        (html, frame(0, 0, 800, 2000)),
        (body, frame(0, 0, 800, 2000)),
        (div, frame(0, 0, 800, 2000)),
    ];
    let layout = session(&dom, &boxes, root);
    (dom, layout)
}

const RANGE: (i64, i64) = (0, 1400 * PX);

#[test]
fn a_document_scrolls_as_far_as_its_content_reaches() {
    let (dom, layout) = tall(block);
    assert_eq!(layout.scroll_range(&dom), RANGE);
    let range = |w, h| document_scroll_range(&dom, &layout.styles, &layout.fragments, w, h);
    assert_eq!(range(800, 600), RANGE);
    assert_eq!(range(700, 1999), (100 * PX, PX));
    assert_eq!(range(900, 2000), (0, 0), "all of it is in view");
}

#[test]
fn session_viewport_scroll_clamps_to_range_and_paints_scrolled() {
    let (dom, mut layout) = tall(block);
    let range = layout.scroll_range(&dom);
    assert_eq!(range.1, 1400 * PX, "range.y = content(2000) - viewport(600)");
    layout.set_viewport_scroll(&dom, (0, 5000 * PX as i128));
    assert_eq!(layout.viewport_scroll().1, 1400 * PX, "over-scroll clamps to the range");
    let painted = layout.emit_paint_list(&NodeMap::new(), &|s, _| {
        let (x, y) = s.viewport_scroll();
        (-x, -y)
    });
    assert_eq!(painted, (0, -1400 * PX), "the document is painted at the clamped offset");
    layout.set_viewport_scroll(&dom, (-5, -5));
    assert_eq!(layout.viewport_scroll(), (0, 0));
}

#[test]
fn session_viewport_scroll_respects_root_overflow_hidden() {
    let (dom, mut layout) = tall(hiding);
    layout.set_viewport_scroll(&dom, (0, 500 * PX as i128));
    assert_eq!(layout.viewport_scroll(), (0, 0), "a hidden root pins the viewport");
}

#[test]
fn the_window_takes_the_overflow_of_the_root() {
    let (dom, html, _) = page();
    let mut styles = StylePlane::new();
    let at_start = Viewport {
        width: 800,
        height: 600,
        scrolls_x: true,
        scrolls_y: true,
        scroll: (0, 0),
    };
    assert_eq!(Viewport::for_document(&dom, &styles, 800, 600), at_start, "no styles yet");
    styles.set_primary(html, ComputedStyle { overflow_x: Overflow::Clip, ..block() });
    let clipped = Viewport { scrolls_x: false, ..at_start };
    assert_eq!(Viewport::for_document(&dom, &styles, 800, 600), clipped);
    styles.set_primary(html, ComputedStyle { overflow_y: Overflow::Hidden, ..block() });
    let hidden = Viewport { scrolls_y: false, ..at_start };
    assert_eq!(Viewport::for_document(&dom, &styles, 800, 600), hidden);
    styles.set_primary(html, ComputedStyle { overflow_y: Overflow::Scroll, ..block() });
    assert_eq!(Viewport::for_document(&dom, &styles, 800, 600), at_start);
    assert_eq!(Viewport::for_document(&Dom::new(), &styles, 800, 600), at_start, "no root");
}

#[test]
fn scroll_for_key_steps_lines_pages_and_ends() {
    let (dom, mut layout) = tall(block);
    assert!(layout.scroll_for_key(&dom, ScrollKey::Down));
    assert_eq!(layout.viewport_scroll().1, 40 * PX, "arrow = 40px");
    assert!(layout.scroll_for_key(&dom, ScrollKey::PageDown));
    assert_eq!(layout.viewport_scroll().1, 600 * PX, "page = +560");
    assert!(layout.scroll_for_key(&dom, ScrollKey::End));
    assert_eq!(layout.viewport_scroll().1, 1400 * PX, "End = bottom 1400");
    assert!(!layout.scroll_for_key(&dom, ScrollKey::PageDown), "no movement past the bottom");
    assert!(layout.scroll_for_key(&dom, ScrollKey::Home));
    assert_eq!(layout.viewport_scroll(), (0, 0), "Home = top");
    assert!(!layout.scroll_for_key(&dom, ScrollKey::Up), "no movement above the top");
}

/// A spacer of 1000 pixels, a target of 50 and another spacer.
fn with_target() -> (Dom, NodeId, IncrementalLayout) {
    let (mut dom, html, body) = page();
    let top = element(&mut dom, body, "div");
    let target = element(&mut dom, body, "div");
    let bottom = element(&mut dom, body, "div");
    let boxes = [
        (html, frame(0, 0, 800, 2050)),
        (body, frame(0, 0, 800, 2050)),
        (top, frame(0, 0, 800, 1000)),
        (target, frame(0, 1000, 800, 50)),
        (bottom, frame(0, 1050, 800, 1000)),
    ];
    let layout = session(&dom, &boxes, block);
    (dom, target, layout)
}

#[test]
fn scroll_to_element_aligns_its_top_to_the_viewport() {
    let (dom, target, mut layout) = with_target();
    assert!(layout.scroll_to_element(&dom, target));
    assert_eq!(layout.viewport_scroll().1, 1000 * PX, "the target's top");
    assert!(!layout.scroll_to_element(&dom, target), "already in position");
    assert!(!layout.scroll_to_element(&dom, dom.document()), "no box, no move");
    assert!(!layout.scroll_to_id(&dom, "nothing"));
}

#[test]
fn scroll_element_into_view_uses_nearest_alignment() {
    let (dom, target, mut layout) = with_target();
    assert!(layout.scroll_element_into_view(&dom, target));
    assert_eq!(layout.viewport_scroll().1, 450 * PX, "the bottom comes to the fold");
    let again = layout.scroll_element_into_view(&dom, target);
    assert!(!again, "already visible: no jump");
    layout.set_viewport_scroll(&dom, (0, 1400 * PX as i128));
    assert!(layout.scroll_element_into_view(&dom, target));
    assert_eq!(layout.viewport_scroll().1, 1000 * PX, "the top comes to the top");
}

#[test]
fn nearest_moves_no_more_than_it_must() {
    assert_eq!(nearest_offset(0, 100, 20, 30), 0, "in view");
    assert_eq!(nearest_offset(0, 100, 150, 170), 70);
    assert_eq!(nearest_offset(500, 100, 150, 170), 150);
    assert_eq!(nearest_offset(40, 10, 0, 100), 0, "what does not fit shows its start");
}

/// A container of 100 by 100 that scrolls, over two blocks of 250.
fn nested() -> (Dom, NodeId, NodeId, IncrementalLayout) {
    let (mut dom, html, body) = page();
    let scroller = element(&mut dom, body, "div");
    let top = element(&mut dom, scroller, "div");
    let bottom = element(&mut dom, scroller, "div");
    let boxes = [
        (html, frame(0, 0, 800, 100)),
        (body, frame(0, 0, 800, 100)),
        (scroller, frame(0, 0, 100, 100)),
        (top, frame(0, 0, 100, 250)),
        (bottom, frame(0, 250, 100, 250)),
    ];
    let mut layout = session(&dom, &boxes, block);
    let scrolling = ComputedStyle {
        overflow_x: Overflow::Scroll,
        overflow_y: Overflow::Scroll,
        ..initial_style()
    };
    layout.styles.set_primary(scroller, scrolling);
    (dom, scroller, top, layout)
}

/// Turns the wheel over a node.
fn wheel(layout: &mut IncrementalLayout, dom: &Dom, node: NodeId, dy: i64) -> bool {
    let ctx = TextMeasureCtx { layouts: NodeMap::new() };
    let over = |_: &IncrementalLayout, _: &NodeMap<(i64, i64)>| Some(BlockHit { node, x: 0, y: 0 });
    layout.scroll_at(dom, &ctx, &over, 0, dy)
}

#[test]
fn nested_overflow_scroll_routes_to_container_and_clamps() {
    let (dom, scroller, top, mut layout) = nested();
    assert!(wheel(&mut layout, &dom, top, 300 * PX), "the scroller takes the delta");
    assert_eq!(layout.element_scroll.get(scroller), Some(&(0, 300 * PX)));
    assert!(wheel(&mut layout, &dom, top, 1000 * PX), "over-scroll still moves");
    assert_eq!(layout.element_scroll.get(scroller), Some(&(0, 400 * PX)), "to the limit");
    assert!(!wheel(&mut layout, &dom, top, 1000 * PX), "at the limit: no taker");
    assert_eq!(layout.viewport_scroll(), (0, 0));
    assert!(layout.scroll_from(&dom, Some(top), 0, -PX), "back from the limit");
    assert_eq!(layout.element_scroll.get(scroller), Some(&(0, 399 * PX)));
    assert!(!layout.scroll_from(&dom, None, 0, -PX), "over nothing");
}

/// The places that a painter moves the contents of scrolled containers to.
fn translations(layout: &IncrementalLayout, host: &NodeMap<(i64, i64)>) -> Vec<(i64, i64)> {
    layout.emit_paint_list(host, &|s, offsets| {
        let boxes = s.fragments.iter();
        let scrolled = boxes.into_iter().filter_map(|(n, _)| offsets.get(n));
        scrolled.map(|(x, y)| (-x, -y)).collect()
    })
}

#[test]
fn nested_scroll_translates_the_emitted_paint() {
    let (dom, scroller, top, mut layout) = nested();
    let mut host = NodeMap::new();
    let before = translations(&layout, &host);
    assert!(!before.contains(&(0, -150 * PX)), "unscrolled: no scroll translate yet");
    assert!(wheel(&mut layout, &dom, top, 150 * PX), "scroll the container 150px");
    let after = translations(&layout, &host);
    assert!(after.contains(&(0, -150 * PX)), "the content is painted at -150");
    // What the host asks for goes over what the session keeps.
    host.insert(scroller, (0, 2 * PX));
    assert_eq!(translations(&layout, &host), vec![(0, -2 * PX)]);
}

/// The topmost box under a point of the window.
fn topmost(
    dom: &Dom,
    s: &IncrementalLayout,
    offsets: &NodeMap<(i64, i64)>,
    x: f32,
    y: f32,
) -> Option<BlockHit> {
    let (styles, fragments, scroll) = (&s.styles, &s.fragments, s.viewport_scroll());
    let scene = Scene { dom, styles, fragments, offsets, scroll };
    let node = scene.topmost_box((x * 64.0) as i64, (y * 64.0) as i64)?;
    let (left, top) = content_corner(dom, &s.fragments, node)?;
    let (x, y) = (x - left as f32, y - top as f32);
    Some(BlockHit { node, x: x.to_bits(), y: y.to_bits() })
}

#[test]
fn the_box_on_top_is_found_where_it_is_scrolled_to() {
    let (dom, scroller, top, mut layout) = nested();
    let bottom = dom.dom_children(scroller)[1];
    let at = |s: &IncrementalLayout, x: i64, y: i64| {
        let (styles, fragments, scroll) = (&s.styles, &s.fragments, s.viewport_scroll());
        let offsets = &s.element_scroll;
        Scene { dom: &dom, styles, fragments, offsets, scroll }.topmost_box(x, y)
    };
    assert_eq!(at(&layout, 50 * PX, 50 * PX), Some(top));
    assert_eq!(at(&layout, 99 * PX + 63, 0), Some(top), "up to the right edge");
    assert_eq!(at(&layout, 100 * PX, 0), dom.parent(scroller), "past the right edge");
    assert_eq!(at(&layout, 50 * PX, 150 * PX), None, "the container cuts it off");
    assert_eq!(at(&layout, -1, 0), None);
    assert!(wheel(&mut layout, &dom, top, 300 * PX), "scroll the container");
    assert_eq!(at(&layout, 50 * PX, 50 * PX), Some(bottom), "the content moved up");
    let shift = |n| scroll_shift(&dom, &layout.styles, &layout.element_scroll, (0, 7), n);
    assert_eq!(shift(bottom), (0, 300 * PX + 7));
    assert_eq!(shift(scroller), (0, 7), "a container does not scroll itself");
    // What is fixed stays, and stands over what is in the flow.
    let fixed = ComputedStyle { position: Position::Fixed, ..block() };
    layout.styles.set_primary(top, fixed);
    assert_eq!(at(&layout, 50 * PX, 50 * PX), Some(top));
}

#[test]
fn pointer_events_none_falls_through_but_auto_descendant_still_hits() {
    let (mut dom, html, body) = page();
    let target = element(&mut dom, body, "div");
    // The overlay stands over the target and lets the pointer through, but for a
    // small patch.
    let overlay = element(&mut dom, body, "div");
    let live = element(&mut dom, overlay, "div");
    let boxes = [
        (html, frame(0, 0, 800, 600)),
        (body, frame(0, 0, 800, 600)),
        (target, frame(0, 0, 100, 100)),
        (overlay, frame(0, 0, 100, 100)),
        (live, frame(0, 0, 50, 50)),
    ];
    let mut layout = session(&dom, &boxes, block);
    let placed = || ComputedStyle { position: Position::Absolute, ..block() };
    layout.styles.set_primary(target, placed());
    layout.styles.set_primary(overlay, ComputedStyle { pointer_events_none: true, ..placed() });
    layout.styles.set_primary(live, placed());

    let ctx = TextMeasureCtx { layouts: NodeMap::new() };
    let scroll = NodeMap::new();
    let hit = |x: f32, y: f32| {
        layout.hit_test(&ctx, &scroll, &|s, offsets| topmost(&dom, s, offsets, x, y))
    };
    assert_eq!(
        hit(75.0, 75.0),
        Some(target),
        "a pointer-events:none box falls through to what is behind it",
    );
    assert_eq!(
        hit(25.0, 25.0),
        Some(live),
        "a pointer-events:auto descendant of a none box still hits",
    );
    assert_eq!(hit(900.0, 75.0), None);
}

#[test]
fn scroll_at_falls_through_to_the_document_viewport() {
    let (dom, mut layout) = tall(block);
    let hit = dom.dom_children(dom.document())[0];
    assert!(wheel(&mut layout, &dom, hit, 40 * PX), "the document takes the wheel");
    assert_eq!(layout.viewport_scroll().1, 40 * PX);
    assert_eq!(layout.scroll_by(&dom, 0, 10 * PX), (0, 50 * PX));
}

#[test]
fn what_is_inside_counts_for_the_extent() {
    let (dom, scroller, top, mut layout) = nested();
    let extent = |l: &IncrementalLayout| scroll_extent(&dom, &l.styles, &l.fragments, scroller);
    assert_eq!(extent(&layout), (0, 400 * PX));
    assert_eq!(content_far_edge(&dom, &layout.styles, &layout.fragments, scroller), (100, 500));
    let step =
        scroll_step(&dom, &layout.styles, &layout.fragments, &layout.element_scroll, top, 0, 9);
    assert_eq!(step, None, "a block that does not scroll takes nothing");
    // What is fixed to the window does not count.
    let bottom = dom.dom_children(scroller)[1];
    let fixed = ComputedStyle { position: Position::Fixed, ..initial_style() };
    layout.styles.set_primary(bottom, fixed);
    assert_eq!(extent(&layout), (0, 150 * PX));
}

#[test]
fn a_new_window_keeps_the_scroll_in_range() {
    let (dom, mut layout) = tall(block);
    layout.set_viewport_scroll(&dom, (0, 1400 * PX as i128));
    layout.viewport.height = 1000;
    layout.recompute_viewport(&dom);
    assert_eq!(layout.viewport_scroll(), (0, 1000 * PX));
    assert_eq!(layout.viewport().height, 1000);
    assert_eq!(layout.last_damage(), 0);
    assert_eq!(layout.fragments().len(), 3);
    assert_eq!(layout.styles().entries.len(), 3);
}

#[test]
fn the_host_has_the_last_word_on_offsets() {
    let mut own = NodeMap::new();
    own.insert(1, (1, 1));
    own.insert(2, (2, 2));
    let mut host = NodeMap::new();
    host.insert(2, (9, 9));
    host.insert(3, (3, 3));
    let merged = merged_scroll(&own, &host);
    assert_eq!(merged.get(1), Some(&(1, 1)));
    assert_eq!(merged.get(2), Some(&(9, 9)));
    assert_eq!(merged.get(3), Some(&(3, 3)));
    assert_eq!(merged.len(), 3);
}

// ---------------------------------------------------------------------------
// Places
// ---------------------------------------------------------------------------
#[test]
fn places_add_up_from_the_document() {
    let (mut dom, html, body) = page();
    let p = element(&mut dom, body, "p");
    let i = element(&mut dom, p, "i");
    let mut plane = FragmentPlane::new();
    assert!(plane.is_empty());
    plane.insert(html, frame(1, 2, 10, 10));
    plane.insert(body, frame(10, 20, 10, 10));
    let mut edged = frame(100, 200, 30, 40);
    edged.border.left = 3;
    edged.padding.top = 4;
    plane.insert(p, edged);
    assert_eq!(plane.len(), 3);
    assert_eq!(origin_of(&dom, &plane, p), (111, 222));
    assert_eq!(origin_of(&dom, &plane, i), (111, 222), "no box of its own");
    assert_eq!(absolute_origin(&dom, &plane, i), None);
    assert_eq!(
        document_rect(&dom, &plane, p),
        Some(Rect { x0: 111, y0: 222, x1: 141, y1: 262 }),
    );
    assert_eq!(content_corner(&dom, &plane, p), Some((114, 226)));
    // A box that is placed by itself does not go by its parents.
    plane.hoisted_origins.insert(body, (500, 600));
    assert_eq!(origin_of(&dom, &plane, p), (600, 800));
    assert_eq!(plane.hoisted_origin(body), Some((500, 600)));
    let slot = OverlaySlot { anchor: p, content: "menu" };
    assert_eq!(slot.place(&dom, &plane), Some((600, 800)));
    assert_eq!(OverlaySlot { anchor: i, content: () }.place(&dom, &plane), None);
}

// ---------------------------------------------------------------------------
// Fonts
// ---------------------------------------------------------------------------
#[test]
fn a_font_is_looked_up_once() {
    let asked = Cell::new(0);
    let found = PerEm {
        x_height: Some(1),
        cap_height: None,
        zero_advance: None,
        ic_width: None,
        ascent: 5,
    };
    let query = |request: &FontRequest| {
        asked.set(asked.get() + 1);
        let serif = matches!(request.families[1], Family::Generic(GenericFamily::Serif));
        let named = matches!(&request.families[0], Family::Named(n) if n == "Ahem");
        if serif && named && !request.italic {
            Some(found)
        } else {
            None
        }
    };
    let families = vec![FontFamily::Named("Ahem".to_string()), FontFamily::Generic(GenericFont::Serif)];
    let mut resolver = FontResolver::new();
    assert_eq!(resolver.per_em(&families, 400, false, &query), Some(found));
    assert_eq!(resolver.per_em(&families, 400, false, &query), Some(found));
    assert_eq!(asked.get(), 1, "the second time it is remembered");
    assert_eq!(resolver.per_em(&families, 400, true, &query), None);
    assert_eq!(resolver.per_em(&families, 400, true, &query), None);
    assert_eq!(asked.get(), 2, "that there is none is remembered too");
    assert_eq!(resolver.per_em(&families, 700, false, &query), Some(found));
    assert_eq!(asked.get(), 3);
}

#[test]
fn generic_families_have_names() {
    assert_eq!(map_generic(GenericFont::Monospace), GenericFamily::Monospace);
    assert_eq!(map_generic(GenericFont::SystemUi), GenericFamily::SansSerif);
    assert_eq!(generic_name(GenericFamily::SansSerif), "sans-serif");
    assert_eq!(generic_name(GenericFamily::Fantasy), "fantasy");
}

// ---------------------------------------------------------------------------
// Media
// ---------------------------------------------------------------------------
#[derive(Debug)]
struct NoFonts;

impl FontMetricsProvider for NoFonts {
    fn query_font_metrics(
        &self,
        _vertical: bool,
        _font: &Font,
        _base_size: CSSPixelLength,
        _flags: QueryFontMetricsFlags,
    ) -> FontMetrics {
        FontMetrics::default()
    }

    fn base_size_for_generic(&self, _generic: GenericFontFamily) -> Length {
        Length::new(16.0)
    }
}

fn device(dark: bool) -> Device {
    let scheme = if dark { PrefersColorScheme::Dark } else { PrefersColorScheme::Light };
    Device::new(
        MediaType::screen(),
        selectors::matching::QuirksMode::NoQuirks,
        euclid::Size2D::new(800.0, 600.0),
        euclid::Size2D::new(800.0, 600.0),
        euclid::Scale::new(1.0),
        Box::new(NoFonts),
        ComputedValues::initial_values_with_font_override(Font::initial_values()),
        scheme,
        PointerCapabilities::default(),
        PointerCapabilities::default(),
    )
}

fn stylist(dark: bool) -> Stylist {
    Stylist::new(device(dark), selectors::matching::QuirksMode::NoQuirks)
}

#[test]
fn quirks_mode_flows_from_parser_to_stylist() {
    let (mut quirks_doc, _, body) = page();
    element(&mut quirks_doc, body, "table");
    quirks_doc.set_quirks_mode(QuirksMode::Quirks);
    let qm = quirks_doc.quirks_mode();
    assert_eq!(qm, QuirksMode::Quirks);
    assert_eq!(quirks_doc.dom_children(body).len(), 1, "the tree stays");

    let (stylist, _) = build_stylist(device(false), qm, "", &[], None);
    assert_eq!(
        stylist.quirks_mode(),
        selectors::matching::QuirksMode::Quirks,
        "stylist carries quirks mode",
    );

    let (std_doc, _, _) = page();
    assert_eq!(std_doc.quirks_mode(), QuirksMode::NoQuirks);
    let (stylist, _) = build_stylist(device(false), std_doc.quirks_mode(), "", &[], None);
    assert_eq!(stylist.quirks_mode(), selectors::matching::QuirksMode::NoQuirks);
    let (stylist, _) = build_stylist(device(false), QuirksMode::LimitedQuirks, "", &[], None);
    assert_eq!(stylist.quirks_mode(), selectors::matching::QuirksMode::LimitedQuirks);
}

#[test]
fn an_engine_holds_the_default_sheet_before_the_authors() {
    let (stylist, lock) = build_stylist(
        device(false),
        QuirksMode::NoQuirks,
        "p { color: red } b { color: blue }",
        &["p { color: green }", "i { } u { } s { }"],
        Some("https://example.org/a/"),
    );
    let read = lock.read();
    let held = |origin: Origin, index: usize| {
        let sheet = stylist.sheet_at(origin, index).expect("a sheet");
        let contents = sheet.0.contents.read_with(&read);
        assert_eq!(contents.url_data.as_str(), "https://example.org/a/");
        contents.rules.read_with(&read).0.len()
    };
    assert_eq!(stylist.sheet_count(Origin::UserAgent), 1);
    assert_eq!(stylist.sheet_count(Origin::Author), 2);
    assert_eq!(held(Origin::UserAgent, 0), 2);
    assert_eq!([held(Origin::Author, 0), held(Origin::Author, 1)], [1, 3]);
    assert!(!stylist.stylesheets_have_changed(), "the rules are in force");
    assert_eq!(stylist.num_selectors(), 6);
}

#[test]
fn what_is_no_url_leaves_a_fixed_base() {
    for base in [None, Some("not a url")] {
        let (stylist, lock) = build_stylist(device(false), QuirksMode::NoQuirks, "", &[], base);
        let read = lock.read();
        let sheet = stylist.sheet_at(Origin::UserAgent, 0).expect("a sheet");
        let contents = sheet.0.contents.read_with(&read);
        assert_eq!(contents.url_data.as_str(), "about:internal-stylesheet");
    }
}

#[test]
fn style_attributes_become_declarations() {
    let mut plane = StylePlane::new();
    let entry = |css: Option<&str>| StyleEntry {
        inline_style: css.map(str::to_string),
        ..StyleEntry::blank()
    };
    plane.entries.insert(1, entry(Some("color: red; width: 3px")));
    plane.entries.insert(2, entry(None));
    plane.entries.insert(3, entry(Some("width: 3")));
    let blocks = inline_blocks(&plane, QuirksMode::NoQuirks, None);
    assert_eq!(blocks.get(1).map(|b| b.len()), Some(2));
    assert!(blocks.get(2).is_none() && blocks.get(4).is_none());
    assert_eq!(blocks.get(3).map(|b| b.len()), Some(0), "a width has a unit");
    let blocks = inline_blocks(&plane, QuirksMode::Quirks, None);
    assert_eq!(blocks.get(3).map(|b| b.len()), Some(1), "but for quirks");
}

#[test]
fn evaluate_media_query_matches_and_serializes() {
    let stylist = stylist(false);
    let (media, matches) = evaluate_media_query(&stylist, "(min-width: 500px)");
    assert!(matches, "800px viewport matches min-width: 500px");
    assert_ne!(media, "not all");
    assert_eq!(media, "(min-width: 500px)");
    let (_, m) = evaluate_media_query(&stylist, "(min-width: 900px)");
    assert!(!m, "800px viewport does not match min-width: 900px");
    let (_, m) = evaluate_media_query(&stylist, "(totally-bogus-feature: 5)");
    assert!(!m, "an unknown feature never matches");
    assert_eq!(evaluate_media_query(&stylist, "&"), ("not all".to_string(), false));
    assert_eq!(evaluate_media_query(&stylist, ""), (String::new(), true));
    assert_eq!(evaluate_media_query(&stylist, " ALL "), ("all".to_string(), true));
    assert_eq!(evaluate_media_query(&stylist, "PRINT"), ("print".to_string(), false));
    assert_eq!(evaluate_media_query(&stylist, "not all"), ("not all".to_string(), false));
    assert_eq!(evaluate_media_query(&stylist, " \t\n"), (String::new(), true));
}

#[test]
fn an_evaluator_asks_its_own_device() {
    let light = MediaQueryEvaluator::new(stylist(false));
    let dark = MediaQueryEvaluator::new(stylist(true));
    let query = "(prefers-color-scheme: dark)";
    assert!(!light.evaluate(query).1);
    assert!(dark.evaluate(query).1);
    assert_eq!(light.evaluate(query).0, dark.evaluate(query).0);
}

#[test]
fn media_environment_preferences_do_not_clobber() {
    let start = MediaEnvironment { dark: false, reduced_motion: false };
    let reduced = start.with_reduced_motion(true);
    assert_eq!(reduced, MediaEnvironment { dark: false, reduced_motion: true });
    let both = reduced.with_color_scheme(true);
    assert!(both.dark && both.reduced_motion, "reduced motion is not clobbered");
    let query = "(prefers-color-scheme: dark)";
    assert!(!evaluate_media_query(&stylist(reduced.dark), query).1);
    assert!(evaluate_media_query(&stylist(both.dark), query).1, "the scheme is asked for");
}
