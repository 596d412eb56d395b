//! Text: leaves, ranges, search, the caret, hits and links.
//!
//! The text is shaped by hand: every character is a square of twenty pixels,
//! and the words that go on a line are given.
use serval_layout::box_tree::{build_box_tree, BoxTree};
use serval_layout::caret::{
    block_ancestor, caret_byte_vertical, caret_color, caret_line, collect_text_leaves,
    find_text_spans, goal_column, is_inline_name, leaf_text, range_spans, selection_of,
    selection_style, LeafSpan, TextRange, VerticalMove,
};
use serval_layout::dom::{Attribute, Dom, NodeId, QualName};
use serval_layout::fragment::{Edges, FragmentPlane, Layout, Rect};
use serval_layout::highlight::{
    caret_byte_at_point, caret_rect, find_text_rects, range_rects, selection_rects,
    text_selection, TextPlace,
};
use serval_layout::image_decode::ImagePlane;
use serval_layout::incremental::{BlockHit, IncrementalLayout};
use serval_layout::inline_content::{inline_sources, SourceSpan};
use serval_layout::inline_hit::{inline_hit_at, inline_source_at};
use serval_layout::link_harvest::{
    anchor_fragment, anchor_href, enclosing_anchor, harvest_link_rects, spans_of_leaf, LinkArea,
    LinkSpan,
};
use serval_layout::node_map::NodeMap;
use serval_layout::style_plane::{
    initial_style, ComputedStyle, DisplayOutside, Rgba, StyleEntry, StylePlane,
};
use serval_layout::text_layout::{Cluster, LineBox, PlacedBox, TextLayout, TextMeasureCtx};

const HTML: &str = "http://www.w3.org/1999/xhtml";
const VOID: [&str; 5] = ["img", "br", "link", "input", "meta"];
const BLOCKS: [&str; 4] = ["html", "body", "p", "div"];
const EM: f32 = 20.0;

fn add_attribute(dom: &mut Dom, id: NodeId, local: &str, value: &str) {
    let number = value.parse::<f32>().ok().map(f32::to_bits);
    dom.add_attribute(
        id,
        Attribute { ns: String::new(), local: local.to_string(), value: value.to_string(), number },
    );
}

fn element(dom: &mut Dom, parent: NodeId, local: &str) -> NodeId {
    dom.append_element(parent, QualName { ns: HTML.to_string(), local: local.to_string() })
}

/// Reads markup in which every element is closed and every value is quoted.
fn parse(html: &str) -> Dom {
    let mut dom = Dom::new();
    let mut open = vec![dom.document()];
    let mut rest = html;
    while !rest.is_empty() {
        let top = *open.last().expect("an open node");
        if let Some(tag) = rest.strip_prefix('<') {
            let end = tag.find('>').expect("a closed tag");
            let (inside, after) = (&tag[..end], &tag[end + 1..]);
            rest = after;
            if inside.starts_with('/') {
                open.pop();
                continue;
            }
            let (name, mut attributes) = inside.split_once(' ').unwrap_or((inside, ""));
            let id = element(&mut dom, top, name);
            while !attributes.trim().is_empty() {
                attributes = attributes.trim_start();
                let bare = attributes.find(' ').unwrap_or(attributes.len());
                match attributes.find('=') {
                    Some(eq) if eq < bare => {
                        let value = &attributes[eq + 2..];
                        let quote = value.find('"').expect("a closing quote");
                        add_attribute(&mut dom, id, &attributes[..eq], &value[..quote]);
                        attributes = &value[quote + 1..];
                    },
                    _ => {
                        add_attribute(&mut dom, id, &attributes[..bare], "");
                        attributes = &attributes[bare..];
                    },
                }
            }
            if !VOID.contains(&name) {
                open.push(id);
            }
        } else {
            let end = rest.find('<').unwrap_or(rest.len());
            dom.append_text(top, rest[..end].to_string());
            rest = &rest[end..];
        }
    }
    dom
}

fn find_all(dom: &Dom, local: &str) -> Vec<NodeId> {
    dom.document_order(dom.document()).into_iter().filter(|&n| dom.named(n, local)).collect()
}

fn find(dom: &Dom, local: &str) -> NodeId {
    find_all(dom, local)[0]
}

fn bits(x: f32) -> u32 {
    x.to_bits()
}

fn page_styles(dom: &Dom) -> StylePlane {
    let mut plane = StylePlane::new();
    for n in dom.document_order(dom.document()) {
        if let Some(name) = dom.element_name(n) {
            let mut style = initial_style();
            if BLOCKS.contains(&name.local.as_str()) {
                style.display_outside = DisplayOutside::Block;
            }
            plane.set_primary(n, style);
        }
    }
    plane
}

/// One line for each of some texts, one cluster for each character.
fn shaped(lines: &[&str]) -> TextLayout {
    let mut byte = 0;
    let mut out = Vec::new();
    for (i, text) in lines.iter().enumerate() {
        let top = i as f32 * EM;
        let mut clusters = Vec::new();
        for (k, c) in text.chars().enumerate() {
            let start = k as f32 * EM;
            clusters.push(Cluster { start: bits(start), end: bits(start + EM), byte });
            byte += c.len_utf8();
        }
        out.push(LineBox {
            top: bits(top),
            bottom: bits(top + EM),
            block_max: bits(top + EM),
            text_end: byte,
            clusters,
            boxes: Vec::new(),
        });
    }
    TextLayout { lines: out }
}

/// A page with its boxes, and each leaf's text on one line.
fn laid(dom: &Dom, styles: &StylePlane) -> (BoxTree, TextMeasureCtx) {
    let built = build_box_tree(dom, styles, &ImagePlane::new());
    let mut layouts = NodeMap::new();
    for n in dom.document_order(dom.document()) {
        if let (Some(index), Some(text)) = (built.node_map.get(n), leaf_text(n, &built)) {
            layouts.insert(*index, shaped(&[text.as_str()]));
        }
    }
    (built, TextMeasureCtx { layouts })
}

/// A rectangle: its corner, width and height.
#[derive(Clone, Copy, Debug, PartialEq)]
struct CaretRect {
    x: f32,
    y: f32,
    width: f32,
    height: f32,
}

/// One rectangle for each line that has some of the bytes.
fn selected(layout: &TextLayout, place: TextPlace, start: usize, end: usize) -> Vec<CaretRect> {
    let mut out = Vec::new();
    for line in &layout.lines {
        let spans: Vec<&Cluster> =
            line.clusters.iter().filter(|s| start <= s.byte && s.byte < end).collect();
        if let (Some(first), Some(last)) = (spans.first(), spans.last()) {
            let (x0, x1) = (f32::from_bits(first.start), f32::from_bits(last.end));
            let (y0, y1) = (f32::from_bits(line.top), f32::from_bits(line.bottom));
            out.push(CaretRect {
                x: place.x as f32 + x0,
                y: place.y as f32 + y0,
                width: x1 - x0,
                height: y1 - y0,
            });
        }
    }
    out
}

/// The caret before the glyph of a byte, or behind the last.
fn caret_at(layout: &TextLayout, place: TextPlace, byte: usize, width: f32) -> CaretRect {
    for line in &layout.lines {
        if let Some(s) = line.clusters.iter().find(|s| s.byte == byte) {
            return CaretRect {
                x: place.x as f32 + f32::from_bits(s.start),
                y: place.y as f32 + f32::from_bits(line.top),
                width,
                height: EM,
            };
        }
    }
    let line = layout.lines.last().expect("a line");
    let end = line.clusters.last().map_or(0.0, |s| f32::from_bits(s.end));
    CaretRect {
        x: place.x as f32 + end,
        y: place.y as f32 + f32::from_bits(line.top),
        width,
        height: EM,
    }
}

fn layout_at(ctx: &TextMeasureCtx, index: usize) -> &TextLayout {
    ctx.layouts.get(index).expect("shaped text")
}

/// The boxes one below the other, twenty pixels high.
fn stacked(dom: &Dom, built: &BoxTree) -> FragmentPlane {
    let mut plane = FragmentPlane::new();
    for n in dom.document_order(dom.document()) {
        if built.node_map.get(n).is_some() {
            let above = match dom.parent(n) {
                Some(p) => dom.dom_children(p).iter().position(|&c| c == n).unwrap_or(0),
                None => 0,
            };
            plane.insert(n, frame(0, above as i32 * 20, 800, 20));
        }
    }
    plane
}

fn range(anchor: (NodeId, usize), focus: (NodeId, usize)) -> TextRange<NodeId> {
    TextRange {
        anchor_node: anchor.0,
        anchor_offset: anchor.1,
        focus_node: focus.0,
        focus_offset: focus.1,
    }
}

// ---------------------------------------------------------------------------
// Colors
// ---------------------------------------------------------------------------
#[test]
fn selection_style_reads_selection_background() {
    let doc = parse("<html><body><p>abc</p></body></html>");
    let p = find(&doc, "p");
    let green = Rgba { r: bits(0.0), g: bits(1.0), b: bits(0.0), a: bits(1.0) };
    let mut styles = page_styles(&doc);
    let selection = ComputedStyle { background_color: green, ..initial_style() };
    let entry = StyleEntry {
        primary: Some(initial_style()),
        selection: Some(selection),
        ..StyleEntry::blank()
    };
    styles.entries.insert(p, entry);
    let (bg, _fg) = selection_style(&doc, &styles, p).expect("::selection background");
    assert_eq!(bg, green);
    // The text in the paragraph shows the paragraph's selection.
    let text = doc.dom_children(p)[0];
    assert!(selection_style(&doc, &styles, text).is_some());

    let bare = page_styles(&doc);
    assert!(selection_style(&doc, &bare, p).is_none(), "no ::selection rule");
}

#[test]
fn caret_color_tracks_the_text_color() {
    let doc = parse("<html><body><p>abc</p></body></html>");
    let p = find(&doc, "p");
    let blue = Rgba { r: bits(0.0), g: bits(0.0), b: bits(1.0), a: bits(1.0) };
    let mut styles = page_styles(&doc);
    styles.set_primary(p, ComputedStyle { color: blue, ..initial_style() });
    assert_eq!(caret_color(&doc, &styles, p), Some(blue), "a cascaded text colour");
    assert_eq!(caret_color(&doc, &styles, doc.dom_children(p)[0]), Some(blue));
    assert_eq!(caret_color(&doc, &StylePlane::new(), p), None);
}

// ---------------------------------------------------------------------------
// Ranges
// ---------------------------------------------------------------------------
#[test]
fn range_rects_span_two_paragraphs() {
    let doc = parse("<html><body><p>first para</p><p>second para</p></body></html>");
    let styles = page_styles(&doc);
    let (built, ctx) = laid(&doc, &styles);
    let fragments = stacked(&doc, &built);
    let ps = find_all(&doc, "p");
    assert_eq!(ps.len(), 2, "two paragraphs");
    let (top_p, bot_p) = (ps[0], ps[1]);
    let geometry =
        |p: TextPlace, s: usize, e: usize| selected(layout_at(&ctx, p.index), p, s, e);
    let rects_of = |r: &TextRange<NodeId>| range_rects(&doc, r, &built, &ctx, &fragments, &geometry);
    let mid = 10.0;

    let rects = rects_of(&range((top_p, 2), (bot_p, 3)));
    assert!(!rects.is_empty(), "spanning range highlights something");
    assert!(rects.iter().any(|r| r.y < mid), "highlight in the first paragraph");
    assert!(rects.iter().any(|r| r.y >= mid), "highlight in the second paragraph");
    assert_eq!(rects[0], CaretRect { x: 40.0, y: 0.0, width: 160.0, height: 20.0 });
    assert_eq!(rects[1], CaretRect { x: 0.0, y: 20.0, width: 60.0, height: 20.0 });

    let rev_rects = rects_of(&range((bot_p, 3), (top_p, 2)));
    assert_eq!(rev_rects, rects, "backwards drag highlights the same rects");

    let collapsed = rects_of(&range((top_p, 2), (top_p, 2)));
    assert!(collapsed.is_empty(), "collapsed range");

    let spans = range_spans(&doc, &range((top_p, 2), (bot_p, 3)), &built, &ctx);
    assert_eq!(
        spans,
        vec![
            LeafSpan { leaf: top_p, start: 2, end: usize::MAX },
            LeafSpan { leaf: bot_p, start: 0, end: 3 },
        ],
    );
}

#[test]
fn caret_advances_with_offset() {
    let doc = parse("<html><body><p>abc</p></body></html>");
    let styles = page_styles(&doc);
    let (built, ctx) = laid(&doc, &styles);
    let fragments = stacked(&doc, &built);
    let p = find(&doc, "p");
    let geometry = |place: TextPlace, byte: usize| {
        caret_at(layout_at(&ctx, place.index), place, byte, 2.0)
    };
    let at = |n, byte| caret_rect(&doc, n, byte, &built, &ctx, &fragments, &geometry);
    let at0 = at(p, 0).expect("caret at offset 0");
    let at3 = at(p, 3).expect("caret at the end");
    assert!(at0.height > 0.0);
    assert_eq!(at0.width, 2.0);
    assert!(at3.x > at0.x, "the caret moves right");
    assert_eq!(at3.y, at0.y, "single line: y constant");
    assert!(at(doc.document(), 0).is_none(), "the document has no text of its own");
}

#[test]
fn selection_covers_range() {
    let doc = parse("<html><body><p>abc</p></body></html>");
    let styles = page_styles(&doc);
    let (built, ctx) = laid(&doc, &styles);
    let fragments = stacked(&doc, &built);
    let p = find(&doc, "p");
    let geometry =
        |place: TextPlace, s: usize, e: usize| selected(layout_at(&ctx, place.index), place, s, e);
    let over = |s, e| selection_rects(&doc, p, s, e, &built, &ctx, &fragments, &geometry);
    let rects = over(0, 3);
    assert!(!rects.is_empty(), "a non-empty selection produces rects");
    let total_width: f32 = rects.iter().map(|r| r.width).sum();
    assert!(total_width > 0.0, "selection has positive width");
    assert!(over(1, 1).is_empty(), "a collapsed range selects nothing");
}

#[test]
fn padded_text_and_caret_share_origin() {
    let doc = parse("<html><body><p>abc</p></body></html>");
    let styles = page_styles(&doc);
    let (built, ctx) = laid(&doc, &styles);
    let p = find(&doc, "p");
    let mut fragments = stacked(&doc, &built);
    let mut padded = frame(0, 0, 800, 40);
    padded.padding.left = 30;
    fragments.insert(p, padded);
    let glyph_x = selection_rects(&doc, p, 0, 1, &built, &ctx, &fragments, &|place: TextPlace,
                                                                            s: usize,
                                                                            e: usize| {
        selected(layout_at(&ctx, place.index), place, s, e)
    })[0]
        .x;
    let caret0 = caret_rect(&doc, p, 0, &built, &ctx, &fragments, &|place: TextPlace, b: usize| {
        caret_at(layout_at(&ctx, place.index), place, b, 2.0)
    })
    .expect("a caret")
    .x;
    assert!(glyph_x >= 25.0, "glyphs inset by the padding");
    assert_eq!(glyph_x, caret0, "the first glyph coincides with the first caret");
}

#[test]
fn a_range_takes_whole_leaves_between_its_ends() {
    let doc = parse("<div><p>one</p><p>two</p><p>three</p></div>");
    let styles = page_styles(&doc);
    let (built, ctx) = laid(&doc, &styles);
    let ps = find_all(&doc, "p");
    assert_eq!(collect_text_leaves(&doc, &built, &ctx, doc.document()), ps);
    let spans = range_spans(&doc, &range((ps[0], 1), (ps[2], 2)), &built, &ctx);
    assert_eq!(spans[1], LeafSpan { leaf: ps[1], start: 0, end: usize::MAX });
    let same = range_spans(&doc, &range((ps[1], 2), (ps[1], 0)), &built, &ctx);
    assert_eq!(same, vec![LeafSpan { leaf: ps[1], start: 0, end: 2 }]);
    let nowhere = range_spans(&doc, &range((doc.document(), 0), (ps[0], 1)), &built, &ctx);
    assert!(nowhere.is_empty());
}

#[test]
fn a_selection_has_its_text() {
    let doc = parse("<div><p>one two</p><p>three</p></div>");
    let styles = page_styles(&doc);
    let (built, ctx) = laid(&doc, &styles);
    let ps = find_all(&doc, "p");
    let fragments = stacked(&doc, &built);
    let geometry =
        |p: TextPlace, s: usize, e: usize| selected(layout_at(&ctx, p.index), p, s, e);
    let drag = range((ps[1], 3), (ps[0], 4));
    let selection =
        text_selection(&doc, &drag, &built, &ctx, &fragments, &geometry).expect("a selection");
    assert_eq!(selection.text, "two\nthr", "a break between the blocks");
    assert_eq!(selection.range.anchor_node, ps[0]);
    assert_eq!(selection.range.anchor_offset, 4);
    assert_eq!(selection.range.focus_node, ps[1]);
    assert_eq!(selection.range.focus_offset, 3);
    assert_eq!(
        selection.rects,
        vec![
            CaretRect { x: 80.0, y: 0.0, width: 60.0, height: 20.0 },
            CaretRect { x: 0.0, y: 20.0, width: 60.0, height: 20.0 },
        ],
    );
    let hidden = FragmentPlane::new();
    assert!(text_selection(&doc, &drag, &built, &ctx, &hidden, &geometry).is_none());
    let caret = range((ps[0], 4), (ps[0], 4));
    assert!(text_selection(&doc, &caret, &built, &ctx, &fragments, &geometry).is_none());
    assert!(selection_of(&doc, &caret, &built, &ctx, vec![1]).is_none());
    assert!(selection_of(&doc, &drag, &built, &ctx, Vec::<u8>::new()).is_none());
}

#[test]
fn find_text_rects_locates_case_insensitive_matches() {
    let doc =
        parse("<html><body><p>The quick brown fox.</p><p>Another Fox here.</p></body></html>");
    let styles = page_styles(&doc);
    let (built, ctx) = laid(&doc, &styles);
    let ps = find_all(&doc, "p");
    let fragments = stacked(&doc, &built);
    let geometry =
        |p: TextPlace, s: usize, e: usize| selected(layout_at(&ctx, p.index), p, s, e);
    let find_rects =
        |needle: &str| find_text_rects(&doc, &built, &ctx, &fragments, needle, &geometry);
    let matches = find_rects("FOX");
    assert_eq!(matches.len(), 2, "two case-insensitive matches");
    for m in &matches {
        let r = m.first().expect("each match has a rect");
        assert!(r.width > 0.0 && r.height > 0.0, "positive-area highlight");
    }
    assert!(matches[1][0].y > matches[0][0].y, "second match is below the first");
    assert!(find_rects("zebra").is_empty());
    assert!(find_rects("").is_empty());

    let spans = find_text_spans(&doc, &built, &ctx, "FOX");
    assert_eq!(spans[0], LeafSpan { leaf: ps[0], start: 16, end: 19 });
    assert_eq!(spans[1], LeafSpan { leaf: ps[1], start: 8, end: 11 });
}

#[test]
fn a_match_that_is_not_shown_is_left_out() {
    let doc = parse("<div><p>fox</p><p>fox</p></div>");
    let styles = page_styles(&doc);
    let (built, ctx) = laid(&doc, &styles);
    let ps = find_all(&doc, "p");
    let mut fragments = FragmentPlane::new();
    fragments.insert(ps[1], frame(0, 7, 800, 20));
    let geometry =
        |p: TextPlace, s: usize, e: usize| selected(layout_at(&ctx, p.index), p, s, e);
    let found = find_text_rects(&doc, &built, &ctx, &fragments, "fox", &geometry);
    assert_eq!(found.len(), 1);
    assert_eq!(found[0][0].y, 7.0);
}

#[test]
fn matches_do_not_overlap() {
    let doc = parse("<p>aaaa</p>");
    let styles = page_styles(&doc);
    let (built, ctx) = laid(&doc, &styles);
    let found: Vec<(usize, usize)> =
        find_text_spans(&doc, &built, &ctx, "aa").iter().map(|s| (s.start, s.end)).collect();
    assert_eq!(found, vec![(0, 2), (2, 4)]);
}

#[test]
fn blocks_go_by_name() {
    assert!(is_inline_name("a") && is_inline_name("wbr") && !is_inline_name("p"));
    let doc = parse("<div><span>x</span></div>");
    let (div, span) = (find(&doc, "div"), find(&doc, "span"));
    assert_eq!(block_ancestor(&doc, span), div);
    assert_eq!(block_ancestor(&doc, doc.dom_children(span)[0]), div);
    assert_eq!(block_ancestor(&doc, doc.document()), doc.document());
}

// ---------------------------------------------------------------------------
// The caret
// ---------------------------------------------------------------------------
/// The byte at a column of a line: that of the glyph there, else the line's
/// last.
fn byte_at(layout: &TextLayout, line: usize, x: f32) -> usize {
    let spans = &layout.lines[line].clusters;
    let hit = spans.iter().find(|s| x < f32::from_bits(s.end));
    hit.unwrap_or_else(|| spans.last().expect("a glyph")).byte
}

#[test]
fn caret_navigates_visual_lines_and_points() {
    let layout = shaped(&["aaaa ", "bbbb ", "cccc ", "dddd"]);
    let down = match caret_byte_vertical(&layout, 0, bits(0.0), 1) {
        VerticalMove::OnLine(line) => {
            assert_eq!(line, 1, "down moved to a lower visual line");
            byte_at(&layout, line, 0.0)
        },
        VerticalMove::To(_) => panic!("there is a line below"),
    };
    assert!(down > 0, "down moved off byte 0");
    assert_eq!(down, 5);
    // Up from there returns to the first row.
    assert_eq!(caret_byte_vertical(&layout, down, bits(EM), -1), VerticalMove::OnLine(0));
    // Beyond the first and the last line.
    assert_eq!(caret_byte_vertical(&layout, 7, bits(EM), -2), VerticalMove::To(0));
    assert_eq!(caret_byte_vertical(&layout, 7, bits(EM), 3), VerticalMove::To(19));
    assert_eq!(caret_byte_vertical(&layout, 7, bits(500.0), 0), VerticalMove::OnLine(3));
    let empty = TextLayout { lines: Vec::new() };
    assert_eq!(caret_byte_vertical(&empty, 7, bits(0.0), 1), VerticalMove::To(7));

    // A click on the wrapped row resolves to a caret on that same row.
    let dom = parse("<html><body><p>aaaa bbbb cccc dddd</p></body></html>");
    let styles = page_styles(&dom);
    let (built, mut ctx) = laid(&dom, &styles);
    let p = find(&dom, "p");
    ctx.layouts.insert(*built.node_map.get(p).expect("a box"), layout);
    let mut fragments = stacked(&dom, &built);
    fragments.insert(p, frame(3, 4, 20, 80));
    let click = |n| {
        caret_byte_at_point(&dom, n, &built, &ctx, &fragments, &|place: TextPlace| {
            let line = (30.0 - place.y as f32) / EM;
            byte_at(layout_at(&ctx, place.index), line as usize, 5.0 - place.x as f32)
        })
    };
    assert_eq!(click(p), Some(5), "the click maps to the clicked row");
    assert_eq!(click(dom.document()), None, "no text, no byte");
}

#[test]
fn caret_vertical_keeps_a_sticky_goal_column() {
    let layout = shaped(&["aaaaaaaa ", "bb ", "cccccccc"]);
    let start_x = 8.0 * EM;
    let goal = goal_column(None, bits(start_x));
    assert_eq!(goal, bits(start_x), "the goal is where the run of moves starts");
    let short = match caret_byte_vertical(&layout, 8, bits(0.0), 1) {
        VerticalMove::OnLine(line) => byte_at(&layout, line, f32::from_bits(goal)),
        VerticalMove::To(_) => panic!("there is a line below"),
    };
    let short_x = (short - 9) as f32 * EM;
    assert!(short_x < start_x - 5.0, "the short row holds the caret back");
    let goal2 = goal_column(Some(goal), bits(short_x));
    assert_eq!(goal2, goal, "the goal is stable across the run");
    let long = match caret_byte_vertical(&layout, short, bits(EM), 1) {
        VerticalMove::OnLine(line) => byte_at(&layout, line, f32::from_bits(goal2)),
        VerticalMove::To(_) => panic!("there is a line below"),
    };
    assert!((long - 12) as f32 * EM > short_x + 5.0, "the goal returns the caret rightward");
}

#[test]
fn the_caret_spans_a_line() {
    let layout = shaped(&["ab", "cd"]);
    assert_eq!(caret_line(&layout, Some(0)), Some(0));
    assert_eq!(caret_line(&layout, None), Some(1));
    assert_eq!(caret_line(&TextLayout { lines: Vec::new() }, None), None);
}

// ---------------------------------------------------------------------------
// Hits
// ---------------------------------------------------------------------------
fn source(start: usize, end: usize, source: NodeId) -> SourceSpan {
    SourceSpan { start, end, source }
}

#[test]
fn inline_link_is_hit_testable() {
    let dom = parse("<html><body><p><a href=\"/dest\">AAAA</a></p></body></html>");
    let a = find(&dom, "a");
    let layout = shaped(&["AAAA"]);
    let sources = [source(0, 4, a)];
    let hit = |x: f32, y: f32| inline_source_at(&layout, &sources, bits(x), bits(y));
    assert_eq!(hit(30.0, 10.0), Some(a), "a click on the link text");
    assert_eq!(hit(200.0, 10.0), None, "a click past the link text is the block's");
}

#[test]
fn wrapped_inline_link_uses_per_line_rects_not_a_union() {
    let dom = parse("<html><body><p><a href=\"/dest\">AAAA BB</a></p></body></html>");
    let a = find(&dom, "a");
    let layout = shaped(&["AAAA", " BB"]);
    // The space at the break takes no room on the second line.
    let mut layout = layout;
    layout.lines[1].clusters.remove(0);
    for (k, span) in layout.lines[1].clusters.iter_mut().enumerate() {
        span.start = bits(k as f32 * EM);
        span.end = bits((k + 1) as f32 * EM);
    }
    let sources = [source(0, 7, a)];
    let hit = |x: f32, y: f32| inline_source_at(&layout, &sources, bits(x), bits(y));
    assert_eq!(hit(60.0, 10.0), Some(a), "line 1, on AAAA");
    assert_eq!(hit(20.0, 30.0), Some(a), "line 2, on BB");
    assert_eq!(hit(60.0, 30.0), None, "past BB on line 2 is the block's");
}

#[test]
fn colour_only_inline_link_is_hit_testable() {
    let dom = parse("<html><body><p>XX<a href=\"/dest\">LINK</a>YY</p></body></html>");
    let (p, a) = (find(&dom, "p"), find(&dom, "a"));
    // The link differs in color alone: all eight characters are shaped as one run,
    // in which each has a cluster of its own.
    let layout = session(&dom);
    let (_, ctx) = laid(&dom, &layout.styles);
    let index = *layout.built.node_map.get(p).expect("a box");
    assert_eq!(layout_at(&ctx, index).lines[0].clusters.len(), 8);
    let scroll = NodeMap::new();
    let hit = |x: f32, y: f32| {
        let under = |_: &IncrementalLayout, _: &NodeMap<(i64, i64)>| {
            Some(BlockHit { node: p, x: bits(x), y: bits(y) })
        };
        layout.hit_test(&ctx, &scroll, &under)
    };
    assert_eq!(hit(60.0, 10.0), Some(a), "on the link's glyphs");
    assert_eq!(hit(10.0, 10.0), Some(p), "the text before the link");
    assert_eq!(hit(130.0, 10.0), Some(p), "the text after the link");
}

#[test]
fn the_text_of_a_box_knows_the_elements_it_came_from() {
    let dom = parse(
        "<html><body><p>Xé<a href=\"/x\">A<b>BB</b></a><br><img width=\"1\" height=\"1\">Y</p></body></html>",
    );
    let (p, a, b) = (find(&dom, "p"), find(&dom, "a"), find(&dom, "b"));
    let (built, _) = laid(&dom, &page_styles(&dom));
    let spans = vec![
        source(0, 3, p),
        source(3, 4, a),
        source(4, 6, b),
        source(6, 7, p),
        source(7, 8, p),
    ];
    assert_eq!(built.inline_sources(p), Some(spans.clone()));
    let index = *built.node_map.get(p).expect("a box");
    let content = built.get_node_context(index).expect("text");
    assert_eq!(inline_sources(content), spans);
    assert_eq!(built.inline_sources(a), None, "no box of its own");
    assert_eq!(built.inline_sources(find(&dom, "body")), None, "no text of its own");
}

#[test]
fn the_marker_inside_an_item_is_the_items() {
    let dom = parse("<html><body><li>one</li></body></html>");
    let li = find(&dom, "li");
    let mut styles = page_styles(&dom);
    let item = ComputedStyle {
        display_outside: DisplayOutside::Block,
        list_style_inside: true,
        ..initial_style()
    };
    styles.set_primary(li, item);
    let (built, _) = laid(&dom, &styles);
    let spans = built.inline_sources(li).expect("text");
    assert_eq!(spans.len(), 2, "the marker and the text");
    assert!(spans.iter().all(|s| s.source == li));
    assert_eq!(spans[1].end - spans[1].start, 3);
    assert_eq!(spans[0].end, spans[1].start);
}

#[test]
fn what_lets_the_pointer_through_is_not_hit() {
    let dom = parse("<p><a href=\"/x\">AA</a></p>");
    let (p, a) = (find(&dom, "p"), find(&dom, "a"));
    let mut styles = page_styles(&dom);
    let (built, ctx) = laid(&dom, &styles);
    let at = |styles: &StylePlane, n| {
        inline_hit_at(&built, &ctx, styles, n, bits(10.0), bits(10.0))
    };
    assert_eq!(at(&styles, p), Some(a));
    assert_eq!(at(&styles, a), None, "the link has no box of its own");
    styles.set_primary(a, ComputedStyle { pointer_events_none: true, ..initial_style() });
    assert_eq!(at(&styles, p), None);
}

/// A session over a page whose boxes all stand at the top.
fn session(dom: &Dom) -> IncrementalLayout {
    IncrementalLayout::new(
        dom,
        Vec::new(),
        800,
        600,
        &|_: StylePlane, _: NodeId, _: &Vec<(NodeId, u64)>| page_styles(dom),
        &|_: &StylePlane, _: NodeId| None,
        &|_: &StylePlane, tree: &BoxTree| vec![frame(0, 0, 800, 20); tree.nodes.len()],
    )
}

#[test]
fn a_hit_comes_to_the_inline_element() {
    let dom = parse("<html><body><p>XX<a href=\"/x\">AA</a></p></body></html>");
    let (p, a) = (find(&dom, "p"), find(&dom, "a"));
    let mut layout = session(&dom);
    let (_, ctx) = laid(&dom, &layout.styles);
    layout.element_scroll.insert(p, (0, 64));
    layout.element_scroll.insert(a, (0, 128));
    let mut host = NodeMap::new();
    host.insert(a, (0, 192));
    let at = |layout: &IncrementalLayout, node: Option<NodeId>, x: f32| {
        layout.hit_test(&ctx, &host, &|s, offsets| {
            assert_eq!(s.fragments.len(), 3);
            assert_eq!(offsets.get(p), Some(&(0, 64)), "the session's own");
            assert_eq!(offsets.get(a), Some(&(0, 192)), "the host's over the session's");
            node.map(|node| BlockHit { node, x: bits(x), y: bits(10.0) })
        })
    };
    assert_eq!(at(&layout, Some(p), 50.0), Some(a), "on the link");
    assert_eq!(at(&layout, Some(p), 10.0), Some(p), "before the link");
    assert_eq!(at(&layout, None, 50.0), None, "no box there");
    layout.fragments.rects.remove(p);
    layout.fragments.insert(a, frame(0, 0, 0, 0));
    assert_eq!(at(&layout, Some(p), 50.0), Some(p), "no place of its own");
}

#[test]
fn a_session_follows_the_link_under_a_point() {
    let dom = parse("<html><body><p>XX<a href=\"#part\">AA</a></p></body></html>");
    let (p, a) = (find(&dom, "p"), find(&dom, "a"));
    let layout = session(&dom);
    let (_, ctx) = laid(&dom, &layout.styles);
    let none = NodeMap::new();
    let view = |x: f32| {
        move |_: &IncrementalLayout, _: &NodeMap<(i64, i64)>| {
            Some(BlockHit { node: p, x: bits(x), y: bits(10.0) })
        }
    };
    let href = |x: f32| layout.link_href_at(&dom, &ctx, &none, &view(x));
    let fragment = |x: f32| layout.link_fragment_at(&dom, &ctx, &none, &view(x));
    assert_eq!(href(50.0).as_deref(), Some("#part"));
    assert_eq!(fragment(50.0).as_deref(), Some("part"));
    assert_eq!(href(10.0), None, "before the link");
    assert_eq!(fragment(10.0), None);
}

#[test]
fn a_session_shows_its_caret_and_selection() {
    let doc = parse("<html><body><p>abc</p></body></html>");
    let p = find(&doc, "p");
    let mut layout = session(&doc);
    let (_, ctx) = laid(&doc, &layout.styles);
    let caret = |place: TextPlace, byte: usize| {
        caret_at(layout_at(&ctx, place.index), place, byte, 2.0)
    };
    let at2 = CaretRect { x: 40.0, y: 0.0, width: 2.0, height: EM };
    assert_eq!(layout.caret_rect(&doc, p, 2, &ctx, &caret), Some(at2));
    assert_eq!(layout.caret_rect(&doc, doc.document(), 0, &ctx, &caret), None);
    let chosen =
        |place: TextPlace, s: usize, e: usize| selected(layout_at(&ctx, place.index), place, s, e);
    assert_eq!(
        layout.selection_rects(&doc, p, 1, 3, &ctx, &chosen),
        vec![CaretRect { x: 20.0, y: 0.0, width: 40.0, height: EM }],
    );
    assert!(layout.selection_rects(&doc, p, 2, 2, &ctx, &chosen).is_empty());

    let red = Rgba { r: bits(1.0), g: bits(0.0), b: bits(0.0), a: bits(1.0) };
    let primary = ComputedStyle { color: red, ..initial_style() };
    let selection = ComputedStyle { background_color: red, ..initial_style() };
    let entry = StyleEntry {
        primary: Some(primary),
        selection: Some(selection),
        ..StyleEntry::blank()
    };
    layout.styles.entries.insert(p, entry);
    assert_eq!(layout.caret_color(&doc, p), Some(red));
    assert_eq!(layout.selection_style(&doc, p), Some((red, initial_style().color)));
}

// ---------------------------------------------------------------------------
// Links
// ---------------------------------------------------------------------------
fn frame(x: i32, y: i32, width: i32, height: i32) -> Layout {
    let none = Edges { left: 0, top: 0, right: 0, bottom: 0 };
    Layout { x, y, width, height, border: none, padding: none, margin_top: 0, margin_bottom: 0 }
}

fn frames(dom: &Dom, built: &BoxTree) -> FragmentPlane {
    let mut plane = FragmentPlane::new();
    for n in dom.document_order(dom.document()) {
        if built.node_map.get(n).is_some() {
            plane.insert(n, frame(0, 0, 800, 20));
        }
    }
    plane
}

#[test]
fn inline_anchor_harvests_a_line_rect() {
    let doc = parse(
        "<html><body><p>see <a href=\"https://example.test/spec\">the spec</a> now</p></body></html>",
    );
    let styles = page_styles(&doc);
    let (built, ctx) = laid(&doc, &styles);
    let (p, a) = (find(&doc, "p"), find(&doc, "a"));
    let links = harvest_link_rects(&doc, &frames(&doc, &built), &built, &ctx);
    assert_eq!(links.len(), 1, "one inline link");
    assert_eq!(links[0].0, "https://example.test/spec");
    match &links[0].1 {
        LinkArea::Text(span) => {
            assert_eq!(*span, LeafSpan { leaf: p, start: 4, end: 12 });
            assert!(span.end > span.start, "positive area");
            assert!(span.start > 0, "the link starts after the leading text");
        },
        _ => panic!("the link is on text"),
    }
}

#[test]
fn block_anchor_harvests_its_box() {
    let doc = parse("<html><body><a href=\"/home\">Home</a></body></html>");
    let mut styles = page_styles(&doc);
    let (body, a) = (find(&doc, "body"), find(&doc, "a"));
    let block = ComputedStyle { display_outside: DisplayOutside::Block, ..initial_style() };
    styles.set_primary(a, block);
    let (built, ctx) = laid(&doc, &styles);
    let mut fragments = FragmentPlane::new();
    fragments.insert(find(&doc, "html"), frame(0, 0, 800, 600));
    fragments.insert(body, frame(3, 4, 800, 40));
    fragments.insert(a, frame(1, 2, 200, 40));
    let links = harvest_link_rects(&doc, &fragments, &built, &ctx);
    assert!(!links.is_empty(), "block anchor harvests rects");
    assert!(links.iter().all(|(h, _)| h == "/home"), "all rects carry the href");
    let row = Rect { x0: 4, y0: 6, x1: 204, y1: 46 };
    assert!(links.iter().any(|(_, area)| matches!(area, LinkArea::Boxed(r) if *r == row)));
}

#[test]
fn image_only_inline_anchor_harvests_the_image_box() {
    let doc = parse(
        "<html><body><p><a href=\"https://example.test/home\"><img width=\"40\" height=\"30\"></a></p></body></html>",
    );
    let styles = page_styles(&doc);
    let (built, mut ctx) = laid(&doc, &styles);
    let p = find(&doc, "p");
    let index = *built.node_map.get(p).expect("a box");
    let placed =
        PlacedBox { id: 0, x: bits(0.0), y: bits(0.0), width: bits(40.0), height: bits(30.0) };
    let mut layout = shaped(&[""]);
    layout.lines[0].boxes.push(placed);
    ctx.layouts.insert(index, layout);
    let mut fragments = frames(&doc, &built);
    let mut framed = frame(5, 6, 800, 30);
    framed.border.left = 1;
    framed.padding.top = 2;
    fragments.insert(p, framed);
    let links = harvest_link_rects(&doc, &fragments, &built, &ctx);
    let hit = links.iter().find(|(h, _)| h == "https://example.test/home");
    assert!(hit.is_some(), "an image-only inline link harvests a rect");
    match &hit.expect("a link").1 {
        LinkArea::Image { x, y, placed } => {
            assert_eq!((*x, *y), (6, 8), "where the paragraph's content starts");
            assert_eq!(placed.width, bits(40.0), "40px wide image box");
            assert_eq!(placed.height, bits(30.0), "30px tall image box");
        },
        _ => panic!("the link is on the image"),
    }
}

#[test]
fn no_links_harvests_empty() {
    let doc = parse("<html><body><p>plain text</p></body></html>");
    let styles = page_styles(&doc);
    let (built, ctx) = laid(&doc, &styles);
    let p = find(&doc, "p");
    assert!(harvest_link_rects(&doc, &frames(&doc, &built), &built, &ctx).is_empty());
}

#[test]
fn the_parts_of_a_link_are_joined() {
    let doc = parse("<p><a href=\"/x\">one <b>two</b></a> rest</p>");
    let (p, a, b) = (find(&doc, "p"), find(&doc, "a"), find(&doc, "b"));
    let runs = vec![source(0, 4, a), source(4, 7, b), source(7, 12, p)];
    assert_eq!(spans_of_leaf(&doc, p, &runs), vec![LinkSpan { anchor: a, start: 0, end: 7 }]);
    assert_eq!(enclosing_anchor(&doc, b, p), Some((a, "/x".to_string())));
    assert_eq!(enclosing_anchor(&doc, b, b), None, "no further up than the leaf");
}

#[test]
fn addresses_and_fragments() {
    let doc =
        parse("<a href=\"#top\"></a><a href=\"\"></a><a></a><b href=\"#b\"></b><a href=\"#\"></a>");
    let all = find_all(&doc, "a");
    assert_eq!(anchor_href(&doc, all[0]).as_deref(), Some("#top"));
    assert_eq!(anchor_fragment(&doc, all[0]).as_deref(), Some("top"));
    assert_eq!(anchor_href(&doc, all[1]), None, "an empty address is none");
    assert_eq!(anchor_href(&doc, all[2]), None);
    assert_eq!(anchor_href(&doc, find(&doc, "b")), None);
    assert_eq!(anchor_fragment(&doc, all[3]), None, "a bare # leads nowhere");
}
