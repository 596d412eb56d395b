//! Carets and selections: which text leaves a range covers, what text it
//! holds, where a search matches, and where a vertical caret move lands.
use vstd::prelude::*;
use vstd::string::*;
use vstd::utf8::*;
use crate::box_tree::BoxTree;
use crate::dom::{Dom, NodeId};
use crate::float_bits;
use crate::float_bits::{less, Bits, ZERO};
use crate::inline_content::{InlineContent, InlineRun};
use crate::scan;
use crate::style_plane::{Rgba, StylePlane};
use crate::text;
use crate::text::{char_width, chars_of, lower_char, lower_chars, slice_bytes, str_eq};
use crate::text_layout::{LineBox, TextLayout, TextMeasureCtx};

verus! {

// ---------------------------------------------------------------------------
// Colors
// ---------------------------------------------------------------------------
/// Whether the cascade gave an element a `::selection` style whose background
/// can be seen.
pub open spec fn has_selection_background(styles: &StylePlane, id: NodeId) -> bool {
    &&& styles.primary_at(id) is Some
    &&& styles.entries@[id].selection matches Some(s) && float_bits::lt(ZERO, s.background_color.a)
}

/// The background and text color of the selection on `node`: those of the
/// `::selection` style of the nearest element, from `node` up, that has one
/// whose background can be seen.
pub open spec fn selection_colors(dom: &Dom, styles: &StylePlane, node: NodeId) -> Option<
    (Rgba, Rgba),
> {
    match dom.nearest(node, |id: NodeId| has_selection_background(styles, id)) {
        Some(id) => {
            let s = styles.entries@[id].selection->0;
            Some((s.background_color, s.color))
        },
        None => None,
    }
}

/// The background and text color of the selection on `node`. `None` leaves the
/// choice to the host.
pub fn selection_style(dom: &Dom, styles: &StylePlane, node: NodeId) -> (r: Option<(Rgba, Rgba)>)
    requires
        dom.wf(),
        dom.has(node),
    ensures
        r == selection_colors(dom, styles, node),
{
    let ghost p = |id: NodeId| has_selection_background(styles, id);
    let mut cur: Option<NodeId> = Some(node);
    while cur.is_some()
        invariant
            dom.wf(),
            p == (|id: NodeId| has_selection_background(styles, id)),
            cur matches Some(id) ==> dom.has(id) && dom.nearest(node, p) == dom.nearest(id, p),
            cur is None ==> dom.nearest(node, p) is None,
        decreases
            (if let Some(id) = cur {
                dom.depth_at(id) + 1
            } else {
                0
            }),
    {
        let id: NodeId = cur.unwrap();
        if let Some(e) = styles.get(id) {
            if e.primary.is_some() {
                if let Some(s) = &e.selection {
                    if less(ZERO, s.background_color.a) {
                        assert(p(id));
                        return Some((s.background_color, s.color));
                    }
                }
            }
        }
        assert(!p(id));
        cur = dom.parent(id);
    }
    None
}

/// The color of the caret in `node`: the text color of the nearest element,
/// from `node` up, that the cascade has styled.
pub open spec fn caret_color_at(dom: &Dom, styles: &StylePlane, node: NodeId) -> Option<Rgba> {
    match dom.nearest(node, |id: NodeId| styles.primary_at(id) is Some) {
        Some(id) => Some(styles.primary_at(id)->0.color),
        None => None,
    }
}

/// The color of the caret in `node`. `None` leaves the choice to the host.
pub fn caret_color(dom: &Dom, styles: &StylePlane, node: NodeId) -> (r: Option<Rgba>)
    requires
        dom.wf(),
        dom.has(node),
    ensures
        r == caret_color_at(dom, styles, node),
{
    let ghost p = |id: NodeId| styles.primary_at(id) is Some;
    let mut cur: Option<NodeId> = Some(node);
    while cur.is_some()
        invariant
            dom.wf(),
            p == (|id: NodeId| styles.primary_at(id) is Some),
            cur matches Some(id) ==> dom.has(id) && dom.nearest(node, p) == dom.nearest(id, p),
            cur is None ==> dom.nearest(node, p) is None,
        decreases
            (if let Some(id) = cur {
                dom.depth_at(id) + 1
            } else {
                0
            }),
    {
        let id: NodeId = cur.unwrap();
        if let Some(s) = styles.primary(id) {
            assert(p(id));
            return Some(s.color);
        }
        assert(!p(id));
        cur = dom.parent(id);
    }
    None
}

// ---------------------------------------------------------------------------
// Text leaves
// ---------------------------------------------------------------------------
/// Whether a node's box has shaped text.
pub open spec fn is_text_leaf(built: &BoxTree, ctx: &TextMeasureCtx, id: NodeId) -> bool {
    built.node_map@.contains_key(id) && ctx.layouts@.contains_key(built.node_map@[id])
}

/// The nodes from `node` down whose box has shaped text, in document order.
pub open spec fn text_leaves(
    dom: &Dom,
    built: &BoxTree,
    ctx: &TextMeasureCtx,
    node: NodeId,
) -> Seq<NodeId> {
    dom.order(node).filter(|id: NodeId| is_text_leaf(built, ctx, id))
}

/// The nodes from `node` down whose box has shaped text, in document order.
pub fn collect_text_leaves(dom: &Dom, built: &BoxTree, ctx: &TextMeasureCtx, node: NodeId) -> (r:
    Vec<NodeId>)
    requires
        dom.wf(),
        dom.has(node),
    ensures
        r@ == text_leaves(dom, built, ctx, node),
{
    let order = dom.document_order(node);
    let ghost p = |id: NodeId| is_text_leaf(built, ctx, id);
    let mut out: Vec<NodeId> = Vec::new();
    let mut i: usize = 0;
    proof {
        reveal(Seq::filter);
        assert(order@.take(0).filter(p) =~= Seq::<NodeId>::empty());
    }
    while i < order.len()
        invariant
            i <= order@.len(),
            p == (|id: NodeId| is_text_leaf(built, ctx, id)),
            out@ == order@.take(i as int).filter(p),
        decreases order.len() - i,
    {
        let id = order[i];
        let leaf = match built.node_map.get(id) {
            Some(index) => ctx.layouts.contains(*index),
            None => false,
        };
        proof {
            reveal(Seq::filter);
            assert(order@.take(i + 1).drop_last() =~= order@.take(i as int));
            assert(order@.take(i + 1).last() == id);
            assert(leaf == p(id));
        }
        if leaf {
            out.push(id);
        }
        i += 1;
    }
    assert(order@.take(i as int) =~= order@);
    out
}

/// The text of some runs in a row.
pub open spec fn joined(runs: Seq<InlineRun>) -> Seq<char>
    decreases runs.len(),
{
    if runs.len() == 0 {
        Seq::empty()
    } else {
        joined(runs.drop_last()) + runs.last().text@
    }
}

/// The text that is set in a node's box.
pub open spec fn leaf_text_of(built: &BoxTree, leaf: NodeId) -> Option<Seq<char>> {
    if built.node_map@.contains_key(leaf) && built.node_map@[leaf] < built.nodes@.len() {
        match built.nodes@[built.node_map@[leaf] as int].inline_content {
            Some(c) => Some(joined(c.runs@)),
            None => None,
        }
    } else {
        None
    }
}

/// The text that is set in a node's box.
pub fn leaf_text(leaf: NodeId, built: &BoxTree) -> (r: Option<String>)
    ensures
        leaf_text_of(built, leaf) == (match r {
            Some(t) => Some(t@),
            None => None,
        }),
{
    let index: usize = match built.node_map.get(leaf) {
        Some(index) => *index,
        None => return None,
    };
    match built.get_node_context(index) {
        Some(content) => {
            let runs = &content.runs;
            let mut s: String = String::new();
            let mut i: usize = 0;
            assert(joined(runs@.take(0)) =~= Seq::<char>::empty());
            while i < runs.len()
                invariant
                    i <= runs@.len(),
                    s@ == joined(runs@.take(i as int)),
                decreases runs.len() - i,
            {
                assert(runs@.take(i + 1).drop_last() =~= runs@.take(i as int));
                s.append(runs[i].text.as_str());
                i += 1;
            }
            assert(runs@.take(i as int) =~= runs@);
            Some(s)
        },
        None => None,
    }
}

// ---------------------------------------------------------------------------
// Blocks
// ---------------------------------------------------------------------------
/// Whether an element with this name is inline by nature.
pub open spec fn inline_name(n: Seq<char>) -> bool {
    ||| n == "a"@ || n == "abbr"@ || n == "b"@ || n == "bdi"@ || n == "bdo"@ || n == "cite"@
    ||| n == "code"@ || n == "data"@ || n == "del"@ || n == "dfn"@ || n == "em"@ || n == "i"@
    ||| n == "ins"@ || n == "kbd"@ || n == "label"@ || n == "mark"@ || n == "q"@ || n == "rp"@
    ||| n == "rt"@ || n == "ruby"@ || n == "s"@ || n == "samp"@ || n == "small"@ || n == "span"@
    ||| n == "strong"@ || n == "sub"@ || n == "sup"@ || n == "time"@ || n == "u"@ || n == "var"@
    ||| n == "wbr"@
}

/// Whether an element with this name is inline by nature.
pub fn is_inline_name(n: &str) -> (r: bool)
    ensures
        r == inline_name(n@),
{
    str_eq(n, "a") || str_eq(n, "abbr") || str_eq(n, "b") || str_eq(n, "bdi") || str_eq(n, "bdo")
        || str_eq(n, "cite") || str_eq(n, "code") || str_eq(n, "data") || str_eq(n, "del")
        || str_eq(n, "dfn") || str_eq(n, "em") || str_eq(n, "i") || str_eq(n, "ins") || str_eq(
        n,
        "kbd",
    ) || str_eq(n, "label") || str_eq(n, "mark") || str_eq(n, "q") || str_eq(n, "rp") || str_eq(
        n,
        "rt",
    ) || str_eq(n, "ruby") || str_eq(n, "s") || str_eq(n, "samp") || str_eq(n, "small") || str_eq(
        n,
        "span",
    ) || str_eq(n, "strong") || str_eq(n, "sub") || str_eq(n, "sup") || str_eq(n, "time")
        || str_eq(n, "u") || str_eq(n, "var") || str_eq(n, "wbr")
}

/// Whether a node is an element that is a block by its name.
pub open spec fn is_block_named(dom: &Dom, id: NodeId) -> bool {
    dom.local_at(id) matches Some(n) && !inline_name(n)
}

/// The nearest element, from `node` up, that is a block by its name; `node`
/// itself where there is none.
pub open spec fn block_of(dom: &Dom, node: NodeId) -> NodeId {
    match dom.nearest(node, |id: NodeId| is_block_named(dom, id)) {
        Some(id) => id,
        None => node,
    }
}

/// The nearest element, from `node` up, that is a block by its name.
pub fn block_ancestor(dom: &Dom, node: NodeId) -> (r: NodeId)
    requires
        dom.wf(),
        dom.has(node),
    ensures
        r == block_of(dom, node),
{
    let ghost p = |id: NodeId| is_block_named(dom, id);
    let mut cur: Option<NodeId> = Some(node);
    while cur.is_some()
        invariant
            dom.wf(),
            p == (|id: NodeId| is_block_named(dom, id)),
            cur matches Some(id) ==> dom.has(id) && dom.nearest(node, p) == dom.nearest(id, p),
            cur is None ==> dom.nearest(node, p) is None,
        decreases
            (if let Some(id) = cur {
                dom.depth_at(id) + 1
            } else {
                0
            }),
    {
        let id: NodeId = cur.unwrap();
        if let Some(name) = dom.element_name(id) {
            if !is_inline_name(name.local.as_str()) {
                assert(p(id));
                return id;
            }
        }
        assert(!p(id));
        cur = dom.parent(id);
    }
    node
}

// ---------------------------------------------------------------------------
// Ranges
// ---------------------------------------------------------------------------
/// A range of text: where it was begun and where it was drawn to, each as a
/// leaf and a byte offset in that leaf's text. The end may stand before the
/// start in the document.
#[derive(Clone, Copy, Debug, PartialEq, Eq)]
pub struct TextRange<N> {
    pub anchor_node: N,
    pub anchor_offset: usize,
    pub focus_node: N,
    pub focus_offset: usize,
}

/// A part of one leaf's text between two byte offsets; `usize::MAX` stands for
/// the end of the text.
#[derive(Clone, Copy, Debug, PartialEq, Eq, Structural)]
pub struct LeafSpan {
    pub leaf: NodeId,
    pub start: usize,
    pub end: usize,
}

/// A selected range: its ends in document order, the rectangles that highlight
/// it, and its text.
pub struct TextSelection<R> {
    pub range: TextRange<NodeId>,
    pub rects: Vec<R>,
    pub text: String,
}

fn position(s: &Vec<NodeId>, x: NodeId) -> (r: Option<usize>)
    ensures
        scan::first_index(s@, x) == (match r {
            Some(k) => Some(k as nat),
            None => None,
        }),
        r matches Some(k) ==> k < s@.len() && s@[k as int] == x,
{
    let mut i: usize = 0;
    assert(s@.skip(0) =~= s@);
    while i < s.len()
        invariant
            i <= s@.len(),
            scan::first_index(s@, x) == (match scan::first_index(s@.skip(i as int), x) {
                Some(k) => Some(k + i as nat),
                None => None,
            }),
        decreases s.len() - i,
    {
        if s[i] == x {
            return Some(i);
        }
        assert(s@.skip(i as int).skip(1) =~= s@.skip(i + 1));
        i += 1;
    }
    None
}

/// The two ends of a range in document order, each as the number of its leaf
/// and its offset.
#[derive(Clone, Copy, Debug, PartialEq, Eq, Structural)]
pub struct Ends {
    pub first: usize,
    pub first_offset: usize,
    pub last: usize,
    pub last_offset: usize,
}

/// The two ends of a range in document order: by leaf, then by offset. `None`
/// where an end is at no leaf.
pub open spec fn ends_of(leaves: Seq<NodeId>, range: TextRange<NodeId>) -> Option<Ends> {
    match (scan::first_index(leaves, range.anchor_node), scan::first_index(leaves, range.focus_node)) {
        (Some(a), Some(f)) => if a < f || (a == f && range.anchor_offset <= range.focus_offset) {
            Some(
                Ends {
                    first: a as usize,
                    first_offset: range.anchor_offset,
                    last: f as usize,
                    last_offset: range.focus_offset,
                },
            )
        } else {
            Some(
                Ends {
                    first: f as usize,
                    first_offset: range.focus_offset,
                    last: a as usize,
                    last_offset: range.anchor_offset,
                },
            )
        },
        _ => None,
    }
}

fn find_ends(leaves: &Vec<NodeId>, range: &TextRange<NodeId>) -> (r: Option<Ends>)
    ensures
        r == ends_of(leaves@, *range),
        r matches Some(e) ==> e.first <= e.last < leaves@.len(),
{
    match (position(leaves, range.anchor_node), position(leaves, range.focus_node)) {
        (Some(a), Some(f)) => if a < f || (a == f && range.anchor_offset <= range.focus_offset) {
            Some(
                Ends {
                    first: a,
                    first_offset: range.anchor_offset,
                    last: f,
                    last_offset: range.focus_offset,
                },
            )
        } else {
            Some(
                Ends {
                    first: f,
                    first_offset: range.focus_offset,
                    last: a,
                    last_offset: range.anchor_offset,
                },
            )
        },
        _ => None,
    }
}

/// The part of leaf number `i` that lies between two ends: from the first
/// offset in the first leaf, up to the last offset in the last one.
pub open spec fn span_at(leaves: Seq<NodeId>, e: Ends, i: int) -> LeafSpan {
    LeafSpan {
        leaf: leaves[i],
        start: if i == e.first {
            e.first_offset
        } else {
            0
        },
        end: if i == e.last {
            e.last_offset
        } else {
            usize::MAX
        },
    }
}

/// The parts of the leaves that a range covers, in document order. None where
/// an end of the range is at no leaf.
pub open spec fn spans_of(leaves: Seq<NodeId>, range: TextRange<NodeId>) -> Seq<LeafSpan> {
    match ends_of(leaves, range) {
        Some(e) => Seq::new(
            (e.last - e.first + 1) as nat,
            |k: int| span_at(leaves, e, e.first + k),
        ),
        None => Seq::empty(),
    }
}

/// The parts of the leaves that a range covers, in document order.
pub fn range_spans(
    dom: &Dom,
    range: &TextRange<NodeId>,
    built: &BoxTree,
    ctx: &TextMeasureCtx,
) -> (r: Vec<LeafSpan>)
    requires
        dom.wf(),
    ensures
        r@ == spans_of(text_leaves(dom, built, ctx, dom.root()), *range),
        forall|i: int| 0 <= i < r@.len() ==> dom.has((#[trigger] r@[i]).leaf),
{
    let leaves = collect_text_leaves(dom, built, ctx, dom.document());
    proof {
        lemma_leaves_are_nodes(dom, built, ctx, dom.root());
    }
    let mut out: Vec<LeafSpan> = Vec::new();
    let e = match find_ends(&leaves, range) {
        Some(e) => e,
        None => {
            assert(out@ =~= spans_of(leaves@, *range));
            return out;
        },
    };
    let ghost all = spans_of(leaves@, *range);
    let mut i: usize = e.first;
    let mut more = true;
    while more
        invariant
            ends_of(leaves@, *range) == Some(e),
            e.first <= e.last < leaves@.len(),
            all == spans_of(leaves@, *range),
            e.first <= i <= e.last,
            more ==> out@ == all.take(i - e.first),
            !more ==> out@ == all,
            forall|j: int| 0 <= j < leaves@.len() ==> dom.has(#[trigger] leaves@[j]),
            forall|j: int| 0 <= j < out@.len() ==> dom.has((#[trigger] out@[j]).leaf),
        decreases e.last - i + if more { 1int } else { 0int },
    {
        let start: usize = if i == e.first { e.first_offset } else { 0 };
        let end: usize = if i == e.last { e.last_offset } else { usize::MAX };
        out.push(LeafSpan { leaf: leaves[i], start, end });
        assert(out@ =~= all.take(i - e.first + 1));
        if i == e.last {
            more = false;
            assert(all.take(i - e.first + 1) =~= all);
        } else {
            i += 1;
        }
    }
    out
}

/// The same range drawn the other way.
pub open spec fn turned(range: TextRange<NodeId>) -> TextRange<NodeId> {
    TextRange {
        anchor_node: range.focus_node,
        anchor_offset: range.focus_offset,
        focus_node: range.anchor_node,
        focus_offset: range.anchor_offset,
    }
}

/// A range covers the same parts whichever way it was drawn.
pub proof fn a_range_covers_the_same_both_ways(leaves: Seq<NodeId>, range: TextRange<NodeId>)
    ensures
        spans_of(leaves, turned(range)) == spans_of(leaves, range),
        ends_of(leaves, turned(range)) == ends_of(leaves, range),
{
}

// ---------------------------------------------------------------------------
// The text of a range
// ---------------------------------------------------------------------------
/// `v`, or `limit` where `v` is beyond it.
pub open spec fn clamped(v: usize, limit: nat) -> int {
    if v <= limit {
        v as int
    } else {
        limit as int
    }
}

/// The byte offsets between which leaf number `i` belongs to a selection, where
/// its text is `len` bytes long.
pub open spec fn cut_at(e: Ends, i: int, len: nat) -> (int, int) {
    (
        if i == e.first {
            clamped(e.first_offset, len)
        } else {
            0
        },
        if i == e.last {
            clamped(e.last_offset, len)
        } else {
            len as int
        },
    )
}

/// What has been selected before leaf number `i`: the text, and the last leaf
/// that gave some. Leaves of different blocks are parted by a newline; a leaf
/// without text, or of which nothing is selected, is passed over.
pub open spec fn selected_upto(
    dom: &Dom,
    built: &BoxTree,
    leaves: Seq<NodeId>,
    e: Ends,
    i: int,
) -> (Seq<char>, Option<NodeId>)
    decreases i - e.first,
{
    if i <= e.first {
        (Seq::empty(), None)
    } else {
        let before = selected_upto(dom, built, leaves, e, i - 1);
        let leaf = leaves[i - 1];
        match leaf_text_of(built, leaf) {
            None => before,
            Some(full) => {
                let cut = cut_at(e, i - 1, text::byte_len(full));
                if cut.0 >= cut.1 {
                    before
                } else {
                    let parted = match before.1 {
                        Some(prev) => if block_of(dom, prev) != block_of(dom, leaf) {
                            before.0.push('\n')
                        } else {
                            before.0
                        },
                        None => before.0,
                    };
                    (
                        match text::byte_slice(full, cut.0, cut.1) {
                            Some(part) => parted + part,
                            None => parted,
                        },
                        Some(leaf),
                    )
                }
            },
        }
    }
}

/// The text between two ends.
pub open spec fn selected_text(
    dom: &Dom,
    built: &BoxTree,
    leaves: Seq<NodeId>,
    e: Ends,
) -> Seq<char> {
    selected_upto(dom, built, leaves, e, e.last + 1).0
}

/// Two ends as a range.
pub open spec fn range_between(leaves: Seq<NodeId>, e: Ends) -> TextRange<NodeId> {
    TextRange {
        anchor_node: leaves[e.first as int],
        anchor_offset: e.first_offset,
        focus_node: leaves[e.last as int],
        focus_offset: e.last_offset,
    }
}

/// The text leaves of a wellformed document are nodes of it.
proof fn lemma_leaves_are_nodes(dom: &Dom, built: &BoxTree, ctx: &TextMeasureCtx, node: NodeId)
    requires
        dom.wf(),
        dom.has(node),
    ensures
        forall|i: int|
            0 <= i < text_leaves(dom, built, ctx, node).len() ==> dom.has(
                #[trigger] text_leaves(dom, built, ctx, node)[i],
            ),
{
    let order = dom.order(node);
    let p = |id: NodeId| is_text_leaf(built, ctx, id);
    dom.lemma_order_visits(node);
    let leaves = text_leaves(dom, built, ctx, node);
    assert forall|i: int| 0 <= i < leaves.len() implies dom.has(#[trigger] leaves[i]) by {
        assert(order.filter(p).contains(leaves[i]));
        order.lemma_filter_contains_rev(p, leaves[i]);
    }
}

/// The text between two ends.
fn text_between(dom: &Dom, built: &BoxTree, leaves: &Vec<NodeId>, e: &Ends) -> (r: String)
    requires
        dom.wf(),
        e.first <= e.last < leaves@.len(),
        forall|i: int| 0 <= i < leaves@.len() ==> dom.has(#[trigger] leaves@[i]),
    ensures
        r@ == selected_text(dom, built, leaves@, *e),
{
    let mut out: String = String::new();
    let mut prev_leaf: Option<NodeId> = None;
    let mut i: usize = e.first;
    let mut more = true;
    while more
        invariant
            dom.wf(),
            e.first <= e.last < leaves@.len(),
            forall|i: int| 0 <= i < leaves@.len() ==> dom.has(#[trigger] leaves@[i]),
            e.first <= i <= e.last,
            prev_leaf matches Some(id) ==> dom.has(id),
            more ==> (out@, prev_leaf) == selected_upto(dom, built, leaves@, *e, i as int),
            !more ==> out@ == selected_text(dom, built, leaves@, *e),
        decreases e.last - i + if more { 1int } else { 0int },
    {
        let leaf = leaves[i];
        let ghost before = (out@, prev_leaf);
        assert(dom.has(leaves@[i as int]));
        if let Some(full) = leaf_text(leaf, built) {
            let len: usize = full.as_str().as_bytes().len();
            let start: usize = if i == e.first {
                if e.first_offset <= len { e.first_offset } else { len }
            } else {
                0
            };
            let end: usize = if i == e.last {
                if e.last_offset <= len { e.last_offset } else { len }
            } else {
                len
            };
            assert((start as int, end as int) == cut_at(*e, i as int, text::byte_len(full@)));
            if start < end {
                if let Some(prev) = prev_leaf {
                    if block_ancestor(dom, prev) != block_ancestor(dom, leaf) {
                        out.push('\n');
                    }
                }
                if let Some(part) = slice_bytes(full.as_str(), start, end) {
                    out.append(part);
                }
                prev_leaf = Some(leaf);
            }
        }
        assert((out@, prev_leaf) == selected_upto(dom, built, leaves@, *e, i + 1));
        if i == e.last {
            more = false;
        } else {
            i += 1;
        }
    }
    out
}

/// Whether `r` is the selection of a range that `rects` highlight: its ends in
/// document order, those rectangles and its text. There is none where an end is
/// at no leaf, the ends are the same, or there is no rectangle.
pub open spec fn is_selection<R>(
    r: Option<TextSelection<R>>,
    dom: &Dom,
    built: &BoxTree,
    ctx: &TextMeasureCtx,
    range: TextRange<NodeId>,
    rects: Seq<R>,
) -> bool {
    let leaves = text_leaves(dom, built, ctx, dom.root());
    match ends_of(leaves, range) {
        Some(e) if rects.len() > 0 && !(e.first == e.last && e.first_offset == e.last_offset) => {
            &&& r matches Some(sel)
            &&& sel.range == range_between(leaves, e)
            &&& sel.rects@ == rects
            &&& sel.text@ == selected_text(dom, built, leaves, e)
        },
        _ => r is None,
    }
}

/// The selection of a range, given the rectangles that highlight it.
pub fn selection_of<R>(
    dom: &Dom,
    range: &TextRange<NodeId>,
    built: &BoxTree,
    ctx: &TextMeasureCtx,
    rects: Vec<R>,
) -> (r: Option<TextSelection<R>>)
    requires
        dom.wf(),
    ensures
        is_selection(r, dom, built, ctx, *range, rects@),
{
    let leaves = collect_text_leaves(dom, built, ctx, dom.document());
    let e = match find_ends(&leaves, range) {
        Some(e) => e,
        None => return None,
    };
    if e.first == e.last && e.first_offset == e.last_offset {
        return None;
    }
    if rects.len() == 0 {
        return None;
    }
    proof {
        lemma_leaves_are_nodes(dom, built, ctx, dom.root());
    }
    let text = text_between(dom, built, &leaves, &e);
    let ordered = TextRange {
        anchor_node: leaves[e.first],
        anchor_offset: e.first_offset,
        focus_node: leaves[e.last],
        focus_offset: e.last_offset,
    };
    Some(TextSelection { range: ordered, rects, text })
}

/// A selection's range, in document order, covers what the range covers that
/// it was made from.
pub proof fn an_ordered_range_covers_the_same(leaves: Seq<NodeId>, range: TextRange<NodeId>, e: Ends)
    requires
        ends_of(leaves, range) == Some(e),
        leaves.len() <= usize::MAX,
    ensures
        ends_of(leaves, range_between(leaves, e)) == Some(e),
        spans_of(leaves, range_between(leaves, e)) == spans_of(leaves, range),
{
    scan::lemma_first_index_fits(leaves, range.anchor_node);
    scan::lemma_first_index_fits(leaves, range.focus_node);
}

// ---------------------------------------------------------------------------
// Search
// ---------------------------------------------------------------------------
/// Where a lower-case needle occurs in a text from character `from` on, without
/// regard to the case of ASCII letters: the byte offsets of each match, left to
/// right, each search going on past the match before.
pub open spec fn matches_from(t: Seq<char>, needle: Seq<char>, from: nat) -> Seq<(nat, nat)>
    decreases t.len() - from,
{
    let n = needle.len();
    if n == 0 || from + n > t.len() {
        Seq::empty()
    } else if text::lowered(t.subrange(from as int, (from + n) as int)) == needle {
        seq![(text::byte_len(t.take(from as int)), text::byte_len(t.take((from + n) as int)))]
            + matches_from(t, needle, from + n)
    } else {
        matches_from(t, needle, from + 1)
    }
}

/// Byte offsets as plain numbers.
pub open spec fn offset_pairs(spans: Seq<(usize, usize)>) -> Seq<(nat, nat)> {
    spans.map(|i: int, p: (usize, usize)| (p.0 as nat, p.1 as nat))
}

proof fn lemma_prefix_bytes(t: Seq<char>, i: int, j: int)
    requires
        0 <= i <= j <= t.len(),
    ensures
        text::byte_len(t.take(j)) == text::byte_len(t.take(i)) + text::byte_len(t.subrange(i, j)),
        text::byte_len(t.take(j)) <= text::byte_len(t),
{
    text::lemma_encode_add(t.take(i), t.subrange(i, j));
    assert(t.take(i) + t.subrange(i, j) =~= t.take(j));
    text::lemma_encode_add(t.take(j), t.skip(j));
    assert(t.take(j) + t.skip(j) =~= t);
}

/// Where a lower-case needle occurs in a string, as byte offsets.
fn find_in(t: &str, needle: &Vec<char>) -> (r: Vec<(usize, usize)>)
    ensures
        offset_pairs(r@) == matches_from(t@, needle@, 0),
{
    let mut out: Vec<(usize, usize)> = Vec::new();
    let chars = chars_of(t);
    let total: usize = t.as_bytes().len();
    let count: usize = chars.len();
    let n: usize = needle.len();
    if n == 0 {
        assert(offset_pairs(out@) =~= matches_from(t@, needle@, 0));
        return out;
    }
    let mut from: usize = 0;
    let mut at: usize = 0;
    assert(t@.take(0) =~= Seq::<char>::empty());
    assert(offset_pairs(out@) + matches_from(t@, needle@, 0) =~= matches_from(t@, needle@, 0));
    while from < count && n <= count - from
        invariant
            chars@ == t@,
            count == t@.len(),
            n == needle@.len(),
            n > 0,
            total == text::byte_len(t@),
            from <= t@.len(),
            at == text::byte_len(t@.take(from as int)),
            offset_pairs(out@) + matches_from(t@, needle@, from as nat) == matches_from(
                t@,
                needle@,
                0,
            ),
        decreases t@.len() - from,
    {
        let ghost window = t@.subrange(from as int, from + n);
        let mut same = true;
        let mut k: usize = 0;
        let mut end: usize = at;
        while k < n
            invariant
                chars@ == t@,
                count == t@.len(),
                n == needle@.len(),
                k <= n,
                from + n <= t@.len(),
                total == text::byte_len(t@),
                window == t@.subrange(from as int, from + n),
                end == text::byte_len(t@.take(from + k)),
                same == (forall|j: int|
                    0 <= j < k ==> text::lowered(window)[j] == #[trigger] needle@[j]),
            decreases n - k,
        {
            let c = chars[from + k];
            assert(text::lowered(window)[k as int] == text::ascii_lower(c));
            if lower_char(c) != needle[k] {
                same = false;
            }
            proof {
                lemma_prefix_bytes(t@, from + k, from + k + 1);
                assert(t@.subrange(from + k, from + k + 1) =~= seq![c]);
            }
            end = end + char_width(c);
            k += 1;
        }
        if same {
            assert(text::lowered(window) =~= needle@);
            let ghost before = out@;
            out.push((at, end));
            assert(offset_pairs(out@) =~= offset_pairs(before).push((at as nat, end as nat)));
            assert(offset_pairs(out@) + matches_from(t@, needle@, (from + n) as nat)
                =~= offset_pairs(before) + matches_from(t@, needle@, from as nat));
            from = from + n;
            at = end;
        } else {
            assert(text::lowered(window) != needle@);
            proof {
                lemma_prefix_bytes(t@, from as int, from + 1);
                assert(t@.subrange(from as int, from + 1) =~= seq![chars@[from as int]]);
            }
            at = at + char_width(chars[from]);
            from = from + 1;
        }
    }
    assert(offset_pairs(out@) =~= offset_pairs(out@) + matches_from(t@, needle@, from as nat));
    out
}

/// The matches of a needle in a leaf, as parts of it.
pub open spec fn leaf_matches(built: &BoxTree, leaf: NodeId, needle: Seq<char>) -> Seq<LeafSpan> {
    match leaf_text_of(built, leaf) {
        Some(t) => matches_from(t, needle, 0).map(
            |i: int, p: (nat, nat)|
                LeafSpan { leaf, start: p.0 as usize, end: p.1 as usize },
        ),
        None => Seq::empty(),
    }
}

/// The matches of a needle in the first `k` leaves.
pub open spec fn matches_upto(
    built: &BoxTree,
    leaves: Seq<NodeId>,
    needle: Seq<char>,
    k: nat,
) -> Seq<LeafSpan>
    decreases k,
{
    if k == 0 {
        Seq::empty()
    } else {
        matches_upto(built, leaves, needle, (k - 1) as nat) + leaf_matches(
            built,
            leaves[k - 1],
            needle,
        )
    }
}

/// Every occurrence of `needle` in the document's text, without regard to the
/// case of ASCII letters, in document order. Matches do not overlap, and an
/// empty needle has none.
pub fn find_text_spans(dom: &Dom, built: &BoxTree, ctx: &TextMeasureCtx, needle: &str) -> (r: Vec<
    LeafSpan,
>)
    requires
        dom.wf(),
    ensures
        r@ == matches_upto(
            built,
            text_leaves(dom, built, ctx, dom.root()),
            text::lowered(needle@),
            text_leaves(dom, built, ctx, dom.root()).len(),
        ),
        forall|i: int| 0 <= i < r@.len() ==> dom.has((#[trigger] r@[i]).leaf),
{
    let wanted = chars_of(needle);
    let low = lower_chars(wanted.as_slice());
    let leaves = collect_text_leaves(dom, built, ctx, dom.document());
    proof {
        lemma_leaves_are_nodes(dom, built, ctx, dom.root());
    }
    let mut out: Vec<LeafSpan> = Vec::new();
    let mut i: usize = 0;
    while i < leaves.len()
        invariant
            i <= leaves@.len(),
            low@ == text::lowered(needle@),
            out@ == matches_upto(built, leaves@, low@, i as nat),
            forall|j: int| 0 <= j < leaves@.len() ==> dom.has(#[trigger] leaves@[j]),
            forall|j: int| 0 <= j < out@.len() ==> dom.has((#[trigger] out@[j]).leaf),
        decreases leaves.len() - i,
    {
        let leaf = leaves[i];
        assert(dom.has(leaves@[i as int]));
        let ghost before = out@;
        if let Some(t) = leaf_text(leaf, built) {
            let found = find_in(t.as_str(), &low);
            let ghost spans = leaf_matches(built, leaf, low@);
            let mut k: usize = 0;
            assert(before + spans.take(0) =~= before);
            while k < found.len()
                invariant
                    k <= found@.len(),
                    spans == leaf_matches(built, leaf, low@),
                    leaf_text_of(built, leaf) == Some(t@),
                    offset_pairs(found@) == matches_from(t@, low@, 0),
                    found@.len() == spans.len(),
                    out@ == before + spans.take(k as int),
                    dom.has(leaf),
                    forall|j: int| 0 <= j < out@.len() ==> dom.has((#[trigger] out@[j]).leaf),
                decreases found.len() - k,
            {
                let (start, end) = found[k];
                assert(offset_pairs(found@)[k as int] == (start as nat, end as nat));
                out.push(LeafSpan { leaf, start, end });
                k += 1;
                assert(out@ =~= before + spans.take(k as int));
            }
            assert(spans.take(k as int) =~= spans);
        } else {
            assert(before + leaf_matches(built, leaf, low@) =~= before);
        }
        i += 1;
    }
    out
}

proof fn lemma_matches_in_order(t: Seq<char>, needle: Seq<char>, from: nat)
    requires
        from <= t.len(),
    ensures
        forall|i: int|
            0 <= i < matches_from(t, needle, from).len() ==> {
                let m = #[trigger] matches_from(t, needle, from)[i];
                text::byte_len(t.take(from as int)) <= m.0 < m.1 <= text::byte_len(t)
            },
        forall|i: int, j: int|
            0 <= i < j < matches_from(t, needle, from).len() ==> (#[trigger] matches_from(
                t,
                needle,
                from,
            )[i]).1 <= (#[trigger] matches_from(t, needle, from)[j]).0,
    decreases t.len() - from,
{
    let n = needle.len();
    let all = matches_from(t, needle, from);
    if n == 0 || from + n > t.len() {
    } else if text::lowered(t.subrange(from as int, (from + n) as int)) == needle {
        let rest = matches_from(t, needle, from + n);
        lemma_matches_in_order(t, needle, from + n);
        lemma_prefix_bytes(t, from as int, (from + n) as int);
        let part = t.subrange(from as int, (from + n) as int);
        assert(text::byte_len(part) > 0) by {
            text::lemma_encode_add(seq![part[0]], part.skip(1));
            assert(seq![part[0]] + part.skip(1) =~= part);
            reveal_with_fuel(encode_utf8, 2);
        }
        assert forall|i: int| 0 <= i < all.len() implies {
            let m = #[trigger] all[i];
            text::byte_len(t.take(from as int)) <= m.0 < m.1 <= text::byte_len(t)
        } by {
            if i > 0 {
                assert(all[i] == rest[i - 1]);
            }
        }
        assert forall|i: int, j: int| 0 <= i < j < all.len() implies (#[trigger] all[i]).1
            <= (#[trigger] all[j]).0 by {
            assert(all[j] == rest[j - 1]);
            if i > 0 {
                assert(all[i] == rest[i - 1]);
            }
        }
    } else {
        lemma_matches_in_order(t, needle, from + 1);
        lemma_prefix_bytes(t, from as int, (from + 1) as int);
        let rest = matches_from(t, needle, from + 1);
        assert(all == rest);
        assert forall|i: int| 0 <= i < all.len() implies {
            let m = #[trigger] all[i];
            text::byte_len(t.take(from as int)) <= m.0 < m.1 <= text::byte_len(t)
        } by {
            assert(all[i] == rest[i]);
        }
        assert forall|i: int, j: int| 0 <= i < j < all.len() implies (#[trigger] all[i]).1
            <= (#[trigger] all[j]).0 by {
            assert(all[i] == rest[i] && all[j] == rest[j]);
        }
    }
}

/// The matches in a text stand left to right, do not overlap, and are not
/// empty.
pub proof fn matches_do_not_overlap(t: Seq<char>, needle: Seq<char>)
    ensures
        forall|i: int|
            0 <= i < matches_from(t, needle, 0).len() ==> {
                let m = #[trigger] matches_from(t, needle, 0)[i];
                m.0 < m.1 <= text::byte_len(t)
            },
        forall|i: int, j: int|
            0 <= i < j < matches_from(t, needle, 0).len() ==> (#[trigger] matches_from(
                t,
                needle,
                0,
            )[i]).1 <= (#[trigger] matches_from(t, needle, 0)[j]).0,
{
    lemma_matches_in_order(t, needle, 0);
}

/// Whether a lower-case needle occurs at a character of a text, without regard
/// to the case of ASCII letters.
pub open spec fn occurs_at(t: Seq<char>, needle: Seq<char>, i: int) -> bool {
    &&& 0 < needle.len()
    &&& 0 <= i <= t.len() - needle.len()
    &&& text::lowered(t.subrange(i, i + needle.len())) == needle
}

/// The byte offsets of as many characters as the needle has, from a character
/// on.
pub open spec fn bytes_at(t: Seq<char>, needle: Seq<char>, i: int) -> (nat, nat) {
    (text::byte_len(t.take(i)), text::byte_len(t.take(i + needle.len())))
}

/// Whether two byte offsets enclose an occurrence of a needle.
pub open spec fn is_occurrence(t: Seq<char>, needle: Seq<char>, m: (nat, nat)) -> bool {
    exists|i: int| #[trigger] occurs_at(t, needle, i) && m == bytes_at(t, needle, i)
}

/// Whether some characters share a byte with one of some matches.
pub open spec fn meets_any(found: Seq<(nat, nat)>, m: (nat, nat)) -> bool {
    exists|k: int| 0 <= k < found.len() && (#[trigger] found[k]).0 < m.1 && m.0 < found[k].1
}

proof fn lemma_bytes_grow(t: Seq<char>, i: int, j: int)
    requires
        0 <= i < j <= t.len(),
    ensures
        text::byte_len(t.take(i)) < text::byte_len(t.take(j)),
{
    lemma_prefix_bytes(t, i, j);
    let part = t.subrange(i, j);
    text::lemma_encode_add(seq![part[0]], part.skip(1));
    assert(seq![part[0]] + part.skip(1) =~= part);
    reveal_with_fuel(encode_utf8, 2);
}

proof fn lemma_matches_occur(t: Seq<char>, needle: Seq<char>, from: nat)
    requires
        from <= t.len(),
    ensures
        forall|k: int|
            0 <= k < matches_from(t, needle, from).len() ==> is_occurrence(
                t,
                needle,
                #[trigger] matches_from(t, needle, from)[k],
            ),
        forall|i: int| #[trigger]
            occurs_at(t, needle, i) && from <= i ==> meets_any(
                matches_from(t, needle, from),
                bytes_at(t, needle, i),
            ),
    decreases t.len() - from,
{
    let n = needle.len();
    let all = matches_from(t, needle, from);
    if n == 0 || from + n > t.len() {
    } else if text::lowered(t.subrange(from as int, (from + n) as int)) == needle {
        let rest = matches_from(t, needle, from + n);
        lemma_matches_occur(t, needle, from + n);
        assert(occurs_at(t, needle, from as int));
        assert(all[0] == bytes_at(t, needle, from as int));
        assert forall|k: int| 0 <= k < all.len() implies is_occurrence(
            t,
            needle,
            #[trigger] all[k],
        ) by {
            if k > 0 {
                assert(all[k] == rest[k - 1]);
            }
        }
        assert forall|i: int| #[trigger] occurs_at(t, needle, i) && from <= i implies meets_any(
            all,
            bytes_at(t, needle, i),
        ) by {
            let m = bytes_at(t, needle, i);
            if i < from + n {
                lemma_bytes_grow(t, from as int, i + n);
                lemma_bytes_grow(t, i, (from + n) as int);
                assert(all[0].0 < m.1 && m.0 < all[0].1);
            } else {
                let k = choose|k: int|
                    0 <= k < rest.len() && (#[trigger] rest[k]).0 < m.1 && m.0 < rest[k].1;
                assert(all[k + 1] == rest[k]);
            }
        }
    } else {
        lemma_matches_occur(t, needle, from + 1);
        assert(all == matches_from(t, needle, from + 1));
        assert(!occurs_at(t, needle, from as int));
    }
}

/// Searching finds the occurrences of a needle: each match is one, without
/// regard to the case of ASCII letters, and each occurrence is a match or
/// overlaps one.
pub proof fn matches_are_the_occurrences(t: Seq<char>, needle: Seq<char>)
    ensures
        forall|k: int|
            0 <= k < matches_from(t, needle, 0).len() ==> is_occurrence(
                t,
                needle,
                #[trigger] matches_from(t, needle, 0)[k],
            ),
        forall|i: int| #[trigger]
            occurs_at(t, needle, i) ==> meets_any(
                matches_from(t, needle, 0),
                bytes_at(t, needle, i),
            ),
{
    lemma_matches_occur(t, needle, 0);
}

// ---------------------------------------------------------------------------
// What a selection holds
// ---------------------------------------------------------------------------
/// Where a part of a text of `len` bytes starts and ends.
pub open spec fn within_text(span: LeafSpan, len: nat) -> (int, int) {
    (
        if span.start < len {
            span.start as int
        } else {
            len as int
        },
        if span.end < len {
            span.end as int
        } else {
            len as int
        },
    )
}

/// Whether a part names some of its leaf's text.
pub open spec fn names_text(built: &BoxTree, span: LeafSpan) -> bool {
    leaf_text_of(built, span.leaf) matches Some(t) && {
        let w = within_text(span, text::byte_len(t));
        w.0 < w.1
    }
}

/// The text that a part names: nothing where an offset stands inside a
/// character.
pub open spec fn text_named(built: &BoxTree, span: LeafSpan) -> Seq<char> {
    match leaf_text_of(built, span.leaf) {
        Some(t) => {
            let w = within_text(span, text::byte_len(t));
            match text::byte_slice(t, w.0, w.1) {
                Some(part) if w.0 < w.1 => part,
                _ => Seq::empty(),
            }
        },
        None => Seq::empty(),
    }
}

/// Whether part `j` is the last before part `k` that names some text.
pub open spec fn names_last_before(built: &BoxTree, spans: Seq<LeafSpan>, j: int, k: int) -> bool {
    &&& 0 <= j < k
    &&& names_text(built, spans[j])
    &&& forall|m: int| j < m < k ==> !names_text(built, #[trigger] spans[m])
}

/// Whether part `k` is set off from the text before it: that text is of another
/// block.
pub open spec fn starts_a_line(dom: &Dom, built: &BoxTree, spans: Seq<LeafSpan>, k: int) -> bool {
    &&& names_text(built, spans[k])
    &&& exists|j: int| #[trigger]
        names_last_before(built, spans, j, k) && block_of(dom, spans[j].leaf) != block_of(
            dom,
            spans[k].leaf,
        )
}

/// What part `k` adds to a selection: its text, on a line of its own where it is
/// set off.
pub open spec fn adds(dom: &Dom, built: &BoxTree, spans: Seq<LeafSpan>, k: int) -> Seq<char> {
    if starts_a_line(dom, built, spans, k) {
        seq!['\n'] + text_named(built, spans[k])
    } else {
        text_named(built, spans[k])
    }
}

proof fn lemma_selected_upto(
    dom: &Dom,
    built: &BoxTree,
    leaves: Seq<NodeId>,
    range: TextRange<NodeId>,
    e: Ends,
    i: int,
)
    requires
        ends_of(leaves, range) == Some(e),
        leaves.len() <= usize::MAX,
        e.first <= i <= e.last + 1,
        forall|k: int|
            0 <= k < leaves.len() ==> (leaf_text_of(built, #[trigger] leaves[k]) matches Some(t)
                ==> text::byte_len(t) <= usize::MAX),
    ensures
        ({
            let spans = spans_of(leaves, range);
            let n = i - e.first;
            let so_far = selected_upto(dom, built, leaves, e, i);
            &&& so_far.0 == Seq::new(n as nat, |k: int| adds(dom, built, spans, k)).flatten()
            &&& match so_far.1 {
                Some(leaf) => exists|j: int| #[trigger]
                    names_last_before(built, spans, j, n) && spans[j].leaf == leaf,
                None => forall|m: int| 0 <= m < n ==> !names_text(built, #[trigger] spans[m]),
            }
        }),
    decreases i - e.first,
{
    scan::lemma_first_index_fits(leaves, range.anchor_node);
    scan::lemma_first_index_fits(leaves, range.focus_node);
    let spans = spans_of(leaves, range);
    let f = |k: int| adds(dom, built, spans, k);
    let n = i - e.first;
    if n == 0 {
        assert(Seq::new(0, f) =~= Seq::<Seq<char>>::empty());
    } else {
        lemma_selected_upto(dom, built, leaves, range, e, i - 1);
        let before = selected_upto(dom, built, leaves, e, i - 1);
        let last = n - 1;
        let leaf = leaves[i - 1];
        assert(spans[last].leaf == leaf);
        assert(leaf_text_of(built, leaves[i - 1]) matches Some(t) ==> text::byte_len(t)
            <= usize::MAX);
        let head = Seq::new(last as nat, f);
        assert(Seq::new(n as nat, f) =~= head.push(f(last)));
        head.lemma_flatten_push(f(last));
        if let Some(full) = leaf_text_of(built, leaf) {
            assert(cut_at(e, i - 1, text::byte_len(full)) == within_text(
                spans[last],
                text::byte_len(full),
            ));
        }
        if names_text(built, spans[last]) {
            assert(names_last_before(built, spans, last, n));
            match before.1 {
                Some(prev) => {
                    let j = choose|j: int| #[trigger]
                        names_last_before(built, spans, j, last) && spans[j].leaf == prev;
                    assert forall|m: int| #[trigger]
                        names_last_before(built, spans, m, last) implies m == j by {
                        if m < j {
                            assert(names_text(built, spans[j]));
                        } else if m > j {
                            assert(names_text(built, spans[m]));
                        }
                    }
                },
                None => {
                    assert(!starts_a_line(dom, built, spans, last)) by {
                        if starts_a_line(dom, built, spans, last) {
                            let j = choose|j: int| #[trigger]
                                names_last_before(built, spans, j, last);
                            assert(names_text(built, spans[j]));
                        }
                    }
                },
            }
        } else {
            assert(f(last) =~= Seq::<char>::empty());
            match before.1 {
                Some(prev) => {
                    let j = choose|j: int| #[trigger]
                        names_last_before(built, spans, j, last) && spans[j].leaf == prev;
                    assert(names_last_before(built, spans, j, n));
                },
                None => {},
            }
        }
        assert(selected_upto(dom, built, leaves, e, i).0 =~= head.flatten() + f(last));
    }
}

/// There is a selection just where both ends of the range are at leaves, the
/// ends are not the same place, and something is highlighted. Its text is that
/// of the parts which the range covers, in document order, a newline standing
/// before each part of another block than the text before it. No text of a leaf
/// is longer than a string can be.
pub proof fn a_selection_holds_what_its_range_covers<R>(
    r: Option<TextSelection<R>>,
    dom: &Dom,
    built: &BoxTree,
    ctx: &TextMeasureCtx,
    range: TextRange<NodeId>,
    rects: Seq<R>,
)
    requires
        is_selection(r, dom, built, ctx, range, rects),
        text_leaves(dom, built, ctx, dom.root()).len() <= usize::MAX,
        forall|k: int|
            #![trigger text_leaves(dom, built, ctx, dom.root())[k]]
            0 <= k < text_leaves(dom, built, ctx, dom.root()).len() ==> (leaf_text_of(
                built,
                text_leaves(dom, built, ctx, dom.root())[k],
            ) matches Some(t) ==> text::byte_len(t) <= usize::MAX),
    ensures
        r is Some <==> {
            &&& text_leaves(dom, built, ctx, dom.root()).contains(range.anchor_node)
            &&& text_leaves(dom, built, ctx, dom.root()).contains(range.focus_node)
            &&& range.anchor_node != range.focus_node || range.anchor_offset != range.focus_offset
            &&& rects.len() > 0
        },
        r matches Some(sel) ==> {
            let spans = spans_of(text_leaves(dom, built, ctx, dom.root()), range);
            &&& sel.rects@ == rects
            &&& sel.text@ == Seq::new(
                spans.len(),
                |k: int| adds(dom, built, spans, k),
            ).flatten()
        },
{
    let leaves = text_leaves(dom, built, ctx, dom.root());
    scan::lemma_first_index_fits(leaves, range.anchor_node);
    scan::lemma_first_index_fits(leaves, range.focus_node);
    if let Some(e) = ends_of(leaves, range) {
        lemma_selected_upto(dom, built, leaves, range, e, e.last + 1);
    }
}

/// A part that is a whole leaf names its whole text.
pub proof fn a_whole_leaf_gives_its_whole_text(built: &BoxTree, span: LeafSpan, t: Seq<char>)
    requires
        leaf_text_of(built, span.leaf) == Some(t),
        text::byte_len(t) <= usize::MAX,
        span.start == 0,
        span.end == usize::MAX,
    ensures
        text_named(built, span) == t,
{
    let bytes = encode_utf8(t);
    encode_utf8_valid_utf8(t);
    is_char_boundary_start_end_of_seq(bytes);
    assert(bytes.subrange(0, bytes.len() as int) =~= bytes);
    encode_utf8_decode_utf8(t);
    if bytes.len() == 0 && t.len() > 0 {
        lemma_bytes_grow(t, 0, t.len() as int);
        assert(t.take(t.len() as int) =~= t);
    }
    assert(bytes.len() == 0 ==> t =~= Seq::<char>::empty());
}

/// A range between two leaves covers the leaves from the one to the other, in
/// document order, whichever way it was drawn: the first from the range's
/// offset in it, the last up to the range's offset in it, and every other whole.
/// A range with an end at no leaf covers nothing.
pub proof fn a_range_covers_the_leaves_between_its_ends(
    leaves: Seq<NodeId>,
    range: TextRange<NodeId>,
    a: int,
    f: int,
)
    requires
        leaves.no_duplicates(),
        leaves.len() <= usize::MAX,
        0 <= a <= f < leaves.len(),
        (range.anchor_node == leaves[a] && range.focus_node == leaves[f]) || (range.anchor_node
            == leaves[f] && range.focus_node == leaves[a]),
    ensures
        ({
            let spans = spans_of(leaves, range);
            let from = if a == f {
                if range.anchor_offset <= range.focus_offset {
                    (range.anchor_offset, range.focus_offset)
                } else {
                    (range.focus_offset, range.anchor_offset)
                }
            } else if range.anchor_node == leaves[a] {
                (range.anchor_offset, range.focus_offset)
            } else {
                (range.focus_offset, range.anchor_offset)
            };
            &&& spans.len() == f - a + 1
            &&& forall|k: int|
                0 <= k < spans.len() ==> {
                    &&& (#[trigger] spans[k]).leaf == leaves[a + k]
                    &&& spans[k].start == (if k == 0 {
                        from.0
                    } else {
                        0
                    })
                    &&& spans[k].end == (if k == f - a {
                        from.1
                    } else {
                        usize::MAX
                    })
                }
        }),
{
    scan::lemma_first_index_fits(leaves, range.anchor_node);
    scan::lemma_first_index_fits(leaves, range.focus_node);
}

/// A range with an end at no leaf covers nothing.
pub proof fn a_range_beside_the_text_covers_nothing(leaves: Seq<NodeId>, range: TextRange<NodeId>)
    requires
        !leaves.contains(range.anchor_node) || !leaves.contains(range.focus_node),
    ensures
        spans_of(leaves, range).len() == 0,
{
    scan::lemma_first_index_fits(leaves, range.anchor_node);
    scan::lemma_first_index_fits(leaves, range.focus_node);
}

/// The names of the elements that are inline by nature.
pub open spec fn inline_names() -> Seq<Seq<char>> {
    seq![
        "a"@,
        "abbr"@,
        "b"@,
        "bdi"@,
        "bdo"@,
        "cite"@,
        "code"@,
        "data"@,
        "del"@,
        "dfn"@,
        "em"@,
        "i"@,
        "ins"@,
        "kbd"@,
        "label"@,
        "mark"@,
        "q"@,
        "rp"@,
        "rt"@,
        "ruby"@,
        "s"@,
        "samp"@,
        "small"@,
        "span"@,
        "strong"@,
        "sub"@,
        "sup"@,
        "time"@,
        "u"@,
        "var"@,
        "wbr"@,
    ]
}

proof fn lemma_inline_names(n: Seq<char>)
    ensures
        inline_name(n) <==> inline_names().contains(n),
{
    let all = inline_names();
    assert(all.len() == 31);
    assert(all[0] == "a"@);
    assert(all[1] == "abbr"@);
    assert(all[2] == "b"@);
    assert(all[3] == "bdi"@);
    assert(all[4] == "bdo"@);
    assert(all[5] == "cite"@);
    assert(all[6] == "code"@);
    assert(all[7] == "data"@);
    assert(all[8] == "del"@);
    assert(all[9] == "dfn"@);
    assert(all[10] == "em"@);
    assert(all[11] == "i"@);
    assert(all[12] == "ins"@);
    assert(all[13] == "kbd"@);
    assert(all[14] == "label"@);
    assert(all[15] == "mark"@);
    assert(all[16] == "q"@);
    assert(all[17] == "rp"@);
    assert(all[18] == "rt"@);
    assert(all[19] == "ruby"@);
    assert(all[20] == "s"@);
    assert(all[21] == "samp"@);
    assert(all[22] == "small"@);
    assert(all[23] == "span"@);
    assert(all[24] == "strong"@);
    assert(all[25] == "sub"@);
    assert(all[26] == "sup"@);
    assert(all[27] == "time"@);
    assert(all[28] == "u"@);
    assert(all[29] == "var"@);
    assert(all[30] == "wbr"@);
}

/// The block of a node is the first element from the node up whose name is not
/// an inline one: whatever is on the way is inline, or no element. Where there is
/// none, the node stands for itself.
pub proof fn the_block_of_a_node_is_the_nearest(dom: &Dom, node: NodeId)
    requires
        dom.wf(),
        dom.has(node),
    ensures
        ({
            let is_block = |id: NodeId|
                dom.local_at(id) matches Some(n) && !inline_names().contains(n);
            let block = block_of(dom, node);
            ||| exists|k: nat| #[trigger] dom.is_first_above(node, is_block, block, k)
            ||| block == node && forall|k: nat|
                (#[trigger] dom.rise(node, k)) matches Some(b) ==> !is_block(b)
        }),
{
    let is_block = |id: NodeId| dom.local_at(id) matches Some(n) && !inline_names().contains(n);
    let p = |id: NodeId| is_block_named(dom, id);
    assert forall|id: NodeId| #[trigger] p(id) == is_block(id) by {
        if let Some(n) = dom.local_at(id) {
            lemma_inline_names(n);
        }
    }
    assert(p =~= is_block);
    dom.the_nearest_is_the_first_above(node, p);
}

/// The color of a caret is that of the first element from its node up that is
/// styled.
pub proof fn a_caret_takes_the_nearest_color(dom: &Dom, styles: &StylePlane, node: NodeId)
    requires
        dom.wf(),
        dom.has(node),
    ensures
        ({
            let styled = |id: NodeId| styles.primary_at(id) is Some;
            match caret_color_at(dom, styles, node) {
                Some(c) => exists|a: NodeId, k: nat| #[trigger]
                    dom.is_first_above(node, styled, a, k) && styles.primary_at(a)->0.color == c,
                None => forall|k: nat|
                    (#[trigger] dom.rise(node, k)) matches Some(b) ==> styles.primary_at(b) is None,
            }
        }),
{
    let styled = |id: NodeId| styles.primary_at(id) is Some;
    dom.the_nearest_is_the_first_above(node, styled);
}

/// Selected text has the background and the color of the selection style of the
/// first styled element from its node up that has one with a background that can
/// be seen.
pub proof fn a_selection_takes_the_nearest_style(dom: &Dom, styles: &StylePlane, node: NodeId)
    requires
        dom.wf(),
        dom.has(node),
    ensures
        ({
            let shown = |id: NodeId|
                styles.primary_at(id) is Some && (styles.entries@[id].selection matches Some(s)
                    && float_bits::lt(ZERO, s.background_color.a));
            match selection_colors(dom, styles, node) {
                Some(c) => exists|a: NodeId, k: nat| #[trigger]
                    dom.is_first_above(node, shown, a, k) && c.0
                        == styles.entries@[a].selection->0.background_color && c.1
                        == styles.entries@[a].selection->0.color,
                None => forall|k: nat|
                    (#[trigger] dom.rise(node, k)) matches Some(b) ==> !shown(b),
            }
        }),
{
    let shown = |id: NodeId|
        styles.primary_at(id) is Some && (styles.entries@[id].selection matches Some(s)
            && float_bits::lt(ZERO, s.background_color.a));
    let p = |id: NodeId| has_selection_background(styles, id);
    assert(p =~= shown);
    dom.the_nearest_is_the_first_above(node, p);
}

/// The text leaves below a node are the nodes within it whose box has shaped
/// text, each once, and they stand in document order.
pub proof fn the_text_leaves_are_the_shaped_nodes(
    dom: &Dom,
    built: &BoxTree,
    ctx: &TextMeasureCtx,
    node: NodeId,
    x: NodeId,
)
    requires
        dom.wf(),
        dom.has(node),
    ensures
        text_leaves(dom, built, ctx, node).contains(x) <==> dom.is_within(x, node)
            && built.node_map@.contains_key(x) && ctx.layouts@.contains_key(built.node_map@[x]),
        text_leaves(dom, built, ctx, node).no_duplicates(),
{
    let order = dom.order(node);
    let p = |id: NodeId| is_text_leaf(built, ctx, id);
    dom.lemma_order_visits(node);
    dom.walks_meet_exactly_the_subtree(x, node);
    if order.filter(p).contains(x) {
        order.lemma_filter_contains_rev(p, x);
    }
    if dom.is_within(x, node) && is_text_leaf(built, ctx, x) {
        order.lemma_filter_contains(p, order.index_of(x));
    }
    lemma_filter_keeps_apart(order, p);
}

proof fn lemma_filter_keeps_apart(s: Seq<NodeId>, p: spec_fn(NodeId) -> bool)
    requires
        s.no_duplicates(),
    ensures
        s.filter(p).no_duplicates(),
    decreases s.len(),
{
    reveal(Seq::filter);
    if s.len() > 0 {
        let front = s.drop_last();
        lemma_filter_keeps_apart(front, p);
        if p(s.last()) {
            if front.filter(p).contains(s.last()) {
                front.lemma_filter_contains_rev(p, s.last());
                let i = front.index_of(s.last());
                assert(s[i] == s.last());
            }
        }
    }
}

/// The text of a leaf is that of the runs in its box, one after the other.
pub proof fn the_text_of_a_leaf_is_that_of_its_runs(built: &BoxTree, leaf: NodeId)
    ensures
        leaf_text_of(built, leaf) is Some <==> {
            &&& built.node_map@.contains_key(leaf)
            &&& built.node_map@[leaf] < built.nodes@.len()
            &&& built.nodes@[built.node_map@[leaf] as int].inline_content is Some
        },
        leaf_text_of(built, leaf) matches Some(t) ==> t
            == built.nodes@[built.node_map@[leaf] as int].inline_content->0.runs@.map_values(
            |r: InlineRun| r.text@,
        ).flatten(),
{
    if let Some(t) = leaf_text_of(built, leaf) {
        lemma_joined(built.nodes@[built.node_map@[leaf] as int].inline_content->0.runs@);
    }
}

proof fn lemma_joined(runs: Seq<InlineRun>)
    ensures
        joined(runs) == runs.map_values(|r: InlineRun| r.text@).flatten(),
    decreases runs.len(),
{
    let f = |r: InlineRun| r.text@;
    let parts = runs.map_values(f);
    if runs.len() == 0 {
        assert(parts =~= Seq::<Seq<char>>::empty());
    } else {
        let front = runs.drop_last();
        lemma_joined(front);
        assert(parts =~= front.map_values(f).push(runs.last().text@));
        front.map_values(f).lemma_flatten_push(runs.last().text@);
        assert(joined(runs) =~= parts.flatten());
    }
}

/// Every match of a needle in a leaf's text is one of the document's, with the
/// leaf it is in, and the document has no other. Matches of an earlier leaf come
/// first.
pub proof fn the_matches_of_a_document_are_those_of_its_leaves(
    built: &BoxTree,
    leaves: Seq<NodeId>,
    needle: Seq<char>,
)
    ensures
        matches_upto(built, leaves, needle, leaves.len()) == leaves.map_values(
            |leaf: NodeId|
                match leaf_text_of(built, leaf) {
                    Some(t) => matches_from(t, needle, 0).map_values(
                        |m: (nat, nat)|
                            LeafSpan { leaf, start: m.0 as usize, end: m.1 as usize },
                    ),
                    None => Seq::empty(),
                },
        ).flatten(),
{
    lemma_matches_upto(built, leaves, needle, leaves.len());
    assert(leaves.take(leaves.len() as int) =~= leaves);
}

proof fn lemma_matches_upto(
    built: &BoxTree,
    leaves: Seq<NodeId>,
    needle: Seq<char>,
    k: nat,
)
    requires
        k <= leaves.len(),
    ensures
        matches_upto(built, leaves, needle, k) == leaves.take(k as int).map_values(
            |leaf: NodeId|
                match leaf_text_of(built, leaf) {
                    Some(t) => matches_from(t, needle, 0).map_values(
                        |m: (nat, nat)|
                            LeafSpan { leaf, start: m.0 as usize, end: m.1 as usize },
                    ),
                    None => Seq::empty(),
                },
        ).flatten(),
    decreases k,
{
    let f = |leaf: NodeId|
        match leaf_text_of(built, leaf) {
            Some(t) => matches_from(t, needle, 0).map_values(
                |m: (nat, nat)| LeafSpan { leaf, start: m.0 as usize, end: m.1 as usize },
            ),
            None => Seq::empty(),
        };
    let parts = leaves.take(k as int).map_values(f);
    if k == 0 {
        assert(parts =~= Seq::<Seq<LeafSpan>>::empty());
    } else {
        lemma_matches_upto(built, leaves, needle, (k - 1) as nat);
        let before = leaves.take(k - 1).map_values(f);
        let last = leaves[k - 1];
        assert(parts =~= before.push(f(last)));
        before.lemma_flatten_push(f(last));
        assert(leaf_matches(built, last, needle) =~= f(last));
    }
}

// ---------------------------------------------------------------------------
// Vertical moves
// ---------------------------------------------------------------------------
/// Where a vertical caret move lands.
#[derive(Clone, Copy, Debug, PartialEq, Eq, Structural)]
pub enum VerticalMove {
    /// At this byte.
    To(usize),
    /// On this line, at the byte nearest the goal column.
    OnLine(usize),
}

/// The line that a height lies on: the first from number `i` on whose band ends
/// below it, else the last.
pub open spec fn line_at(lines: Seq<LineBox>, y: Bits, i: nat) -> int
    decreases lines.len() - i,
{
    if i >= lines.len() {
        lines.len() - 1
    } else if float_bits::lt(y, lines[i as int].block_max) {
        i as int
    } else {
        line_at(lines, y, i + 1)
    }
}

/// Where the caret lands that moves `delta` lines from the byte `byte` at
/// height `y`: at the start above the first line, at the end of the last line
/// below it, where it is in a text without lines, else on the line it moves
/// to.
pub open spec fn vertical_move(lines: Seq<LineBox>, byte: usize, y: Bits, delta: int) -> VerticalMove {
    if lines.len() == 0 {
        VerticalMove::To(byte)
    } else {
        let target = line_at(lines, y, 0) + delta;
        if target < 0 {
            VerticalMove::To(0)
        } else if target >= lines.len() {
            VerticalMove::To(lines.last().text_end)
        } else {
            VerticalMove::OnLine(target as usize)
        }
    }
}

/// Where the caret lands that moves `delta` lines from the byte `byte_offset`
/// at height `y`.
pub fn caret_byte_vertical(layout: &TextLayout, byte_offset: usize, y: Bits, delta: isize) -> (r:
    VerticalMove)
    ensures
        r == vertical_move(layout.lines@, byte_offset, y, delta as int),
{
    let count: usize = layout.lines.len();
    if count == 0 {
        return VerticalMove::To(byte_offset);
    }
    let mut i: usize = 0;
    while i < count && !less(y, layout.lines[i].block_max)
        invariant
            count == layout.lines@.len(),
            i <= count,
            line_at(layout.lines@, y, 0) == line_at(layout.lines@, y, i as nat),
        decreases count - i,
    {
        i += 1;
    }
    let current: usize = if i < count { i } else { count - 1 };
    let target: i128 = current as i128 + delta as i128;
    if target < 0 {
        VerticalMove::To(0)
    } else if target >= count as i128 {
        VerticalMove::To(layout.lines[count - 1].text_end)
    } else {
        VerticalMove::OnLine(target as usize)
    }
}

/// The column that vertical moves keep to: the goal carried over from the move
/// before, else the caret's own.
pub fn goal_column(goal_x: Option<Bits>, caret_x: Bits) -> (r: Bits)
    ensures
        r == (match goal_x {
            Some(g) => g,
            None => caret_x,
        }),
{
    match goal_x {
        Some(g) => g,
        None => caret_x,
    }
}

/// The line whose ascent the caret spans: that of the cluster at the caret,
/// else the last. `None` for a text without lines.
pub fn caret_line(layout: &TextLayout, cluster_line: Option<usize>) -> (r: Option<usize>)
    ensures
        r == (match cluster_line {
            Some(l) => Some(l),
            None => if layout.lines@.len() == 0 {
                None
            } else {
                Some((layout.lines@.len() - 1) as usize)
            },
        }),
{
    match cluster_line {
        Some(l) => Some(l),
        None => if layout.lines.len() == 0 {
            None
        } else {
            Some(layout.lines.len() - 1)
        },
    }
}

/// A vertical move counts lines from the one that the caret's height lies on:
/// the first whose band ends below that height, else the last. A move to a line
/// of the text lands on it, one above the first at the start of the text, one
/// below the last at its end, and in a text without lines the caret stays.
pub proof fn a_vertical_move_counts_lines(
    lines: Seq<LineBox>,
    byte: usize,
    y: Bits,
    delta: int,
    from: int,
)
    requires
        lines.len() <= usize::MAX,
        lines.len() > 0 ==> {
            &&& 0 <= from < lines.len()
            &&& forall|i: int| 0 <= i < from ==> !float_bits::lt(y, (#[trigger] lines[i]).block_max)
            &&& float_bits::lt(y, lines[from].block_max) || from == lines.len() - 1
        },
    ensures
        vertical_move(lines, byte, y, delta) == (if lines.len() == 0 {
            VerticalMove::To(byte)
        } else if from + delta < 0 {
            VerticalMove::To(0)
        } else if from + delta < lines.len() {
            VerticalMove::OnLine((from + delta) as usize)
        } else {
            VerticalMove::To(lines[lines.len() - 1].text_end)
        }),
{
    if lines.len() > 0 {
        lemma_line_at(lines, y, 0, from);
    }
}

proof fn lemma_line_at(lines: Seq<LineBox>, y: Bits, i: nat, from: int)
    requires
        i <= from < lines.len(),
        forall|j: int| 0 <= j < from ==> !float_bits::lt(y, (#[trigger] lines[j]).block_max),
        float_bits::lt(y, lines[from].block_max) || from == lines.len() - 1,
    ensures
        line_at(lines, y, i) == from,
    decreases from - i,
{
    reveal_with_fuel(line_at, 2);
    if i < from {
        lemma_line_at(lines, y, i + 1, from);
    }
}

} // verus!
