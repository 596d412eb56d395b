//! Where carets and selections are shown. The text engine knows the shapes in
//! the text's own space; here is where that space starts, and which shapes are
//! asked for.
use vstd::prelude::*;
use crate::box_tree::BoxTree;
use crate::caret;
use crate::caret::{
    find_text_spans, range_spans, selection_of, LeafSpan, TextRange, TextSelection,
};
use crate::dom::{Dom, NodeId};
use crate::fragment;
use crate::fragment::{content_corner, FragmentPlane};
use crate::text;
use crate::text_layout::TextMeasureCtx;

verus! {

/// A node's shaped text: the box that it is set in, and where the box's content
/// starts in the document.
#[derive(Clone, Copy, Debug, PartialEq, Eq, Structural)]
pub struct TextPlace {
    pub index: usize,
    pub x: i128,
    pub y: i128,
}

/// Whether a node's text is shown: it is shaped, and its box is laid out.
pub open spec fn is_shown(
    fragments: &FragmentPlane,
    built: &BoxTree,
    ctx: &TextMeasureCtx,
    node: NodeId,
) -> bool {
    caret::is_text_leaf(built, ctx, node) && fragments.rects@.contains_key(node)
}

/// Whether `place` is where a node's text is shown.
pub open spec fn is_place(
    place: TextPlace,
    dom: &Dom,
    fragments: &FragmentPlane,
    built: &BoxTree,
    node: NodeId,
) -> bool {
    &&& place.index == built.node_map@[node]
    &&& (place.x as int, place.y as int) == fragment::content_origin(dom, fragments, node)
}

/// Where a node's text is shown, `None` where it is not.
pub fn text_place(
    dom: &Dom,
    fragments: &FragmentPlane,
    built: &BoxTree,
    ctx: &TextMeasureCtx,
    node: NodeId,
) -> (r: Option<TextPlace>)
    requires
        dom.wf(),
        dom.has(node),
    ensures
        match r {
            Some(p) => is_shown(fragments, built, ctx, node) && is_place(
                p,
                dom,
                fragments,
                built,
                node,
            ),
            None => !is_shown(fragments, built, ctx, node),
        },
{
    match (built.node_map.get(node), content_corner(dom, fragments, node)) {
        (Some(index), Some((x, y))) => if ctx.layouts.contains(*index) {
            Some(TextPlace { index: *index, x, y })
        } else {
            None
        },
        _ => None,
    }
}

/// Whether `rect` is what the text engine has for the caret at a byte.
pub open spec fn is_caret<R, G: Fn(TextPlace, usize) -> R>(
    dom: &Dom,
    fragments: &FragmentPlane,
    built: &BoxTree,
    geometry: &G,
    node: NodeId,
    byte: usize,
    rect: R,
) -> bool {
    exists|p: TextPlace|
        is_place(p, dom, fragments, built, node) && #[trigger] call_ensures(
            *geometry,
            (p, byte),
            rect,
        )
}

/// The caret's rectangle at a byte of a node's text, as the text engine has it
/// for that byte. `None` where the text is not shown.
pub fn caret_rect<R, G: Fn(TextPlace, usize) -> R>(
    dom: &Dom,
    node: NodeId,
    byte_offset: usize,
    built: &BoxTree,
    ctx: &TextMeasureCtx,
    fragments: &FragmentPlane,
    geometry: &G,
) -> (r: Option<R>)
    requires
        dom.wf(),
        dom.has(node),
        forall|p: TextPlace, b: usize| #[trigger] call_requires(*geometry, (p, b)),
    ensures
        match r {
            Some(rect) => is_shown(fragments, built, ctx, node) && is_caret(
                dom,
                fragments,
                built,
                geometry,
                node,
                byte_offset,
                rect,
            ),
            None => !is_shown(fragments, built, ctx, node),
        },
{
    match text_place(dom, fragments, built, ctx, node) {
        Some(place) => {
            let rect = geometry(place, byte_offset);
            assert(is_caret(dom, fragments, built, geometry, node, byte_offset, rect));
            Some(rect)
        },
        None => None,
    }
}

/// Whether `byte` is what the text engine finds in a node's text.
pub open spec fn is_byte_at<G: Fn(TextPlace) -> usize>(
    dom: &Dom,
    fragments: &FragmentPlane,
    built: &BoxTree,
    geometry: &G,
    node: NodeId,
    byte: usize,
) -> bool {
    exists|p: TextPlace|
        is_place(p, dom, fragments, built, node) && #[trigger] call_ensures(
            *geometry,
            (p,),
            byte,
        )
}

/// The byte of a node's text that is nearest a point, as the text engine has it.
/// `None` where the text is not shown.
pub fn caret_byte_at_point<G: Fn(TextPlace) -> usize>(
    dom: &Dom,
    node: NodeId,
    built: &BoxTree,
    ctx: &TextMeasureCtx,
    fragments: &FragmentPlane,
    geometry: &G,
) -> (r: Option<usize>)
    requires
        dom.wf(),
        dom.has(node),
        forall|p: TextPlace| #[trigger] call_requires(*geometry, (p,)),
    ensures
        match r {
            Some(byte) => is_shown(fragments, built, ctx, node) && is_byte_at(
                dom,
                fragments,
                built,
                geometry,
                node,
                byte,
            ),
            None => !is_shown(fragments, built, ctx, node),
        },
{
    match text_place(dom, fragments, built, ctx, node) {
        Some(place) => {
            let byte = geometry(place);
            assert(is_byte_at(dom, fragments, built, geometry, node, byte));
            Some(byte)
        },
        None => None,
    }
}

// ---------------------------------------------------------------------------
// Highlights
// ---------------------------------------------------------------------------
/// Whether `r` highlights a part of a leaf's text: nothing where the part is
/// empty or not shown, else what the text engine has for it.
pub open spec fn highlights<R, G: Fn(TextPlace, usize, usize) -> Vec<R>>(
    dom: &Dom,
    fragments: &FragmentPlane,
    built: &BoxTree,
    ctx: &TextMeasureCtx,
    geometry: &G,
    span: LeafSpan,
    r: Vec<R>,
) -> bool {
    if span.start == span.end || !is_shown(fragments, built, ctx, span.leaf) {
        r@.len() == 0
    } else {
        exists|p: TextPlace|
            is_place(p, dom, fragments, built, span.leaf) && #[trigger] call_ensures(
                *geometry,
                (p, span.start, span.end),
                r,
            )
    }
}

/// The rectangles that highlight the text of a node between two bytes.
pub fn selection_rects<R, G: Fn(TextPlace, usize, usize) -> Vec<R>>(
    dom: &Dom,
    node: NodeId,
    start: usize,
    end: usize,
    built: &BoxTree,
    ctx: &TextMeasureCtx,
    fragments: &FragmentPlane,
    geometry: &G,
) -> (r: Vec<R>)
    requires
        dom.wf(),
        dom.has(node),
        forall|p: TextPlace, s: usize, e: usize| #[trigger] call_requires(*geometry, (p, s, e)),
    ensures
        highlights(
            dom,
            fragments,
            built,
            ctx,
            geometry,
            (LeafSpan { leaf: node, start, end }),
            r,
        ),
{
    if start == end {
        return Vec::new();
    }
    match text_place(dom, fragments, built, ctx, node) {
        Some(place) => geometry(place, start, end),
        None => Vec::new(),
    }
}

/// Whether each of some lists highlights its part.
pub open spec fn all_highlight<R, G: Fn(TextPlace, usize, usize) -> Vec<R>>(
    dom: &Dom,
    fragments: &FragmentPlane,
    built: &BoxTree,
    ctx: &TextMeasureCtx,
    geometry: &G,
    spans: Seq<LeafSpan>,
    parts: Seq<Vec<R>>,
) -> bool {
    &&& parts.len() == spans.len()
    &&& forall|i: int|
        0 <= i < spans.len() ==> highlights(
            dom,
            fragments,
            built,
            ctx,
            geometry,
            spans[i],
            #[trigger] parts[i],
        )
}

/// Some lists in a row.
pub open spec fn in_a_row<R>(parts: Seq<Vec<R>>) -> Seq<R>
    decreases parts.len(),
{
    if parts.len() == 0 {
        Seq::empty()
    } else {
        in_a_row(parts.drop_last()) + parts.last()@
    }
}

/// Whether `r` can be the rectangles that highlight a range: those of its parts, leaf
/// by leaf.
pub open spec fn can_highlight<R, G: Fn(TextPlace, usize, usize) -> Vec<R>>(
    dom: &Dom,
    fragments: &FragmentPlane,
    built: &BoxTree,
    ctx: &TextMeasureCtx,
    geometry: &G,
    range: TextRange<NodeId>,
    r: Seq<R>,
) -> bool {
    exists|parts: Seq<Vec<R>>|
        #[trigger] all_highlight(
            dom,
            fragments,
            built,
            ctx,
            geometry,
            caret::spans_of(caret::text_leaves(dom, built, ctx, dom.root()), range),
            parts,
        ) && r == in_a_row(parts)
}

/// The rectangles that highlight a range, leaf by leaf.
pub fn range_rects<R, G: Fn(TextPlace, usize, usize) -> Vec<R>>(
    dom: &Dom,
    range: &TextRange<NodeId>,
    built: &BoxTree,
    ctx: &TextMeasureCtx,
    fragments: &FragmentPlane,
    geometry: &G,
) -> (r: Vec<R>)
    requires
        dom.wf(),
        forall|p: TextPlace, s: usize, e: usize| #[trigger] call_requires(*geometry, (p, s, e)),
    ensures
        can_highlight(dom, fragments, built, ctx, geometry, *range, r@),
{
    let spans = range_spans(dom, range, built, ctx);
    let ghost mut parts = Seq::<Vec<R>>::empty();
    let mut out: Vec<R> = Vec::new();
    let mut i: usize = 0;
    while i < spans.len()
        invariant
            dom.wf(),
            forall|p: TextPlace, s: usize, e: usize| #[trigger]
                call_requires(*geometry, (p, s, e)),
            forall|j: int| 0 <= j < spans@.len() ==> dom.has((#[trigger] spans@[j]).leaf),
            i <= spans@.len(),
            all_highlight(dom, fragments, built, ctx, geometry, spans@.take(i as int), parts),
            out@ == in_a_row(parts),
        decreases spans.len() - i,
    {
        let span = spans[i];
        assert(dom.has(spans@[i as int].leaf));
        let rects = selection_rects(
            dom,
            span.leaf,
            span.start,
            span.end,
            built,
            ctx,
            fragments,
            geometry,
        );
        let ghost known = parts;
        proof {
            parts = known.push(rects);
            assert(parts.drop_last() =~= known);
            assert(spans@.take(i + 1) =~= spans@.take(i as int).push(span));
            assert forall|j: int| 0 <= j < i + 1 implies highlights(
                dom,
                fragments,
                built,
                ctx,
                geometry,
                spans@.take(i + 1)[j],
                #[trigger] parts[j],
            ) by {
                if j < i {
                    assert(parts[j] == known[j]);
                    assert(spans@.take(i + 1)[j] == spans@.take(i as int)[j]);
                }
            }
        }
        let mut rects = rects;
        out.append(&mut rects);
        i += 1;
    }
    assert(spans@.take(i as int) =~= spans@);
    out
}

/// The selection of a range: its ends in document order, the rectangles that
/// highlight it and its text. There is none where an end is at no leaf, the ends
/// are the same, or nothing is highlighted.
pub fn text_selection<R, G: Fn(TextPlace, usize, usize) -> Vec<R>>(
    dom: &Dom,
    range: &TextRange<NodeId>,
    built: &BoxTree,
    ctx: &TextMeasureCtx,
    fragments: &FragmentPlane,
    geometry: &G,
) -> (r: Option<TextSelection<R>>)
    requires
        dom.wf(),
        forall|p: TextPlace, s: usize, e: usize| #[trigger] call_requires(*geometry, (p, s, e)),
    ensures
        exists|parts: Seq<Vec<R>>|
            #[trigger] all_highlight(
                dom,
                fragments,
                built,
                ctx,
                geometry,
                caret::spans_of(caret::text_leaves(dom, built, ctx, dom.root()), *range),
                parts,
            ) && caret::is_selection(r, dom, built, ctx, *range, in_a_row(parts)),
{
    let rects = range_rects(dom, range, built, ctx, fragments, geometry);
    selection_of(dom, range, built, ctx, rects)
}

/// The rectangles of every match of a text in the document, match by match.
/// One that is not shown is left out.
pub fn find_text_rects<R, G: Fn(TextPlace, usize, usize) -> Vec<R>>(
    dom: &Dom,
    built: &BoxTree,
    ctx: &TextMeasureCtx,
    fragments: &FragmentPlane,
    needle: &str,
    geometry: &G,
) -> (r: Vec<Vec<R>>)
    requires
        dom.wf(),
        forall|p: TextPlace, s: usize, e: usize| #[trigger] call_requires(*geometry, (p, s, e)),
    ensures
        exists|parts: Seq<Vec<R>>|
            #[trigger] all_highlight(
                dom,
                fragments,
                built,
                ctx,
                geometry,
                caret::matches_upto(
                    built,
                    caret::text_leaves(dom, built, ctx, dom.root()),
                    text::lowered(needle@),
                    caret::text_leaves(dom, built, ctx, dom.root()).len(),
                ),
                parts,
            ) && r@ == parts.filter(|v: Vec<R>| v@.len() > 0),
{
    let spans = find_text_spans(dom, built, ctx, needle);
    let ghost seen = |v: Vec<R>| v@.len() > 0;
    let ghost mut parts = Seq::<Vec<R>>::empty();
    let mut out: Vec<Vec<R>> = Vec::new();
    let mut i: usize = 0;
    proof {
        reveal(Seq::filter);
        assert(parts.filter(seen) =~= Seq::<Vec<R>>::empty());
    }
    while i < spans.len()
        invariant
            dom.wf(),
            seen == (|v: Vec<R>| v@.len() > 0),
            forall|p: TextPlace, s: usize, e: usize| #[trigger]
                call_requires(*geometry, (p, s, e)),
            forall|j: int| 0 <= j < spans@.len() ==> dom.has((#[trigger] spans@[j]).leaf),
            i <= spans@.len(),
            all_highlight(dom, fragments, built, ctx, geometry, spans@.take(i as int), parts),
            out@ == parts.filter(seen),
        decreases spans.len() - i,
    {
        let span = spans[i];
        assert(dom.has(spans@[i as int].leaf));
        let rects = selection_rects(
            dom,
            span.leaf,
            span.start,
            span.end,
            built,
            ctx,
            fragments,
            geometry,
        );
        let ghost known = parts;
        proof {
            reveal(Seq::filter);
            parts = known.push(rects);
            assert(parts.drop_last() =~= known);
            assert(spans@.take(i + 1) =~= spans@.take(i as int).push(span));
            assert forall|j: int| 0 <= j < i + 1 implies highlights(
                dom,
                fragments,
                built,
                ctx,
                geometry,
                spans@.take(i + 1)[j],
                #[trigger] parts[j],
            ) by {
                if j < i {
                    assert(parts[j] == known[j]);
                    assert(spans@.take(i + 1)[j] == spans@.take(i as int)[j]);
                }
            }
        }
        if rects.len() > 0 {
            out.push(rects);
        }
        i += 1;
    }
    assert(spans@.take(i as int) =~= spans@);
    out
}

proof fn lemma_nothing_in_a_row<R>(parts: Seq<Vec<R>>)
    requires
        forall|i: int| 0 <= i < parts.len() ==> (#[trigger] parts[i])@.len() == 0,
    ensures
        in_a_row(parts).len() == 0,
    decreases parts.len(),
{
    if parts.len() > 0 {
        lemma_nothing_in_a_row(parts.drop_last());
    }
}

/// A range whose ends are the same highlights nothing.
pub proof fn a_collapsed_range_highlights_nothing<
    R,
    G: Fn(TextPlace, usize, usize) -> Vec<R>,
>(
    dom: &Dom,
    fragments: &FragmentPlane,
    built: &BoxTree,
    ctx: &TextMeasureCtx,
    geometry: &G,
    range: TextRange<NodeId>,
    r: Seq<R>,
)
    requires
        range.anchor_node == range.focus_node,
        range.anchor_offset == range.focus_offset,
        can_highlight(dom, fragments, built, ctx, geometry, range, r),
    ensures
        r.len() == 0,
{
    let leaves = caret::text_leaves(dom, built, ctx, dom.root());
    let spans = caret::spans_of(leaves, range);
    let parts = choose|parts: Seq<Vec<R>>|
        #[trigger] all_highlight(dom, fragments, built, ctx, geometry, spans, parts) && r
            == in_a_row(parts);
    assert forall|i: int| 0 <= i < parts.len() implies (#[trigger] parts[i])@.len() == 0 by {
        assert(spans[i].start == spans[i].end);
    }
    lemma_nothing_in_a_row(parts);
}

/// A range that is drawn backwards highlights what it highlights forwards: whatever
/// rectangles one of the two can have, the other can.
pub proof fn a_range_highlights_the_same_both_ways<
    R,
    G: Fn(TextPlace, usize, usize) -> Vec<R>,
>(
    dom: &Dom,
    fragments: &FragmentPlane,
    built: &BoxTree,
    ctx: &TextMeasureCtx,
    geometry: &G,
    range: TextRange<NodeId>,
    r: Seq<R>,
)
    ensures
        can_highlight(dom, fragments, built, ctx, geometry, caret::turned(range), r)
            == can_highlight(dom, fragments, built, ctx, geometry, range, r),
{
    caret::a_range_covers_the_same_both_ways(
        caret::text_leaves(dom, built, ctx, dom.root()),
        range,
    );
}

/// Whether a text engine has one answer to each question.
pub open spec fn answers_one_way<R, G: Fn(TextPlace, usize, usize) -> Vec<R>>(geometry: &G) -> bool {
    forall|p: TextPlace, s: usize, e: usize, a: Vec<R>, b: Vec<R>|
        #[trigger] call_ensures(*geometry, (p, s, e), a) && #[trigger] call_ensures(
            *geometry,
            (p, s, e),
            b,
        ) ==> a@ == b@
}

proof fn lemma_same_in_a_row<R>(a: Seq<Vec<R>>, b: Seq<Vec<R>>)
    requires
        a.len() == b.len(),
        forall|i: int| 0 <= i < a.len() ==> (#[trigger] a[i])@ == b[i]@,
    ensures
        in_a_row(a) == in_a_row(b),
    decreases a.len(),
{
    if a.len() > 0 {
        assert forall|i: int| 0 <= i < a.len() - 1 implies (#[trigger] a.drop_last()[i])@
            == b.drop_last()[i]@ by {
            assert(a[i]@ == b[i]@);
        }
        lemma_same_in_a_row(a.drop_last(), b.drop_last());
        assert(a[a.len() - 1]@ == b[a.len() - 1]@);
    }
}

/// With a text engine that has one answer to each question, a range has the same
/// rectangles in the same order whichever way it is drawn.
pub proof fn a_range_has_one_highlight<R, G: Fn(TextPlace, usize, usize) -> Vec<R>>(
    dom: &Dom,
    fragments: &FragmentPlane,
    built: &BoxTree,
    ctx: &TextMeasureCtx,
    geometry: &G,
    range: TextRange<NodeId>,
    there: Seq<R>,
    back: Seq<R>,
)
    requires
        answers_one_way(geometry),
        can_highlight(dom, fragments, built, ctx, geometry, range, there),
        can_highlight(dom, fragments, built, ctx, geometry, caret::turned(range), back),
    ensures
        there == back,
{
    a_range_highlights_the_same_both_ways(dom, fragments, built, ctx, geometry, range, back);
    let spans = caret::spans_of(caret::text_leaves(dom, built, ctx, dom.root()), range);
    let a = choose|parts: Seq<Vec<R>>|
        #[trigger] all_highlight(dom, fragments, built, ctx, geometry, spans, parts) && there
            == in_a_row(parts);
    let b = choose|parts: Seq<Vec<R>>|
        #[trigger] all_highlight(dom, fragments, built, ctx, geometry, spans, parts) && back
            == in_a_row(parts);
    assert forall|i: int| 0 <= i < a.len() implies (#[trigger] a[i])@ == b[i]@ by {
        let span = spans[i];
        assert(highlights(dom, fragments, built, ctx, geometry, span, a[i]));
        assert(highlights(dom, fragments, built, ctx, geometry, span, b[i]));
        if span.start == span.end || !is_shown(fragments, built, ctx, span.leaf) {
            assert(a[i]@ =~= b[i]@);
        } else {
            let p = choose|p: TextPlace|
                is_place(p, dom, fragments, built, span.leaf) && #[trigger] call_ensures(
                    *geometry,
                    (p, span.start, span.end),
                    a[i],
                );
            let q = choose|q: TextPlace|
                is_place(q, dom, fragments, built, span.leaf) && #[trigger] call_ensures(
                    *geometry,
                    (q, span.start, span.end),
                    b[i],
                );
            assert(p == q);
        }
    }
    lemma_same_in_a_row(a, b);
}

/// A range is highlighted by what its parts are, one after the other.
pub proof fn the_highlights_of_parts_stand_in_a_row<R>(parts: Seq<Vec<R>>)
    ensures
        in_a_row(parts) == parts.map_values(|p: Vec<R>| p@).flatten(),
    decreases parts.len(),
{
    let f = |p: Vec<R>| p@;
    if parts.len() == 0 {
        assert(parts.map_values(f) =~= Seq::<Seq<R>>::empty());
    } else {
        the_highlights_of_parts_stand_in_a_row(parts.drop_last());
        let before = parts.drop_last().map_values(f);
        assert(parts.map_values(f) =~= before.push(parts.last()@));
        before.lemma_flatten_push(parts.last()@);
    }
}

/// A place is that of the node's own box in the tree, at the corner inside its
/// border and padding.
pub proof fn text_stands_inside_the_border_and_padding(
    place: TextPlace,
    dom: &Dom,
    fragments: &FragmentPlane,
    built: &BoxTree,
    ctx: &TextMeasureCtx,
    node: NodeId,
)
    requires
        dom.wf(),
        dom.has(node),
        is_shown(fragments, built, ctx, node),
        is_place(place, dom, fragments, built, node),
    ensures
        built.node_map@.contains_key(node) && built.node_map@[node] == place.index,
        ctx.layouts@.contains_key(place.index),
        fragment::rect_at(dom, fragments, node) matches Some(b) && {
            let l = fragments.rects@[node];
            &&& place.x - b.0 == l.border.left + l.padding.left
            &&& place.y - b.1 == l.border.top + l.padding.top
        },
{
}

} // verus!
