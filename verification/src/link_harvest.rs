//! The links of a laid out document: the address of every `<a href>` with the
//! places that it can be hit at.
//!
//! A link is hit on the lines of its text, on its box where it has one, and on
//! the image that it holds where it has neither.
use vstd::prelude::*;
use crate::box_tree;
use crate::box_tree::BoxTree;
use crate::caret;
use crate::caret::{collect_text_leaves, LeafSpan};
use crate::dom::{Dom, NodeId};
use crate::fragment;
use crate::fragment::{content_corner, document_rect, FragmentPlane, Rect};
use crate::image_decode::ImagePlane;
use crate::inline_content;
use crate::inline_content::{InlineContent, SourceSpan};
use crate::style_plane::StylePlane;
use crate::text::{chars_of, string_of, sub_chars};
use crate::text_layout::{LineBox, PlacedBox, TextLayout, TextMeasureCtx};

verus! {

// ---------------------------------------------------------------------------
// Anchors
// ---------------------------------------------------------------------------
/// The address of an `<a>` element: its `href`, where that is not empty.
pub open spec fn href_of(dom: &Dom, node: NodeId) -> Option<Seq<char>> {
    match dom.plain_attr(node, "href"@) {
        Some(h) => if dom.is_named(node, "a"@) && h.len() > 0 {
            Some(h)
        } else {
            None
        },
        None => None,
    }
}

/// The fragment that an `<a>` element leads to in its own document: its `href`
/// after a `#`, where that is not empty.
pub open spec fn fragment_of(dom: &Dom, node: NodeId) -> Option<Seq<char>> {
    match href_of(dom, node) {
        Some(h) => if h[0] == '#' && h.len() > 1 {
            Some(h.skip(1))
        } else {
            None
        },
        None => None,
    }
}

/// The address of an `<a>` element.
pub fn anchor_href(dom: &Dom, node: NodeId) -> (r: Option<String>)
    requires
        dom.has(node),
    ensures
        href_of(dom, node) == (match r {
            Some(h) => Some(h@),
            None => None,
        }),
{
    if !dom.named(node, "a") {
        return None;
    }
    match dom.plain_attribute(node, "href") {
        Some(href) => if href.unicode_len() > 0 {
            Some(href.to_owned())
        } else {
            None
        },
        None => None,
    }
}

/// The fragment that an `<a>` element leads to in its own document.
pub fn anchor_fragment(dom: &Dom, node: NodeId) -> (r: Option<String>)
    requires
        dom.has(node),
    ensures
        fragment_of(dom, node) == (match r {
            Some(f) => Some(f@),
            None => None,
        }),
{
    match anchor_href(dom, node) {
        Some(href) => {
            let chars = chars_of(href.as_str());
            if chars[0] == '#' && chars.len() > 1 {
                let rest = sub_chars(chars.as_slice(), 1, chars.len());
                assert(rest@ =~= href@.skip(1));
                Some(string_of(rest.as_slice()))
            } else {
                None
            }
        },
        None => None,
    }
}

/// The nearest link at or above a node, no further up than `leaf`.
pub open spec fn link_around(dom: &Dom, src: NodeId, leaf: NodeId) -> Option<NodeId>
    decreases dom.depth_at(src),
    when dom.wf() && dom.has(src)
{
    if href_of(dom, src) is Some {
        Some(src)
    } else if src == leaf {
        None
    } else {
        match dom.parent_at(src) {
            Some(p) => link_around(dom, p, leaf),
            None => None,
        }
    }
}

/// The nearest link at or above a node, no further up than `leaf`, with its
/// address.
pub fn enclosing_anchor(dom: &Dom, src: NodeId, leaf: NodeId) -> (r: Option<(NodeId, String)>)
    requires
        dom.wf(),
        dom.has(src),
    ensures
        match r {
            Some((a, href)) => link_around(dom, src, leaf) == Some(a) && dom.has(a) && href_of(
                dom,
                a,
            ) == Some(href@),
            None => link_around(dom, src, leaf) is None,
        },
{
    let mut cur: NodeId = src;
    loop
        invariant
            dom.wf(),
            dom.has(cur),
            link_around(dom, cur, leaf) == link_around(dom, src, leaf),
        decreases dom.depth_at(cur),
    {
        if let Some(href) = anchor_href(dom, cur) {
            return Some((cur, href));
        }
        if cur == leaf {
            return None;
        }
        match dom.parent(cur) {
            Some(p) => {
                cur = p;
            },
            None => {
                return None;
            },
        }
    }
}

// ---------------------------------------------------------------------------
// Places
// ---------------------------------------------------------------------------
/// Where a link can be hit.
pub enum LinkArea {
    /// On the lines of a part of a leaf's text.
    Text(LeafSpan),
    /// On a box.
    Boxed(Rect),
    /// On an inline box. It is placed from where the leaf's content starts.
    Image { x: i128, y: i128, placed: PlacedBox },
}

/// Where a link can be hit, over whole numbers.
pub enum AreaModel {
    Text(LeafSpan),
    Boxed((int, int, int, int)),
    Image(int, int, PlacedBox),
}

impl View for LinkArea {
    type V = AreaModel;

    open spec fn view(&self) -> AreaModel {
        match self {
            LinkArea::Text(s) => AreaModel::Text(*s),
            LinkArea::Boxed(r) => AreaModel::Boxed(
                (r.x0 as int, r.y0 as int, r.x1 as int, r.y1 as int),
            ),
            LinkArea::Image { x, y, placed } => AreaModel::Image(*x as int, *y as int, *placed),
        }
    }
}

/// What a link's address and place are.
pub type LinkModel = (Seq<char>, AreaModel);

/// What some links are.
pub open spec fn link_views(links: Seq<(String, LinkArea)>) -> Seq<LinkModel> {
    links.map(|i: int, l: (String, LinkArea)| (l.0@, l.1@))
}

/// The address of a link that is known to have one.
pub open spec fn address(dom: &Dom, node: NodeId) -> Seq<char> {
    match href_of(dom, node) {
        Some(h) => h,
        None => Seq::empty(),
    }
}

// ---------------------------------------------------------------------------
// Links of text
// ---------------------------------------------------------------------------
/// A link's part of a leaf's text.
#[derive(Clone, Copy, Debug, PartialEq, Eq, Structural)]
pub struct LinkSpan {
    pub anchor: NodeId,
    pub start: usize,
    pub end: usize,
}

/// Where the part of a link stands in a list of parts.
pub open spec fn span_index(spans: Seq<LinkSpan>, anchor: NodeId) -> Option<nat>
    decreases spans.len(),
{
    if spans.len() == 0 {
        None
    } else {
        match span_index(spans.drop_last(), anchor) {
            Some(i) => Some(i),
            None => if spans.last().anchor == anchor {
                Some((spans.len() - 1) as nat)
            } else {
                None
            },
        }
    }
}

/// A part made wide enough to hold a range.
pub open spec fn widened(s: LinkSpan, start: usize, end: usize) -> LinkSpan {
    LinkSpan {
        anchor: s.anchor,
        start: if start < s.start {
            start
        } else {
            s.start
        },
        end: if end > s.end {
            end
        } else {
            s.end
        },
    }
}

/// The parts of a leaf's text that belong to links, from the first `n` of the
/// leaf's runs: one for each link, in the order of their first runs.
pub open spec fn link_spans(
    dom: &Dom,
    leaf: NodeId,
    sources: Seq<SourceSpan>,
    n: nat,
) -> Seq<LinkSpan>
    decreases n,
{
    if n == 0 {
        Seq::empty()
    } else {
        let before = link_spans(dom, leaf, sources, (n - 1) as nat);
        let run = sources[n - 1];
        match link_around(dom, run.source, leaf) {
            None => before,
            Some(anchor) => match span_index(before, anchor) {
                Some(i) => before.update(i as int, widened(before[i as int], run.start, run.end)),
                None => before.push(LinkSpan { anchor, start: run.start, end: run.end }),
            },
        }
    }
}

proof fn lemma_span_index(spans: Seq<LinkSpan>, anchor: NodeId)
    ensures
        match span_index(spans, anchor) {
            Some(i) => i < spans.len() && spans[i as int].anchor == anchor && forall|j: int|
                0 <= j < i ==> (#[trigger] spans[j]).anchor != anchor,
            None => forall|j: int| 0 <= j < spans.len() ==> (#[trigger] spans[j]).anchor != anchor,
        },
    decreases spans.len(),
{
    if spans.len() > 0 {
        let front = spans.drop_last();
        lemma_span_index(front, anchor);
        assert forall|j: int| 0 <= j < front.len() implies front[j] == spans[j] by {}
        match span_index(front, anchor) {
            Some(i) => {
                assert(spans[i as int] == front[i as int]);
                assert forall|j: int| 0 <= j < i implies (#[trigger] spans[j]).anchor != anchor by {
                    assert(front[j] == spans[j]);
                }
            },
            None => {
                assert forall|j: int| 0 <= j < front.len() implies (#[trigger] spans[j]).anchor
                    != anchor by {
                    assert(front[j] == spans[j]);
                }
            },
        }
    }
}

fn find_span(spans: &Vec<LinkSpan>, anchor: NodeId) -> (r: Option<usize>)
    ensures
        span_index(spans@, anchor) == (match r {
            Some(i) => Some(i as nat),
            None => None,
        }),
{
    let mut i: usize = 0;
    while i < spans.len()
        invariant
            i <= spans@.len(),
            forall|j: int| 0 <= j < i ==> (#[trigger] spans@[j]).anchor != anchor,
        decreases spans.len() - i,
    {
        if spans[i].anchor == anchor {
            proof {
                lemma_span_index(spans@, anchor);
                assert(spans@[i as int].anchor == anchor);
            }
            return Some(i);
        }
        i += 1;
    }
    proof {
        lemma_span_index(spans@, anchor);
    }
    None
}

/// Whether the runs of a leaf come from nodes that are there.
pub open spec fn sources_known(dom: &Dom, sources: Seq<SourceSpan>) -> bool {
    forall|i: int| 0 <= i < sources.len() ==> dom.has((#[trigger] sources[i]).source)
}

/// The parts of a leaf's text that belong to links.
pub fn spans_of_leaf(dom: &Dom, leaf: NodeId, sources: &Vec<SourceSpan>) -> (r: Vec<LinkSpan>)
    requires
        dom.wf(),
        sources_known(dom, sources@),
    ensures
        r@ == link_spans(dom, leaf, sources@, sources@.len()),
        forall|i: int|
            0 <= i < r@.len() ==> dom.has((#[trigger] r@[i]).anchor) && href_of(dom, r@[i].anchor)
                is Some,
{
    let mut spans: Vec<LinkSpan> = Vec::new();
    let mut n: usize = 0;
    while n < sources.len()
        invariant
            dom.wf(),
            sources_known(dom, sources@),
            n <= sources@.len(),
            spans@ == link_spans(dom, leaf, sources@, n as nat),
            forall|i: int|
                0 <= i < spans@.len() ==> dom.has((#[trigger] spans@[i]).anchor) && href_of(
                    dom,
                    spans@[i].anchor,
                ) is Some,
        decreases sources.len() - n,
    {
        let start: usize = sources[n].start;
        let end: usize = sources[n].end;
        let ghost before = spans@;
        assert(dom.has(sources@[n as int].source));
        if let Some((anchor, _)) = enclosing_anchor(dom, sources[n].source, leaf) {
            match find_span(&spans, anchor) {
                Some(i) => {
                    proof {
                        lemma_span_index(before, anchor);
                    }
                    let old_span = spans[i];
                    let wide = LinkSpan {
                        anchor: old_span.anchor,
                        start: if start < old_span.start {
                            start
                        } else {
                            old_span.start
                        },
                        end: if end > old_span.end {
                            end
                        } else {
                            old_span.end
                        },
                    };
                    spans.set(i, wide);
                    assert(spans@ == before.update(i as int, widened(old_span, start, end)));
                    assert forall|j: int| 0 <= j < spans@.len() implies dom.has(
                        (#[trigger] spans@[j]).anchor,
                    ) && href_of(dom, spans@[j].anchor) is Some by {
                        assert(dom.has(before[j].anchor));
                    }
                },
                None => {
                    spans.push(LinkSpan { anchor, start, end });
                    assert forall|j: int| 0 <= j < spans@.len() implies dom.has(
                        (#[trigger] spans@[j]).anchor,
                    ) && href_of(dom, spans@[j].anchor) is Some by {
                        if j < before.len() {
                            assert(dom.has(before[j].anchor));
                        }
                    }
                },
            }
        }
        n += 1;
    }
    spans
}

/// Whether run number `k` of a leaf belongs to a link.
pub open spec fn is_run_of(
    dom: &Dom,
    leaf: NodeId,
    sources: Seq<SourceSpan>,
    k: int,
    anchor: NodeId,
) -> bool {
    link_around(dom, sources[k].source, leaf) == Some(anchor)
}

/// Whether no two of some parts are of one link.
pub open spec fn are_of_different_links(spans: Seq<LinkSpan>) -> bool {
    forall|i: int, j: int|
        0 <= i < j < spans.len() ==> (#[trigger] spans[i]).anchor != (#[trigger] spans[j]).anchor
}

/// Whether a range of a leaf's text lies in a link's part.
pub open spec fn is_held(spans: Seq<LinkSpan>, anchor: NodeId, start: usize, end: usize) -> bool {
    exists|i: int|
        0 <= i < spans.len() && (#[trigger] spans[i]).anchor == anchor && spans[i].start <= start
            && end <= spans[i].end
}

/// Whether the ends of a part are ends of runs of its link.
pub open spec fn ends_with_runs(
    dom: &Dom,
    leaf: NodeId,
    sources: Seq<SourceSpan>,
    n: nat,
    span: LinkSpan,
) -> bool {
    &&& exists|k: int|
        0 <= k < n && #[trigger] is_run_of(dom, leaf, sources, k, span.anchor) && sources[k].start
            == span.start
    &&& exists|k: int|
        0 <= k < n && #[trigger] is_run_of(dom, leaf, sources, k, span.anchor) && sources[k].end
            == span.end
}

/// Every link has one part in a leaf: it holds every run of the link, and its
/// ends are the ends of such runs.
pub proof fn a_link_spans_all_its_runs(
    dom: &Dom,
    leaf: NodeId,
    sources: Seq<SourceSpan>,
    n: nat,
)
    requires
        n <= sources.len(),
    ensures
        are_of_different_links(link_spans(dom, leaf, sources, n)),
        forall|k: int, a: NodeId|
            0 <= k < n && #[trigger] is_run_of(dom, leaf, sources, k, a) ==> is_held(
                link_spans(dom, leaf, sources, n),
                a,
                sources[k].start,
                sources[k].end,
            ),
        forall|i: int|
            0 <= i < link_spans(dom, leaf, sources, n).len() ==> ends_with_runs(
                dom,
                leaf,
                sources,
                n,
                #[trigger] link_spans(dom, leaf, sources, n)[i],
            ),
    decreases n,
{
    if n > 0 {
        let m = (n - 1) as nat;
        a_link_spans_all_its_runs(dom, leaf, sources, m);
        let a = link_spans(dom, leaf, sources, m);
        let b = link_spans(dom, leaf, sources, n);
        let run = sources[n - 1];
        if let Some(anchor) = link_around(dom, run.source, leaf) {
            lemma_span_index(a, anchor);
        }
        assert forall|k: int, x: NodeId|
            0 <= k < n && #[trigger] is_run_of(dom, leaf, sources, k, x) implies is_held(
            b,
            x,
            sources[k].start,
            sources[k].end,
        ) by {
            lemma_run_held(dom, leaf, sources, n, k, x);
        }
        assert forall|i: int| 0 <= i < b.len() implies ends_with_runs(
            dom,
            leaf,
            sources,
            n,
            #[trigger] b[i],
        ) by {
            lemma_ends_kept(dom, leaf, sources, n, i);
        }
        lemma_links_differ(dom, leaf, sources, n);
    }
}

proof fn lemma_links_differ(dom: &Dom, leaf: NodeId, sources: Seq<SourceSpan>, n: nat)
    requires
        0 < n <= sources.len(),
        are_of_different_links(link_spans(dom, leaf, sources, (n - 1) as nat)),
    ensures
        are_of_different_links(link_spans(dom, leaf, sources, n)),
{
    let a = link_spans(dom, leaf, sources, (n - 1) as nat);
    let b = link_spans(dom, leaf, sources, n);
    if let Some(anchor) = link_around(dom, sources[n - 1].source, leaf) {
        lemma_span_index(a, anchor);
    }
    assert forall|i: int, j: int| 0 <= i < j < b.len() implies (#[trigger] b[i]).anchor != (
    #[trigger] b[j]).anchor by {
        assert(a[i].anchor == b[i].anchor);
        if j < a.len() {
            assert(a[j].anchor == b[j].anchor);
        }
    }
}

proof fn lemma_run_held(
    dom: &Dom,
    leaf: NodeId,
    sources: Seq<SourceSpan>,
    n: nat,
    k: int,
    x: NodeId,
)
    requires
        0 < n <= sources.len(),
        0 <= k < n,
        is_run_of(dom, leaf, sources, k, x),
        k < n - 1 ==> is_held(
            link_spans(dom, leaf, sources, (n - 1) as nat),
            x,
            sources[k].start,
            sources[k].end,
        ),
    ensures
        is_held(link_spans(dom, leaf, sources, n), x, sources[k].start, sources[k].end),
{
    let a = link_spans(dom, leaf, sources, (n - 1) as nat);
    let b = link_spans(dom, leaf, sources, n);
    if let Some(anchor) = link_around(dom, sources[n - 1].source, leaf) {
        lemma_span_index(a, anchor);
    }
    if k < n - 1 {
        let j = choose|j: int|
            0 <= j < a.len() && (#[trigger] a[j]).anchor == x && a[j].start <= sources[k].start
                && sources[k].end <= a[j].end;
        assert(b[j].anchor == x && b[j].start <= a[j].start && a[j].end <= b[j].end);
    } else {
        match span_index(a, x) {
            Some(i) => {
                assert(b[i as int].anchor == x);
            },
            None => {
                assert(b[a.len() as int].anchor == x);
            },
        }
    }
}

proof fn lemma_ends_kept(dom: &Dom, leaf: NodeId, sources: Seq<SourceSpan>, n: nat, i: int)
    requires
        0 < n <= sources.len(),
        0 <= i < link_spans(dom, leaf, sources, n).len(),
        i < link_spans(dom, leaf, sources, (n - 1) as nat).len() ==> ends_with_runs(
            dom,
            leaf,
            sources,
            (n - 1) as nat,
            link_spans(dom, leaf, sources, (n - 1) as nat)[i],
        ),
    ensures
        ends_with_runs(dom, leaf, sources, n, link_spans(dom, leaf, sources, n)[i]),
{
    let a = link_spans(dom, leaf, sources, (n - 1) as nat);
    let b = link_spans(dom, leaf, sources, n);
    let last = n - 1;
    if let Some(anchor) = link_around(dom, sources[last].source, leaf) {
        lemma_span_index(a, anchor);
    }
    if i < a.len() {
        assert(a[i].anchor == b[i].anchor);
        let s = choose|k: int|
            0 <= k < n - 1 && #[trigger] is_run_of(dom, leaf, sources, k, a[i].anchor)
                && sources[k].start == a[i].start;
        let e = choose|k: int|
            0 <= k < n - 1 && #[trigger] is_run_of(dom, leaf, sources, k, a[i].anchor)
                && sources[k].end == a[i].end;
        assert(is_run_of(dom, leaf, sources, s, b[i].anchor));
        assert(is_run_of(dom, leaf, sources, e, b[i].anchor));
        if b[i].start != a[i].start || b[i].end != a[i].end {
            assert(is_run_of(dom, leaf, sources, last, b[i].anchor));
        }
    } else {
        assert(is_run_of(dom, leaf, sources, last, b[i].anchor));
    }
}

/// The links that the first `n` of a leaf's parts are of.
pub open spec fn span_links(dom: &Dom, leaf: NodeId, spans: Seq<LinkSpan>, n: nat) -> Seq<LinkModel>
    decreases n,
{
    if n == 0 {
        Seq::empty()
    } else {
        span_links(dom, leaf, spans, (n - 1) as nat).push(
            (
                address(dom, spans[n - 1].anchor),
                AreaModel::Text(
                    LeafSpan { leaf, start: spans[n - 1].start, end: spans[n - 1].end },
                ),
            ),
        )
    }
}

/// The links of the text of the first `n` of some leaves.
pub open spec fn text_links(
    dom: &Dom,
    built: &BoxTree,
    leaves: Seq<NodeId>,
    n: nat,
) -> Seq<LinkModel>
    decreases n,
{
    if n == 0 {
        Seq::empty()
    } else {
        let before = text_links(dom, built, leaves, (n - 1) as nat);
        let leaf = leaves[n - 1];
        match built.sources_at(leaf) {
            Some(sources) => {
                let spans = link_spans(dom, leaf, sources, sources.len());
                before + span_links(dom, leaf, spans, spans.len())
            },
            None => before,
        }
    }
}

/// Whether the runs of every leaf come from nodes that are there.
pub open spec fn all_sources_known(dom: &Dom, built: &BoxTree) -> bool {
    forall|leaf: NodeId|
        #[trigger] built.sources_at(leaf) matches Some(sources) ==> sources_known(dom, sources)
}

fn push_link(out: &mut Vec<(String, LinkArea)>, href: String, area: LinkArea)
    ensures
        link_views(final(out)@) == link_views(old(out)@).push((href@, area@)),
{
    let ghost before = out@;
    let ghost link = (href, area);
    out.push((href, area));
    assert(link_views(out@) =~= link_views(before).push((link.0@, link.1@)));
}

fn text_anchor_links(
    dom: &Dom,
    built: &BoxTree,
    leaves: &Vec<NodeId>,
    out: &mut Vec<(String, LinkArea)>,
)
    requires
        dom.wf(),
        all_sources_known(dom, built),
    ensures
        link_views(final(out)@) == link_views(old(out)@) + text_links(
            dom,
            built,
            leaves@,
            leaves@.len(),
        ),
{
    let ghost start = link_views(out@);
    let mut n: usize = 0;
    assert(link_views(out@) =~= start + text_links(dom, built, leaves@, 0));
    while n < leaves.len()
        invariant
            dom.wf(),
            all_sources_known(dom, built),
            n <= leaves@.len(),
            link_views(out@) == start + text_links(dom, built, leaves@, n as nat),
        decreases leaves.len() - n,
    {
        let leaf = leaves[n];
        let ghost so_far = link_views(out@);
        if let Some(runs) = built.inline_sources(leaf) {
            let spans = spans_of_leaf(dom, leaf, &runs);
            let mut j: usize = 0;
            assert(link_views(out@) =~= so_far + span_links(dom, leaf, spans@, 0));
            while j < spans.len()
                invariant
                    dom.wf(),
                    j <= spans@.len(),
                    forall|i: int|
                        0 <= i < spans@.len() ==> dom.has((#[trigger] spans@[i]).anchor) && href_of(
                            dom,
                            spans@[i].anchor,
                        ) is Some,
                    link_views(out@) == so_far + span_links(dom, leaf, spans@, j as nat),
                decreases spans.len() - j,
            {
                let span = spans[j];
                assert(dom.has(spans@[j as int].anchor));
                let ghost listed = link_views(out@);
                if let Some(href) = anchor_href(dom, span.anchor) {
                    push_link(
                        out,
                        href,
                        LinkArea::Text(LeafSpan { leaf, start: span.start, end: span.end }),
                    );
                    assert(link_views(out@) =~= so_far + span_links(
                        dom,
                        leaf,
                        spans@,
                        (j + 1) as nat,
                    ));
                }
                j += 1;
            }
            assert(link_views(out@) =~= start + text_links(
                dom,
                built,
                leaves@,
                (n + 1) as nat,
            ));
        }
        n += 1;
    }
}

// ---------------------------------------------------------------------------
// Links with a box
// ---------------------------------------------------------------------------
/// The links among the first `n` of some nodes that have a box of their own.
pub open spec fn boxed_links(
    dom: &Dom,
    fragments: &FragmentPlane,
    nodes: Seq<NodeId>,
    n: nat,
) -> Seq<LinkModel>
    decreases n,
{
    if n == 0 {
        Seq::empty()
    } else {
        let before = boxed_links(dom, fragments, nodes, (n - 1) as nat);
        match (href_of(dom, nodes[n - 1]), fragment::rect_at(dom, fragments, nodes[n - 1])) {
            (Some(h), Some(r)) => before.push((h, AreaModel::Boxed(r))),
            _ => before,
        }
    }
}

/// Appends the links from a node down that have a box of their own, in document
/// order.
pub fn boxed_anchor_rects(
    dom: &Dom,
    fragments: &FragmentPlane,
    id: NodeId,
    out: &mut Vec<(String, LinkArea)>,
)
    requires
        dom.wf(),
        dom.has(id),
    ensures
        link_views(final(out)@) == link_views(old(out)@) + boxed_links(
            dom,
            fragments,
            dom.order(id),
            dom.order(id).len(),
        ),
{
    let order = dom.document_order(id);
    proof {
        dom.lemma_order_visits(id);
    }
    let ghost start = link_views(out@);
    let mut n: usize = 0;
    assert(link_views(out@) =~= start + boxed_links(dom, fragments, order@, 0));
    while n < order.len()
        invariant
            dom.wf(),
            order@ == dom.order(id),
            forall|x: NodeId| #[trigger] dom.order(id).contains(x) ==> dom.is_within(x, id),
            n <= order@.len(),
            link_views(out@) == start + boxed_links(dom, fragments, order@, n as nat),
        decreases order.len() - n,
    {
        let node = order[n];
        assert(order@.contains(order@[n as int]));
        if let Some(href) = anchor_href(dom, node) {
            if let Some(rect) = document_rect(dom, fragments, node) {
                push_link(out, href, LinkArea::Boxed(rect));
                assert(link_views(out@) =~= start + boxed_links(
                    dom,
                    fragments,
                    order@,
                    (n + 1) as nat,
                ));
            }
        }
        n += 1;
    }
}

// ---------------------------------------------------------------------------
// Links around an image
// ---------------------------------------------------------------------------
/// The link that an inline box of a leaf is hit for: that around a replaced
/// element, where the link has no box of its own.
pub open spec fn image_link(
    dom: &Dom,
    fragments: &FragmentPlane,
    leaf: NodeId,
    content: InlineContent,
    placed: PlacedBox,
) -> Option<NodeId> {
    if placed.id < content.boxes@.len() && content.boxes@[placed.id as int].block is None {
        match link_around(dom, content.boxes@[placed.id as int].source, leaf) {
            Some(a) => if fragments.rects@.contains_key(a) {
                None
            } else {
                Some(a)
            },
            None => None,
        }
    } else {
        None
    }
}

/// The links around the first `n` inline boxes of a line.
pub open spec fn line_links(
    dom: &Dom,
    fragments: &FragmentPlane,
    leaf: NodeId,
    content: InlineContent,
    boxes: Seq<PlacedBox>,
    n: nat,
) -> Seq<LinkModel>
    decreases n,
{
    if n == 0 {
        Seq::empty()
    } else {
        let before = line_links(dom, fragments, leaf, content, boxes, (n - 1) as nat);
        match image_link(dom, fragments, leaf, content, boxes[n - 1]) {
            Some(a) => {
                let o = fragment::content_origin(dom, fragments, leaf);
                before.push((address(dom, a), AreaModel::Image(o.0, o.1, boxes[n - 1])))
            },
            None => before,
        }
    }
}

/// The links around the inline boxes of the first `n` lines of a leaf.
pub open spec fn lines_links(
    dom: &Dom,
    fragments: &FragmentPlane,
    leaf: NodeId,
    content: InlineContent,
    lines: Seq<LineBox>,
    n: nat,
) -> Seq<LinkModel>
    decreases n,
{
    if n == 0 {
        Seq::empty()
    } else {
        lines_links(dom, fragments, leaf, content, lines, (n - 1) as nat) + line_links(
            dom,
            fragments,
            leaf,
            content,
            lines[n - 1].boxes@,
            lines[n - 1].boxes@.len(),
        )
    }
}

/// The links around the inline boxes of a leaf.
pub open spec fn leaf_links(
    dom: &Dom,
    fragments: &FragmentPlane,
    built: &BoxTree,
    ctx: &TextMeasureCtx,
    leaf: NodeId,
) -> Seq<LinkModel> {
    let index = built.node_map@[leaf];
    if !built.node_map@.contains_key(leaf) || !ctx.layouts@.contains_key(index) || index
        >= built.nodes@.len() || !fragments.rects@.contains_key(leaf) {
        Seq::empty()
    } else {
        match built.nodes@[index as int].inline_content {
            Some(content) => {
                let lines = ctx.layouts@[index].lines@;
                lines_links(dom, fragments, leaf, content, lines, lines.len())
            },
            None => Seq::empty(),
        }
    }
}

/// The links around the inline boxes of the first `n` of some leaves.
pub open spec fn image_links(
    dom: &Dom,
    fragments: &FragmentPlane,
    built: &BoxTree,
    ctx: &TextMeasureCtx,
    leaves: Seq<NodeId>,
    n: nat,
) -> Seq<LinkModel>
    decreases n,
{
    if n == 0 {
        Seq::empty()
    } else {
        image_links(dom, fragments, built, ctx, leaves, (n - 1) as nat) + leaf_links(
            dom,
            fragments,
            built,
            ctx,
            leaves[n - 1],
        )
    }
}

/// Whether the inline boxes of some content stand for nodes that are there.
pub open spec fn boxes_known(dom: &Dom, content: InlineContent) -> bool {
    forall|i: int| 0 <= i < content.boxes@.len() ==> dom.has((#[trigger] content.boxes@[i]).source)
}

/// Whether the inline boxes of every box stand for nodes that are there.
pub open spec fn all_boxes_known(dom: &Dom, built: &BoxTree) -> bool {
    forall|i: int|
        0 <= i < built.nodes@.len() ==> ((#[trigger] built.nodes@[i]).inline_content matches Some(c)
            ==> boxes_known(dom, c))
}

/// A tree that was built from a document knows its nodes: the text in its lines, and
/// the boxes between, came from nodes that are there.
pub proof fn a_built_tree_knows_its_nodes(
    dom: &Dom,
    built: &BoxTree,
    styles: &StylePlane,
    images: &ImagePlane,
)
    requires
        dom.wf(),
        box_tree::tree_is(built, dom, styles, images),
    ensures
        all_sources_known(dom, built),
        all_boxes_known(dom, built),
{
    box_tree::a_tree_comes_from_its_document(built, dom, dom.root(), styles, images);
    assert forall|leaf: NodeId|
        #[trigger] built.sources_at(leaf) matches Some(sources) implies sources_known(
        dom,
        built.sources_at(leaf)->0,
    ) by {
        let c = built.content_at(leaf)->0;
        let runs = inline_content::run_views(c.runs@);
        assert(inline_content::content_known(dom, c)) by {
            assert(built.nodes@[built.node_map@[leaf] as int].inline_content == Some(c));
        }
        inline_content::runs_follow_each_other(runs, runs.len());
        let sources = inline_content::sources_of(c);
        assert forall|i: int| 0 <= i < sources.len() implies dom.has(
            (#[trigger] sources[i]).source,
        ) by {
            assert(runs[i] == c.runs@[i]@);
        }
    }
    assert forall|i: int| 0 <= i < built.nodes@.len() implies ((#[trigger] built.nodes@[i]).inline_content matches Some(c)
        ==> boxes_known(dom, c)) by {}
}

fn push_line_links(
    dom: &Dom,
    fragments: &FragmentPlane,
    leaf: NodeId,
    content: &InlineContent,
    x: i128,
    y: i128,
    line: &LineBox,
    out: &mut Vec<(String, LinkArea)>,
)
    requires
        dom.wf(),
        boxes_known(dom, *content),
        (x as int, y as int) == fragment::content_origin(dom, fragments, leaf),
    ensures
        link_views(final(out)@) == link_views(old(out)@) + line_links(
            dom,
            fragments,
            leaf,
            *content,
            line.boxes@,
            line.boxes@.len(),
        ),
{
    let ghost start = link_views(out@);
    let mut n: usize = 0;
    assert(link_views(out@) =~= start + line_links(
        dom,
        fragments,
        leaf,
        *content,
        line.boxes@,
        0,
    ));
    while n < line.boxes.len()
        invariant
            dom.wf(),
            boxes_known(dom, *content),
            (x as int, y as int) == fragment::content_origin(dom, fragments, leaf),
            n <= line.boxes@.len(),
            link_views(out@) == start + line_links(
                dom,
                fragments,
                leaf,
                *content,
                line.boxes@,
                n as nat,
            ),
        decreases line.boxes.len() - n,
    {
        let placed = line.boxes[n];
        if placed.id < content.boxes.len() {
            let item = &content.boxes[placed.id];
            assert(dom.has(content.boxes@[placed.id as int].source));
            if item.block.is_none() {
                if let Some((anchor, href)) = enclosing_anchor(dom, item.source, leaf) {
                    if fragments.rect_of(anchor).is_none() {
                        push_link(out, href, LinkArea::Image { x, y, placed });
                        assert(link_views(out@) =~= start + line_links(
                            dom,
                            fragments,
                            leaf,
                            *content,
                            line.boxes@,
                            (n + 1) as nat,
                        ));
                    }
                }
            }
        }
        n += 1;
    }
}

fn push_leaf_links(
    dom: &Dom,
    fragments: &FragmentPlane,
    built: &BoxTree,
    ctx: &TextMeasureCtx,
    leaf: NodeId,
    out: &mut Vec<(String, LinkArea)>,
)
    requires
        dom.wf(),
        dom.has(leaf),
        all_boxes_known(dom, built),
    ensures
        link_views(final(out)@) == link_views(old(out)@) + leaf_links(
            dom,
            fragments,
            built,
            ctx,
            leaf,
        ),
{
    let ghost start = link_views(out@);
    assert(start + Seq::<LinkModel>::empty() =~= start);
    let index: usize = match built.node_map.get(leaf) {
        Some(index) => *index,
        None => return ,
    };
    let layout: &TextLayout = match ctx.layouts.get(index) {
        Some(layout) => layout,
        None => return ,
    };
    let content: &InlineContent = match built.get_node_context(index) {
        Some(content) => content,
        None => return ,
    };
    let o = match content_corner(dom, fragments, leaf) {
        Some(o) => o,
        None => return ,
    };
    let x: i128 = o.0;
    let y: i128 = o.1;
    assert(boxes_known(dom, *content));
    let mut n: usize = 0;
    assert(link_views(out@) =~= start + lines_links(
        dom,
        fragments,
        leaf,
        *content,
        layout.lines@,
        0,
    ));
    while n < layout.lines.len()
        invariant
            dom.wf(),
            boxes_known(dom, *content),
            (x as int, y as int) == fragment::content_origin(dom, fragments, leaf),
            n <= layout.lines@.len(),
            link_views(out@) == start + lines_links(
                dom,
                fragments,
                leaf,
                *content,
                layout.lines@,
                n as nat,
            ),
        decreases layout.lines.len() - n,
    {
        push_line_links(dom, fragments, leaf, content, x, y, &layout.lines[n], out);
        assert(link_views(out@) =~= start + lines_links(
            dom,
            fragments,
            leaf,
            *content,
            layout.lines@,
            (n + 1) as nat,
        ));
        n += 1;
    }
}

/// Appends the links around the inline boxes of some leaves.
pub fn image_anchor_rects(
    dom: &Dom,
    fragments: &FragmentPlane,
    built: &BoxTree,
    ctx: &TextMeasureCtx,
    leaves: &Vec<NodeId>,
    out: &mut Vec<(String, LinkArea)>,
)
    requires
        dom.wf(),
        forall|i: int| 0 <= i < leaves@.len() ==> dom.has(#[trigger] leaves@[i]),
        all_boxes_known(dom, built),
    ensures
        link_views(final(out)@) == link_views(old(out)@) + image_links(
            dom,
            fragments,
            built,
            ctx,
            leaves@,
            leaves@.len(),
        ),
{
    let ghost start = link_views(out@);
    let mut n: usize = 0;
    assert(link_views(out@) =~= start + image_links(dom, fragments, built, ctx, leaves@, 0));
    while n < leaves.len()
        invariant
            dom.wf(),
            forall|i: int| 0 <= i < leaves@.len() ==> dom.has(#[trigger] leaves@[i]),
            all_boxes_known(dom, built),
            n <= leaves@.len(),
            link_views(out@) == start + image_links(
                dom,
                fragments,
                built,
                ctx,
                leaves@,
                n as nat,
            ),
        decreases leaves.len() - n,
    {
        assert(dom.has(leaves@[n as int]));
        push_leaf_links(dom, fragments, built, ctx, leaves[n], out);
        assert(link_views(out@) =~= start + image_links(
            dom,
            fragments,
            built,
            ctx,
            leaves@,
            (n + 1) as nat,
        ));
        n += 1;
    }
}

/// Every link of a document with the places that it can be hit at: first on its
/// text, then on the boxes, then on images.
pub fn harvest_link_rects(
    dom: &Dom,
    fragments: &FragmentPlane,
    built: &BoxTree,
    ctx: &TextMeasureCtx,
) -> (r: Vec<(String, LinkArea)>)
    requires
        dom.wf(),
        all_sources_known(dom, built),
        all_boxes_known(dom, built),
    ensures
        ({
            let leaves = caret::text_leaves(dom, built, ctx, dom.root());
            let order = dom.order(dom.root());
            link_views(r@) == text_links(dom, built, leaves, leaves.len()) + boxed_links(
                dom,
                fragments,
                order,
                order.len(),
            ) + image_links(dom, fragments, built, ctx, leaves, leaves.len())
        }),
{
    let mut out: Vec<(String, LinkArea)> = Vec::new();
    let leaves = collect_text_leaves(dom, built, ctx, dom.document());
    proof {
        dom.lemma_order_visits(dom.root());
        assert forall|i: int| 0 <= i < leaves@.len() implies dom.has(#[trigger] leaves@[i]) by {
            let p = |id: NodeId| caret::is_text_leaf(built, ctx, id);
            let order = dom.order(dom.root());
            order.lemma_filter_contains_rev(p, leaves@[i]);
            assert(order.contains(leaves@[i]));
        }
    }
    text_anchor_links(dom, built, &leaves, &mut out);
    boxed_anchor_rects(dom, fragments, dom.document(), &mut out);
    image_anchor_rects(dom, fragments, built, ctx, &leaves, &mut out);
    assert(link_views(Seq::<(String, LinkArea)>::empty()) =~= Seq::<LinkModel>::empty());
    out
}

/// A document without links has no place to hit one at.
pub proof fn no_links_no_places(
    dom: &Dom,
    fragments: &FragmentPlane,
    built: &BoxTree,
    ctx: &TextMeasureCtx,
    leaves: Seq<NodeId>,
    nodes: Seq<NodeId>,
)
    requires
        dom.wf(),
        all_sources_known(dom, built),
        all_boxes_known(dom, built),
        forall|n: NodeId| #[trigger] href_of(dom, n) is None,
    ensures
        text_links(dom, built, leaves, leaves.len()).len() == 0,
        boxed_links(dom, fragments, nodes, nodes.len()).len() == 0,
        image_links(dom, fragments, built, ctx, leaves, leaves.len()).len() == 0,
{
    lemma_no_text_links(dom, built, leaves, leaves.len());
    lemma_no_boxed_links(dom, fragments, nodes, nodes.len());
    lemma_no_image_links(dom, fragments, built, ctx, leaves, leaves.len());
}

proof fn lemma_no_link_around(dom: &Dom, src: NodeId, leaf: NodeId)
    requires
        dom.wf(),
        dom.has(src),
        forall|n: NodeId| #[trigger] href_of(dom, n) is None,
    ensures
        link_around(dom, src, leaf) is None,
    decreases dom.depth_at(src),
{
    if src != leaf {
        if let Some(p) = dom.parent_at(src) {
            lemma_no_link_around(dom, p, leaf);
        }
    }
}

proof fn lemma_no_spans(dom: &Dom, leaf: NodeId, runs: Seq<SourceSpan>, n: nat)
    requires
        dom.wf(),
        sources_known(dom, runs),
        n <= runs.len(),
        forall|n: NodeId| #[trigger] href_of(dom, n) is None,
    ensures
        link_spans(dom, leaf, runs, n).len() == 0,
    decreases n,
{
    if n > 0 {
        assert(dom.has(runs[n - 1].source));
        lemma_no_spans(dom, leaf, runs, (n - 1) as nat);
        lemma_no_link_around(dom, runs[n - 1].source, leaf);
    }
}

proof fn lemma_no_text_links(
    dom: &Dom,
    built: &BoxTree,
    leaves: Seq<NodeId>,
    n: nat,
)
    requires
        dom.wf(),
        all_sources_known(dom, built),
        n <= leaves.len(),
        forall|n: NodeId| #[trigger] href_of(dom, n) is None,
    ensures
        text_links(dom, built, leaves, n).len() == 0,
    decreases n,
{
    if n > 0 {
        let leaf = leaves[n - 1];
        lemma_no_text_links(dom, built, leaves, (n - 1) as nat);
        if let Some(sources) = built.sources_at(leaf) {
            lemma_no_spans(dom, leaf, sources, sources.len());
        }
    }
}

proof fn lemma_no_boxed_links(dom: &Dom, fragments: &FragmentPlane, nodes: Seq<NodeId>, n: nat)
    requires
        n <= nodes.len(),
        forall|n: NodeId| #[trigger] href_of(dom, n) is None,
    ensures
        boxed_links(dom, fragments, nodes, n).len() == 0,
    decreases n,
{
    if n > 0 {
        assert(href_of(dom, nodes[n - 1]) is None);
        lemma_no_boxed_links(dom, fragments, nodes, (n - 1) as nat);
    }
}

proof fn lemma_no_line_links(
    dom: &Dom,
    fragments: &FragmentPlane,
    leaf: NodeId,
    content: InlineContent,
    boxes: Seq<PlacedBox>,
    n: nat,
)
    requires
        dom.wf(),
        boxes_known(dom, content),
        n <= boxes.len(),
        forall|n: NodeId| #[trigger] href_of(dom, n) is None,
    ensures
        line_links(dom, fragments, leaf, content, boxes, n).len() == 0,
    decreases n,
{
    if n > 0 {
        lemma_no_line_links(dom, fragments, leaf, content, boxes, (n - 1) as nat);
        let at = boxes[n - 1].id as int;
        if at < content.boxes@.len() {
            assert(dom.has(content.boxes@[at].source));
            lemma_no_link_around(dom, content.boxes@[at].source, leaf);
        }
    }
}

proof fn lemma_no_lines_links(
    dom: &Dom,
    fragments: &FragmentPlane,
    leaf: NodeId,
    content: InlineContent,
    lines: Seq<LineBox>,
    n: nat,
)
    requires
        dom.wf(),
        boxes_known(dom, content),
        n <= lines.len(),
        forall|n: NodeId| #[trigger] href_of(dom, n) is None,
    ensures
        lines_links(dom, fragments, leaf, content, lines, n).len() == 0,
    decreases n,
{
    if n > 0 {
        lemma_no_lines_links(dom, fragments, leaf, content, lines, (n - 1) as nat);
        let boxes = lines[n - 1].boxes@;
        lemma_no_line_links(dom, fragments, leaf, content, boxes, boxes.len());
    }
}

proof fn lemma_no_image_links(
    dom: &Dom,
    fragments: &FragmentPlane,
    built: &BoxTree,
    ctx: &TextMeasureCtx,
    leaves: Seq<NodeId>,
    n: nat,
)
    requires
        dom.wf(),
        all_boxes_known(dom, built),
        n <= leaves.len(),
        forall|n: NodeId| #[trigger] href_of(dom, n) is None,
    ensures
        image_links(dom, fragments, built, ctx, leaves, n).len() == 0,
    decreases n,
{
    if n > 0 {
        lemma_no_image_links(dom, fragments, built, ctx, leaves, (n - 1) as nat);
        let leaf = leaves[n - 1];
        let index = built.node_map@[leaf];
        if index < built.nodes@.len() {
            if let Some(content) = built.nodes@[index as int].inline_content {
                let lines = ctx.layouts@[index].lines@;
                lemma_no_lines_links(dom, fragments, leaf, content, lines, lines.len());
            }
        }
    }
}

// ---------------------------------------------------------------------------
// What is harvested
// ---------------------------------------------------------------------------
/// A link is an `<a>` with an `href` that is not empty, and leads there; into its own
/// document where the address is a `#` and a name, which it then leads to.
pub proof fn a_link_leads_where_its_attribute_says(dom: &Dom, node: NodeId)
    ensures
        href_of(dom, node) is Some <==> dom.is_named(node, "a"@) && (dom.plain_attr(
            node,
            "href"@,
        ) matches Some(h) && h.len() > 0),
        href_of(dom, node) matches Some(h) ==> dom.plain_attr(node, "href"@) == Some(h),
        fragment_of(dom, node) is Some <==> (href_of(dom, node) matches Some(h) && h[0] == '#'
            && h.len() > 1),
        fragment_of(dom, node) matches Some(f) ==> href_of(dom, node) == Some(seq!['#'] + f),
{
    if let Some(h) = href_of(dom, node) {
        if h[0] == '#' && h.len() > 1 {
            assert(h =~= seq!['#'] + h.skip(1));
        }
    }
}

/// Whether `a` is the first link from a node up, `k` steps above it, and the leaf
/// stands nowhere below `a` on the way.
pub open spec fn is_first_link(dom: &Dom, src: NodeId, leaf: NodeId, a: NodeId, k: nat) -> bool {
    &&& dom.rise(src, k) == Some(a)
    &&& href_of(dom, a) is Some
    &&& forall|j: nat|
        j < k ==> ((#[trigger] dom.rise(src, j)) matches Some(b) && href_of(dom, b) is None && b
            != leaf)
}

/// Whether the leaf stands nowhere below the node `k` steps above another.
pub open spec fn is_no_further_than(dom: &Dom, src: NodeId, leaf: NodeId, k: nat) -> bool {
    forall|j: nat| j < k ==> #[trigger] dom.rise(src, j) != Some(leaf)
}

/// The link around a node is the first from the node up. It is looked for no further
/// than the leaf: where there is none, no node on the way to the leaf, nor the leaf
/// itself, is a link.
pub proof fn the_link_around_a_node_is_the_nearest(dom: &Dom, src: NodeId, leaf: NodeId)
    requires
        dom.wf(),
        dom.has(src),
    ensures
        match link_around(dom, src, leaf) {
            Some(a) => exists|k: nat| #[trigger] is_first_link(dom, src, leaf, a, k),
            None => forall|k: nat| #[trigger]
                is_no_further_than(dom, src, leaf, k) ==> (dom.rise(src, k) matches Some(b)
                    ==> href_of(dom, b) is None),
        },
{
    match link_around(dom, src, leaf) {
        Some(a) => {
            let k = lemma_first_link(dom, src, leaf);
        },
        None => {
            assert forall|k: nat| #[trigger] is_no_further_than(dom, src, leaf, k) implies (
            dom.rise(src, k) matches Some(b) ==> href_of(dom, b) is None) by {
                lemma_no_link_on_the_way(dom, src, leaf, k);
            }
        },
    }
}

proof fn lemma_first_link(dom: &Dom, src: NodeId, leaf: NodeId) -> (k: nat)
    requires
        dom.wf(),
        dom.has(src),
        link_around(dom, src, leaf) is Some,
    ensures
        is_first_link(dom, src, leaf, link_around(dom, src, leaf)->0, k),
    decreases dom.depth_at(src),
{
    assert(dom.rise(src, 0) == Some(src));
    if href_of(dom, src) is Some {
        0
    } else {
        let p = dom.parent_at(src)->0;
        assert(dom.has(p));
        let k = lemma_first_link(dom, p, leaf);
        dom.lemma_rise_from_parent(src, k);
        assert forall|j: nat| j < k + 1 implies ((#[trigger] dom.rise(src, j)) matches Some(b)
            && href_of(dom, b) is None && b != leaf) by {
            if j > 0 {
                dom.lemma_rise_from_parent(src, (j - 1) as nat);
                assert(dom.rise(p, (j - 1) as nat) == dom.rise(src, j));
            }
        }
        k + 1
    }
}

proof fn lemma_no_link_on_the_way(dom: &Dom, src: NodeId, leaf: NodeId, k: nat)
    requires
        dom.wf(),
        dom.has(src),
        link_around(dom, src, leaf) is None,
        is_no_further_than(dom, src, leaf, k),
    ensures
        dom.rise(src, k) matches Some(b) ==> href_of(dom, b) is None,
    decreases k,
{
    assert(dom.rise(src, 0) == Some(src));
    if k > 0 {
        let m = (k - 1) as nat;
        dom.lemma_rise_from_parent(src, m);
        assert(dom.rise(src, 0) != Some(leaf));
        if let Some(p) = dom.parent_at(src) {
            assert(dom.has(p));
            assert forall|j: nat| j < m implies #[trigger] dom.rise(p, j) != Some(leaf) by {
                dom.lemma_rise_from_parent(src, j);
                assert(dom.rise(src, j + 1) != Some(leaf));
            }
            lemma_no_link_on_the_way(dom, p, leaf, m);
        }
    }
}

/// The links in the text of some leaves are those of each leaf, one after the other:
/// for each part of its text that belongs to a link, the link's address and the part.
pub proof fn the_links_of_texts_are_those_of_their_leaves(
    dom: &Dom,
    built: &BoxTree,
    leaves: Seq<NodeId>,
)
    ensures
        text_links(dom, built, leaves, leaves.len()) == leaves.map_values(
            |leaf: NodeId|
                match built.sources_at(leaf) {
                    Some(sources) => link_spans(dom, leaf, sources, sources.len()).map_values(
                        |s: LinkSpan|
                            (
                                address(dom, s.anchor),
                                AreaModel::Text(LeafSpan { leaf, start: s.start, end: s.end }),
                            ),
                    ),
                    None => Seq::<LinkModel>::empty(),
                },
        ).flatten(),
{
    lemma_text_links(dom, built, leaves, leaves.len());
    assert(leaves.take(leaves.len() as int) =~= leaves);
}

proof fn lemma_span_links(dom: &Dom, leaf: NodeId, spans: Seq<LinkSpan>, n: nat)
    requires
        n <= spans.len(),
    ensures
        span_links(dom, leaf, spans, n) == spans.take(n as int).map_values(
            |s: LinkSpan|
                (
                    address(dom, s.anchor),
                    AreaModel::Text(LeafSpan { leaf, start: s.start, end: s.end }),
                ),
        ),
    decreases n,
{
    let f = |s: LinkSpan|
        (
            address(dom, s.anchor),
            AreaModel::Text(LeafSpan { leaf, start: s.start, end: s.end }),
        );
    if n > 0 {
        lemma_span_links(dom, leaf, spans, (n - 1) as nat);
        assert(spans.take(n as int).map_values(f) =~= spans.take(n - 1).map_values(f).push(
            f(spans[n - 1]),
        ));
    } else {
        assert(spans.take(0).map_values(f) =~= Seq::<LinkModel>::empty());
    }
}

proof fn lemma_text_links(dom: &Dom, built: &BoxTree, leaves: Seq<NodeId>, n: nat)
    requires
        n <= leaves.len(),
    ensures
        text_links(dom, built, leaves, n) == leaves.take(n as int).map_values(
            |leaf: NodeId|
                match built.sources_at(leaf) {
                    Some(sources) => link_spans(dom, leaf, sources, sources.len()).map_values(
                        |s: LinkSpan|
                            (
                                address(dom, s.anchor),
                                AreaModel::Text(LeafSpan { leaf, start: s.start, end: s.end }),
                            ),
                    ),
                    None => Seq::<LinkModel>::empty(),
                },
        ).flatten(),
    decreases n,
{
    let f = |leaf: NodeId|
        match built.sources_at(leaf) {
            Some(sources) => link_spans(dom, leaf, sources, sources.len()).map_values(
                |s: LinkSpan|
                    (
                        address(dom, s.anchor),
                        AreaModel::Text(LeafSpan { leaf, start: s.start, end: s.end }),
                    ),
            ),
            None => Seq::<LinkModel>::empty(),
        };
    let parts = leaves.take(n as int).map_values(f);
    if n == 0 {
        assert(parts =~= Seq::<Seq<LinkModel>>::empty());
    } else {
        lemma_text_links(dom, built, leaves, (n - 1) as nat);
        let before = leaves.take(n - 1).map_values(f);
        let leaf = leaves[n - 1];
        assert(parts =~= before.push(f(leaf)));
        before.lemma_flatten_push(f(leaf));
        match built.sources_at(leaf) {
            Some(sources) => {
                let spans = link_spans(dom, leaf, sources, sources.len());
                lemma_span_links(dom, leaf, spans, spans.len());
                assert(spans.take(spans.len() as int) =~= spans);
            },
            None => {
                assert(before.flatten() + f(leaf) =~= before.flatten());
            },
        }
    }
}

/// The links with a box of their own are, in document order, the nodes that are links
/// and were laid out: each with its address and where its box lies.
pub proof fn the_boxed_links_are_the_links_with_a_box(
    dom: &Dom,
    fragments: &FragmentPlane,
    nodes: Seq<NodeId>,
    n: nat,
)
    requires
        n <= nodes.len(),
    ensures
        boxed_links(dom, fragments, nodes, n) == nodes.take(n as int).filter(
            |id: NodeId|
                dom.is_named(id, "a"@) && (dom.plain_attr(id, "href"@) matches Some(h) && h.len()
                    > 0) && fragments.rects@.contains_key(id),
        ).map_values(
            |id: NodeId|
                (
                    dom.plain_attr(id, "href"@)->0,
                    AreaModel::Boxed(fragment::rect_at(dom, fragments, id)->0),
                ),
        ),
    decreases n,
{
    let p = |id: NodeId|
        dom.is_named(id, "a"@) && (dom.plain_attr(id, "href"@) matches Some(h) && h.len() > 0)
            && fragments.rects@.contains_key(id);
    let f = |id: NodeId|
        (
            dom.plain_attr(id, "href"@)->0,
            AreaModel::Boxed(fragment::rect_at(dom, fragments, id)->0),
        );
    let front = nodes.take(n as int);
    reveal(Seq::filter);
    if n == 0 {
        assert(front.filter(p).map_values(f) =~= Seq::<LinkModel>::empty());
    } else {
        the_boxed_links_are_the_links_with_a_box(dom, fragments, nodes, (n - 1) as nat);
        assert(front.drop_last() =~= nodes.take(n - 1));
        assert(front.last() == nodes[n - 1]);
        let before = nodes.take(n - 1).filter(p);
        if p(nodes[n - 1]) {
            assert(before.push(nodes[n - 1]).map_values(f) =~= before.map_values(f).push(
                f(nodes[n - 1]),
            ));
        }
    }
}

/// An inline box is hit for a link where it is replaced content, a link is around it
/// within the leaf, and that link has no box of its own. It is hit where it was placed,
/// from where the content of the leaf starts.
pub proof fn the_links_of_a_line_are_those_around_its_boxes(
    dom: &Dom,
    fragments: &FragmentPlane,
    leaf: NodeId,
    content: InlineContent,
    boxes: Seq<PlacedBox>,
    n: nat,
)
    requires
        n <= boxes.len(),
    ensures
        line_links(dom, fragments, leaf, content, boxes, n) == boxes.take(n as int).filter(
            |b: PlacedBox|
                b.id < content.boxes@.len() && content.boxes@[b.id as int].block is None && (
                link_around(dom, content.boxes@[b.id as int].source, leaf) matches Some(a)
                    && !fragments.rects@.contains_key(a)),
        ).map_values(
            |b: PlacedBox|
                (
                    address(
                        dom,
                        link_around(dom, content.boxes@[b.id as int].source, leaf)->0,
                    ),
                    AreaModel::Image(
                        fragment::content_origin(dom, fragments, leaf).0,
                        fragment::content_origin(dom, fragments, leaf).1,
                        b,
                    ),
                ),
        ),
    decreases n,
{
    let p = |b: PlacedBox|
        b.id < content.boxes@.len() && content.boxes@[b.id as int].block is None && (link_around(
            dom,
            content.boxes@[b.id as int].source,
            leaf,
        ) matches Some(a) && !fragments.rects@.contains_key(a));
    let f = |b: PlacedBox|
        (
            address(dom, link_around(dom, content.boxes@[b.id as int].source, leaf)->0),
            AreaModel::Image(
                fragment::content_origin(dom, fragments, leaf).0,
                fragment::content_origin(dom, fragments, leaf).1,
                b,
            ),
        );
    let front = boxes.take(n as int);
    reveal(Seq::filter);
    if n == 0 {
        assert(front.filter(p).map_values(f) =~= Seq::<LinkModel>::empty());
    } else {
        the_links_of_a_line_are_those_around_its_boxes(
            dom,
            fragments,
            leaf,
            content,
            boxes,
            (n - 1) as nat,
        );
        assert(front.drop_last() =~= boxes.take(n - 1));
        assert(front.last() == boxes[n - 1]);
        let before = boxes.take(n - 1).filter(p);
        if p(boxes[n - 1]) {
            assert(before.push(boxes[n - 1]).map_values(f) =~= before.map_values(f).push(
                f(boxes[n - 1]),
            ));
        }
    }
}

/// The links around the inline boxes of some leaves are those of each line of each
/// leaf, one after the other. A leaf counts where it has a box, was laid out and
/// holds content that was shaped.
pub proof fn the_links_of_images_are_those_of_their_lines(
    dom: &Dom,
    fragments: &FragmentPlane,
    built: &BoxTree,
    ctx: &TextMeasureCtx,
    leaves: Seq<NodeId>,
    n: nat,
)
    requires
        n <= leaves.len(),
    ensures
        image_links(dom, fragments, built, ctx, leaves, n) == leaves.take(n as int).map_values(
            |leaf: NodeId| leaf_links(dom, fragments, built, ctx, leaf),
        ).flatten(),
        forall|leaf: NodeId|
            #![trigger leaf_links(dom, fragments, built, ctx, leaf)]
            built.node_map@.contains_key(leaf) && ctx.layouts@.contains_key(built.node_map@[leaf])
                && built.node_map@[leaf] < built.nodes@.len() && fragments.rects@.contains_key(leaf)
                ==> (built.nodes@[built.node_map@[leaf] as int].inline_content matches Some(content)
                ==> leaf_links(dom, fragments, built, ctx, leaf)
                == ctx.layouts@[built.node_map@[leaf]].lines@.map_values(
                |line: LineBox|
                    line_links(dom, fragments, leaf, content, line.boxes@, line.boxes@.len()),
            ).flatten()),
    decreases n,
{
    let f = |leaf: NodeId| leaf_links(dom, fragments, built, ctx, leaf);
    let parts = leaves.take(n as int).map_values(f);
    if n == 0 {
        assert(parts =~= Seq::<Seq<LinkModel>>::empty());
    } else {
        the_links_of_images_are_those_of_their_lines(
            dom,
            fragments,
            built,
            ctx,
            leaves,
            (n - 1) as nat,
        );
        let before = leaves.take(n - 1).map_values(f);
        assert(parts =~= before.push(f(leaves[n - 1])));
        before.lemma_flatten_push(f(leaves[n - 1]));
    }
    assert forall|leaf: NodeId|
        #![trigger leaf_links(dom, fragments, built, ctx, leaf)]
        built.node_map@.contains_key(leaf) && ctx.layouts@.contains_key(built.node_map@[leaf])
            && built.node_map@[leaf] < built.nodes@.len() && fragments.rects@.contains_key(
            leaf,
        ) implies (built.nodes@[built.node_map@[leaf] as int].inline_content matches Some(content)
        ==> leaf_links(dom, fragments, built, ctx, leaf)
        == ctx.layouts@[built.node_map@[leaf]].lines@.map_values(
        |line: LineBox| line_links(dom, fragments, leaf, content, line.boxes@, line.boxes@.len()),
    ).flatten()) by {
        if let Some(content) = built.nodes@[built.node_map@[leaf] as int].inline_content {
            let lines = ctx.layouts@[built.node_map@[leaf]].lines@;
            lemma_lines_links(dom, fragments, leaf, content, lines, lines.len());
            assert(lines.take(lines.len() as int) =~= lines);
        }
    }
}

proof fn lemma_lines_links(
    dom: &Dom,
    fragments: &FragmentPlane,
    leaf: NodeId,
    content: InlineContent,
    lines: Seq<LineBox>,
    n: nat,
)
    requires
        n <= lines.len(),
    ensures
        lines_links(dom, fragments, leaf, content, lines, n) == lines.take(n as int).map_values(
            |line: LineBox|
                line_links(dom, fragments, leaf, content, line.boxes@, line.boxes@.len()),
        ).flatten(),
    decreases n,
{
    let f = |line: LineBox|
        line_links(dom, fragments, leaf, content, line.boxes@, line.boxes@.len());
    let parts = lines.take(n as int).map_values(f);
    if n == 0 {
        assert(parts =~= Seq::<Seq<LinkModel>>::empty());
    } else {
        lemma_lines_links(dom, fragments, leaf, content, lines, (n - 1) as nat);
        let before = lines.take(n - 1).map_values(f);
        assert(parts =~= before.push(f(lines[n - 1])));
        before.lemma_flatten_push(f(lines[n - 1]));
    }
}

} // verus!
