//! Hit testing inside a box that text is set in: which inline element a point
//! lies on.
use vstd::prelude::*;
use crate::box_tree::BoxTree;
use crate::dom::NodeId;
use crate::float_bits;
use crate::float_bits::{at_most, less, Bits};
use crate::inline_content::SourceSpan;
use crate::style_plane::StylePlane;
use crate::text_layout::{Cluster, LineBox, TextLayout, TextMeasureCtx};

verus! {

/// The element that the byte at an offset came from: that of the first range
/// that holds it.
pub open spec fn source_of(sources: Seq<SourceSpan>, byte: usize) -> Option<NodeId>
    decreases sources.len(),
{
    if sources.len() == 0 {
        None
    } else if sources[0].start <= byte < sources[0].end {
        Some(sources[0].source)
    } else {
        source_of(sources.skip(1), byte)
    }
}

/// Whether a point lies on a cluster of a line: in the line's box, and from
/// the cluster's left edge up to its right one.
pub open spec fn lies_on(line: LineBox, cluster: Cluster, x: Bits, y: Bits) -> bool {
    &&& !float_bits::lt(y, line.top)
    &&& !float_bits::le(line.bottom, y)
    &&& !float_bits::lt(x, cluster.start)
    &&& !float_bits::le(cluster.end, x)
}

/// What a cluster makes of the element found so far: the element that its own
/// text came from, where the point lies on it and there is one.
pub open spec fn hit_after(
    hit: Option<NodeId>,
    line: LineBox,
    cluster: Cluster,
    sources: Seq<SourceSpan>,
    x: Bits,
    y: Bits,
) -> Option<NodeId> {
    if lies_on(line, cluster, x, y) && source_of(sources, cluster.byte) is Some {
        source_of(sources, cluster.byte)
    } else {
        hit
    }
}

/// The element found after the first `k` clusters of a line.
pub open spec fn hit_on_line(
    hit: Option<NodeId>,
    line: LineBox,
    sources: Seq<SourceSpan>,
    x: Bits,
    y: Bits,
    k: nat,
) -> Option<NodeId>
    decreases k,
{
    if k == 0 {
        hit
    } else {
        hit_after(
            hit_on_line(hit, line, sources, x, y, (k - 1) as nat),
            line,
            line.clusters@[k - 1],
            sources,
            x,
            y,
        )
    }
}

/// The element found after the first `n` lines: that of the last cluster, in the
/// order in which they are painted, that the point lies on.
pub open spec fn hit_on_lines(
    lines: Seq<LineBox>,
    sources: Seq<SourceSpan>,
    x: Bits,
    y: Bits,
    n: nat,
) -> Option<NodeId>
    decreases n,
{
    if n == 0 {
        None
    } else {
        hit_on_line(
            hit_on_lines(lines, sources, x, y, (n - 1) as nat),
            lines[n - 1],
            sources,
            x,
            y,
            lines[n - 1].clusters@.len(),
        )
    }
}

fn find_source(sources: &[SourceSpan], byte: usize) -> (r: Option<NodeId>)
    ensures
        r == source_of(sources@, byte),
{
    let mut i: usize = 0;
    assert(sources@.skip(0) =~= sources@);
    while i < sources.len()
        invariant
            i <= sources@.len(),
            source_of(sources@, byte) == source_of(sources@.skip(i as int), byte),
        decreases sources.len() - i,
    {
        if sources[i].start <= byte && byte < sources[i].end {
            return Some(sources[i].source);
        }
        assert(sources@.skip(i as int).skip(1) =~= sources@.skip(i + 1));
        i += 1;
    }
    None
}

/// The inline element that a point in a box's content lies on, by the
/// cluster under it; `None` where the point is on no cluster.
pub fn inline_source_at(layout: &TextLayout, sources: &[SourceSpan], x: Bits, y: Bits) -> (r:
    Option<NodeId>)
    ensures
        r == hit_on_lines(layout.lines@, sources@, x, y, layout.lines@.len()),
{
    let mut hit: Option<NodeId> = None;
    let mut n: usize = 0;
    while n < layout.lines.len()
        invariant
            n <= layout.lines@.len(),
            hit == hit_on_lines(layout.lines@, sources@, x, y, n as nat),
        decreases layout.lines.len() - n,
    {
        let line = &layout.lines[n];
        let ghost before = hit;
        let in_band = !less(y, line.top) && !at_most(line.bottom, y);
        let mut k: usize = 0;
        while k < line.clusters.len()
            invariant
                k <= line.clusters@.len(),
                in_band == (!float_bits::lt(y, line.top) && !float_bits::le(line.bottom, y)),
                hit == hit_on_line(before, *line, sources@, x, y, k as nat),
            decreases line.clusters.len() - k,
        {
            let cluster = line.clusters[k];
            if in_band && !less(x, cluster.start) && !at_most(cluster.end, x) {
                if let Some(source) = find_source(sources, cluster.byte) {
                    hit = Some(source);
                }
            }
            k += 1;
        }
        n += 1;
    }
    hit
}

proof fn lemma_hit_comes_from_a_cluster(
    lines: Seq<LineBox>,
    sources: Seq<SourceSpan>,
    x: Bits,
    y: Bits,
    n: nat,
    k: nat,
)
    requires
        n < lines.len(),
        k <= lines[n as int].clusters@.len(),
    ensures
        ({
            let r = hit_on_line(
                hit_on_lines(lines, sources, x, y, n),
                lines[n as int],
                sources,
                x,
                y,
                k,
            );
            r is Some ==> exists|i: int, j: int|
                0 <= i <= n && 0 <= j < lines[i].clusters@.len() && #[trigger] lies_on(
                    lines[i],
                    lines[i].clusters@[j],
                    x,
                    y,
                ) && source_of(sources, lines[i].clusters@[j].byte) == r
        }),
    decreases n, k,
{
    if k > 0 {
        lemma_hit_comes_from_a_cluster(lines, sources, x, y, n, (k - 1) as nat);
        let line = lines[n as int];
        let cluster = line.clusters@[k - 1];
        if lies_on(line, cluster, x, y) && source_of(sources, cluster.byte) is Some {
            assert(lies_on(lines[n as int], lines[n as int].clusters@[k - 1], x, y));
        }
    } else if n > 0 {
        lemma_hit_comes_from_a_cluster(
            lines,
            sources,
            x,
            y,
            (n - 1) as nat,
            lines[n - 1].clusters@.len(),
        );
    }
}

/// An element is hit only by a point that lies on one of its clusters: the
/// space between the lines of a wrapped element is not part of it.
pub proof fn a_hit_lies_on_a_cluster(
    lines: Seq<LineBox>,
    sources: Seq<SourceSpan>,
    x: Bits,
    y: Bits,
)
    ensures
        hit_on_lines(lines, sources, x, y, lines.len()) matches Some(id) ==> exists|i: int, j: int|
            0 <= i < lines.len() && 0 <= j < lines[i].clusters@.len() && #[trigger] lies_on(
                lines[i],
                lines[i].clusters@[j],
                x,
                y,
            ) && source_of(sources, lines[i].clusters@[j].byte) == Some(id),
{
    if lines.len() > 0 {
        let n = (lines.len() - 1) as nat;
        lemma_hit_comes_from_a_cluster(lines, sources, x, y, n, lines[n as int].clusters@.len());
    }
}

proof fn lemma_one_cluster_answers(
    lines: Seq<LineBox>,
    sources: Seq<SourceSpan>,
    x: Bits,
    y: Bits,
    i: int,
    j: int,
    n: nat,
    k: nat,
)
    requires
        n < lines.len(),
        k <= lines[n as int].clusters@.len(),
        0 <= i < lines.len(),
        0 <= j < lines[i].clusters@.len(),
        lies_on_only(lines, x, y, i, j),
    ensures
        hit_on_line(hit_on_lines(lines, sources, x, y, n), lines[n as int], sources, x, y, k) == (
        if i < n || (i == n && j < k) {
            source_of(sources, lines[i].clusters@[j].byte)
        } else {
            None
        }),
    decreases n, k,
{
    if k > 0 {
        lemma_one_cluster_answers(lines, sources, x, y, i, j, n, (k - 1) as nat);
        assert(lies_on(lines[n as int], lines[n as int].clusters@[k - 1], x, y) <==> (n == i && k
            - 1 == j));
    } else if n > 0 {
        lemma_one_cluster_answers(
            lines,
            sources,
            x,
            y,
            i,
            j,
            (n - 1) as nat,
            lines[n - 1].clusters@.len(),
        );
    }
}

/// Whether cluster `j` of line `i` is the one cluster that a point lies on.
pub open spec fn lies_on_only(lines: Seq<LineBox>, x: Bits, y: Bits, i: int, j: int) -> bool {
    forall|a: int, b: int|
        0 <= a < lines.len() && 0 <= b < lines[a].clusters@.len() ==> (#[trigger] lies_on(
            lines[a],
            lines[a].clusters@[b],
            x,
            y,
        ) <==> a == i && b == j)
}

/// Each cluster answers for itself: a point on one cluster alone hits the element
/// that the cluster's own text came from, whatever stands around it in the same
/// run.
pub proof fn a_cluster_answers_by_its_own_text(
    lines: Seq<LineBox>,
    sources: Seq<SourceSpan>,
    x: Bits,
    y: Bits,
    i: int,
    j: int,
)
    requires
        0 <= i < lines.len(),
        0 <= j < lines[i].clusters@.len(),
        lies_on_only(lines, x, y, i, j),
    ensures
        hit_on_lines(lines, sources, x, y, lines.len()) == source_of(
            sources,
            lines[i].clusters@[j].byte,
        ),
{
    let n = (lines.len() - 1) as nat;
    lemma_one_cluster_answers(lines, sources, x, y, i, j, n, lines[n as int].clusters@.len());
}

/// The inline element of a node's text that a point lies on. `None` where the
/// node has no text, where the point is on no cluster, and where the element
/// lets the pointer through.
pub open spec fn inline_element(
    built: &BoxTree,
    ctx: &TextMeasureCtx,
    styles: &StylePlane,
    node: NodeId,
    x: Bits,
    y: Bits,
) -> Option<NodeId> {
    let index = built.node_map@[node];
    if !built.node_map@.contains_key(node) || !ctx.layouts@.contains_key(index)
        || built.sources_at(node) is None {
        None
    } else {
        let lines = ctx.layouts@[index].lines@;
        match hit_on_lines(lines, built.sources_at(node)->0, x, y, lines.len()) {
            Some(el) => if styles.primary_at(el) matches Some(s) && s.pointer_events_none {
                None
            } else {
                Some(el)
            },
            None => None,
        }
    }
}

/// An inline element that is hit is the source of some of the node's text.
pub proof fn lemma_inline_element_is_a_source(
    built: &BoxTree,
    ctx: &TextMeasureCtx,
    styles: &StylePlane,
    node: NodeId,
    x: Bits,
    y: Bits,
)
    ensures
        inline_element(built, ctx, styles, node, x, y) matches Some(el) ==> {
            &&& built.sources_at(node) is Some
            &&& exists|i: int|
                0 <= i < built.sources_at(node)->0.len() && (#[trigger] built.sources_at(
                    node,
                )->0[i]).source == el
        },
{
    if let Some(el) = inline_element(built, ctx, styles, node, x, y) {
        let lines = ctx.layouts@[built.node_map@[node]].lines@;
        let sources = built.sources_at(node)->0;
        a_hit_lies_on_a_cluster(lines, sources, x, y);
        let (i, j) = choose|i: int, j: int|
            0 <= i < lines.len() && 0 <= j < lines[i].clusters@.len() && #[trigger] lies_on(
                lines[i],
                lines[i].clusters@[j],
                x,
                y,
            ) && source_of(sources, lines[i].clusters@[j].byte) == Some(el);
        lemma_source_is_listed(sources, lines[i].clusters@[j].byte);
    }
}

proof fn lemma_source_is_listed(sources: Seq<SourceSpan>, byte: usize)
    ensures
        source_of(sources, byte) matches Some(el) ==> exists|i: int|
            0 <= i < sources.len() && (#[trigger] sources[i]).source == el,
    decreases sources.len(),
{
    if source_of(sources, byte) is Some && !(sources[0].start <= byte && byte < sources[0].end) {
        let el = source_of(sources, byte)->0;
        lemma_source_is_listed(sources.skip(1), byte);
        let i = choose|i: int|
            0 <= i < sources.skip(1).len() && (#[trigger] sources.skip(1)[i]).source == el;
        assert(sources[i + 1].source == el);
    }
}

/// The inline element of a node's text that a point lies on; the point is given
/// from where the node's content starts.
pub fn inline_hit_at(
    built: &BoxTree,
    ctx: &TextMeasureCtx,
    styles: &StylePlane,
    node: NodeId,
    x: Bits,
    y: Bits,
) -> (r: Option<NodeId>)
    ensures
        r == inline_element(built, ctx, styles, node, x, y),
{
    let index: usize = match built.node_map.get(node) {
        Some(index) => *index,
        None => return None,
    };
    let layout: &TextLayout = match ctx.layouts.get(index) {
        Some(layout) => layout,
        None => return None,
    };
    let spans: Vec<SourceSpan> = match built.inline_sources(node) {
        Some(spans) => spans,
        None => return None,
    };
    match inline_source_at(layout, spans.as_slice(), x, y) {
        Some(el) => match styles.primary(el) {
            Some(s) => if s.pointer_events_none {
                None
            } else {
                Some(el)
            },
            None => Some(el),
        },
        None => None,
    }
}

// ---------------------------------------------------------------------------
// Laws
// ---------------------------------------------------------------------------
/// A byte came from the element of the first range that holds it, and from none where
/// no range does.
pub proof fn a_byte_is_of_the_first_range_that_holds_it(sources: Seq<SourceSpan>, byte: usize)
    ensures
        match source_of(sources, byte) {
            Some(el) => exists|i: int|
                0 <= i < sources.len() && (#[trigger] sources[i]).source == el && sources[i].start
                    <= byte < sources[i].end && forall|j: int|
                    0 <= j < i ==> !((#[trigger] sources[j]).start <= byte < sources[j].end),
            None => forall|i: int|
                0 <= i < sources.len() ==> !((#[trigger] sources[i]).start <= byte
                    < sources[i].end),
        },
    decreases sources.len(),
{
    if sources.len() > 0 && !(sources[0].start <= byte < sources[0].end) {
        let rest = sources.skip(1);
        a_byte_is_of_the_first_range_that_holds_it(rest, byte);
        match source_of(rest, byte) {
            Some(el) => {
                let i = choose|i: int|
                    0 <= i < rest.len() && (#[trigger] rest[i]).source == el && rest[i].start
                        <= byte < rest[i].end && forall|j: int|
                        0 <= j < i ==> !((#[trigger] rest[j]).start <= byte < rest[j].end);
                assert(sources[i + 1] == rest[i]);
                assert forall|j: int| 0 <= j < i + 1 implies !((#[trigger] sources[j]).start
                    <= byte < sources[j].end) by {
                    if j > 0 {
                        assert(sources[j] == rest[j - 1]);
                    }
                }
            },
            None => {
                assert forall|i: int| 0 <= i < sources.len() implies !((
                #[trigger] sources[i]).start <= byte < sources[i].end) by {
                    if i > 0 {
                        assert(sources[i] == rest[i - 1]);
                    }
                }
            },
        }
    }
}

/// Whether a cluster answers for a point: the point lies on it, and its text came from
/// an element.
pub open spec fn answers(
    lines: Seq<LineBox>,
    sources: Seq<SourceSpan>,
    x: Bits,
    y: Bits,
    i: int,
    j: int,
) -> bool {
    &&& lies_on(lines[i], lines[i].clusters@[j], x, y)
    &&& source_of(sources, lines[i].clusters@[j].byte) is Some
}

proof fn lemma_last_answer(
    lines: Seq<LineBox>,
    sources: Seq<SourceSpan>,
    x: Bits,
    y: Bits,
    i: int,
    j: int,
    n: nat,
    k: nat,
)
    requires
        n < lines.len(),
        k <= lines[n as int].clusters@.len(),
        0 <= i <= n,
        0 <= j < lines[i].clusters@.len(),
        i == n ==> j < k,
        answers(lines, sources, x, y, i, j),
        forall|a: int, b: int|
            0 <= a < lines.len() && 0 <= b < lines[a].clusters@.len() && (a > i || (a == i && b
                > j)) ==> !#[trigger] answers(lines, sources, x, y, a, b),
    ensures
        hit_on_line(hit_on_lines(lines, sources, x, y, n), lines[n as int], sources, x, y, k)
            == source_of(sources, lines[i].clusters@[j].byte),
    decreases n, k,
{
    if k == 0 {
        assert(i < n);
        let m = (n - 1) as nat;
        lemma_last_answer(
            lines,
            sources,
            x,
            y,
            i,
            j,
            m,
            lines[m as int].clusters@.len(),
        );
    } else {
        let b = k - 1;
        if i == n && b == j {
        } else {
            assert(!answers(lines, sources, x, y, n as int, b));
            lemma_last_answer(lines, sources, x, y, i, j, n, (k - 1) as nat);
        }
    }
}

/// Of the clusters that answer for a point, the last one in the order of painting does.
pub proof fn the_last_painted_cluster_answers(
    lines: Seq<LineBox>,
    sources: Seq<SourceSpan>,
    x: Bits,
    y: Bits,
    i: int,
    j: int,
)
    requires
        0 <= i < lines.len(),
        0 <= j < lines[i].clusters@.len(),
        answers(lines, sources, x, y, i, j),
        forall|a: int, b: int|
            0 <= a < lines.len() && 0 <= b < lines[a].clusters@.len() && (a > i || (a == i && b
                > j)) ==> !#[trigger] answers(lines, sources, x, y, a, b),
    ensures
        hit_on_lines(lines, sources, x, y, lines.len()) == source_of(
            sources,
            lines[i].clusters@[j].byte,
        ),
{
    let n = (lines.len() - 1) as nat;
    lemma_last_answer(lines, sources, x, y, i, j, n, lines[n as int].clusters@.len());
}

/// An element that lets the pointer through is not hit in its text; any other that the
/// text under the point came from is.
pub proof fn text_is_hit_unless_it_lets_the_pointer_through(
    built: &BoxTree,
    ctx: &TextMeasureCtx,
    styles: &StylePlane,
    node: NodeId,
    x: Bits,
    y: Bits,
    el: NodeId,
)
    requires
        built.node_map@.contains_key(node),
        ctx.layouts@.contains_key(built.node_map@[node]),
        built.sources_at(node) is Some,
        hit_on_lines(
            ctx.layouts@[built.node_map@[node]].lines@,
            built.sources_at(node)->0,
            x,
            y,
            ctx.layouts@[built.node_map@[node]].lines@.len(),
        ) == Some(el),
    ensures
        styles.primary_at(el) matches Some(s) && s.pointer_events_none ==> inline_element(
            built,
            ctx,
            styles,
            node,
            x,
            y,
        ) is None,
        !(styles.primary_at(el) matches Some(s) && s.pointer_events_none) ==> inline_element(
            built,
            ctx,
            styles,
            node,
            x,
            y,
        ) == Some(el),
{
}

} // verus!
