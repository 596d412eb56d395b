//! A session over one document: what a batch of mutations makes it do, and what
//! it keeps from one batch to the next.
use vstd::prelude::*;
use vstd::laws_eq::*;
use vstd::string::*;
use crate::box_tree;
use crate::box_tree::{layout_subtree, BoxTree};
use crate::caret;
use crate::caret::LeafSpan;
use crate::cascade;
use crate::cascade::{
    restyle_structural, restyle_with_snapshots, run_cascade_with_stylist, RestyleOutcome,
};
use crate::dom::{Dom, NodeId, NodeKind};
use crate::float_bits;
use crate::float_bits::{exceeds, Bits, HALF};
use crate::fragment;
use crate::fragment::{absolute_origin, FragmentPlane, Layout};
use crate::highlight;
use crate::highlight::TextPlace;
use crate::image_decode;
use crate::image_decode::{DecodedImage, ImagePlane, NoImageLoader};
use crate::inline_hit;
use crate::inline_hit::inline_hit_at;
use crate::invalidate;
use crate::invalidate::{classify, coalesce, DomMutation, Invalidation};
use crate::link_harvest;
use crate::link_harvest::{anchor_fragment, anchor_href};
use crate::node_map::NodeMap;
use crate::scroll;
use crate::scroll::{
    document_scroll_range, merged_scroll, nearest_offset, scroll_from, ScrollKey, Viewport,
};
use crate::style_plane::{
    ComputedStyle, DisplayInside, Overflow, Position, Rgba, StyleEntry, StylePlane,
};
use crate::text;
use crate::text::str_eq;
use crate::text_layout::TextMeasureCtx;

verus! {

/// What a batch of mutations came to.
#[derive(Clone, Copy, Debug, PartialEq, Eq, Structural)]
pub enum Applied {
    /// There were no mutations.
    Unchanged,
    /// Attributes changed, and nothing moved: the boxes still hold.
    RepaintOnly,
    /// Attributes changed, and layout ran again.
    Restyled,
    /// The structure changed, and each affected subtree was laid out by itself
    /// and put in its place.
    Spliced,
    /// Layout ran again over the whole document.
    FullRecompute,
}

// ---------------------------------------------------------------------------
// Splicing
// ---------------------------------------------------------------------------
/// Whether an element keeps the margins of its children from collapsing into
/// its own: it cuts off its overflow, is out of the flow, or is no plain block
/// inside. One that was not styled does not.
pub open spec fn is_independent(style: Option<ComputedStyle>) -> bool {
    match style {
        Some(s) => {
            ||| s.overflow_x != Overflow::Visible
            ||| s.overflow_y != Overflow::Visible
            ||| s.position == Position::Absolute
            ||| s.position == Position::Fixed
            ||| s.display_inside != DisplayInside::Flow
        },
        None => false,
    }
}

/// Whether an element keeps the margins of its children from collapsing into
/// its own.
pub fn establishes_independent_formatting_context(styles: &StylePlane, node: NodeId) -> (r: bool)
    ensures
        r == is_independent(styles.primary_at(node)),
{
    match styles.primary(node) {
        Some(s) => s.overflow_x != Overflow::Visible || s.overflow_y != Overflow::Visible
            || s.position == Position::Absolute || s.position == Position::Fixed
            || s.display_inside != DisplayInside::Flow,
        None => false,
    }
}

/// Whether an element is in the flow of its parent. One that was not styled is
/// not.
pub open spec fn flows(style: Option<ComputedStyle>) -> bool {
    style matches Some(s) && s.position != Position::Absolute && s.position != Position::Fixed
}

/// Whether an element is in the flow of its parent.
pub fn is_in_flow(styles: &StylePlane, node: NodeId) -> (r: bool)
    ensures
        r == flows(styles.primary_at(node)),
{
    match styles.primary(node) {
        Some(s) => s.position != Position::Absolute && s.position != Position::Fixed,
        None => false,
    }
}

/// Whether a child was laid out in the flow.
pub open spec fn counts(styles: &StylePlane, scoped: Map<NodeId, Layout>, child: NodeId) -> bool {
    scoped.contains_key(child) && flows(styles.primary_at(child))
}

/// The children of a node that were laid out in the flow.
pub open spec fn flow_children(
    dom: &Dom,
    styles: &StylePlane,
    scoped: Map<NodeId, Layout>,
    root: NodeId,
) -> Seq<NodeId> {
    dom.children_at(root).filter(|c: NodeId| counts(styles, scoped, c))
}

/// Whether laying out a subtree by itself loses a margin that would collapse
/// through its root: the root is a plain block, and its first child in the flow
/// has a margin above, or its last one below, of more than half a pixel.
pub open spec fn loses_collapse(
    dom: &Dom,
    styles: &StylePlane,
    scoped: Map<NodeId, Layout>,
    root: NodeId,
) -> bool {
    let kids = flow_children(dom, styles, scoped, root);
    &&& !is_independent(styles.primary_at(root))
    &&& kids.len() > 0
    &&& (float_bits::beyond(scoped[kids.first()].margin_top, HALF) || float_bits::beyond(
        scoped[kids.last()].margin_bottom,
        HALF,
    ))
}

/// Whether laying out a subtree by itself loses a margin that would collapse
/// through its root.
pub fn splice_loses_margin_collapse(
    dom: &Dom,
    styles: &StylePlane,
    scoped: &FragmentPlane,
    root: NodeId,
) -> (r: bool)
    requires
        dom.wf(),
        dom.has(root),
    ensures
        r == loses_collapse(dom, styles, scoped.rects@, root),
{
    if establishes_independent_formatting_context(styles, root) {
        return false;
    }
    let children = dom.dom_children(root);
    let ghost p = |c: NodeId| counts(styles, scoped.rects@, c);
    let mut first: Option<Layout> = None;
    let mut last: Option<Layout> = None;
    let mut k: usize = 0;
    proof {
        reveal(Seq::filter);
        assert(children@.take(0).filter(p) =~= Seq::<NodeId>::empty());
    }
    while k < children.len()
        invariant
            k <= children@.len(),
            p == (|c: NodeId| counts(styles, scoped.rects@, c)),
            ({
                let kids = children@.take(k as int).filter(p);
                if kids.len() == 0 {
                    first is None && last is None
                } else {
                    first == Some(scoped.rects@[kids.first()]) && last == Some(
                        scoped.rects@[kids.last()],
                    )
                }
            }),
        decreases children.len() - k,
    {
        let child = children[k];
        let ghost before = children@.take(k as int).filter(p);
        proof {
            reveal(Seq::filter);
            assert(children@.take(k + 1).drop_last() =~= children@.take(k as int));
            assert(children@.take(k + 1).filter(p) =~= if p(child) {
                before.push(child)
            } else {
                before
            });
        }
        if let Some(l) = scoped.rect_of(child) {
            if is_in_flow(styles, child) {
                if first.is_none() {
                    first = Some(*l);
                }
                last = Some(*l);
            }
        }
        k += 1;
    }
    assert(children@.take(k as int) =~= children@);
    match (first, last) {
        (Some(f), Some(l)) => exceeds(f.margin_top, HALF) || exceeds(l.margin_bottom, HALF),
        _ => false,
    }
}

/// Whether a subtree that was laid out by itself can be put in the place of the
/// one before: both were laid out, they have the same size, and no margin is
/// lost.
pub open spec fn can_splice(
    dom: &Dom,
    styles: &StylePlane,
    prior: Map<NodeId, Layout>,
    scoped: Map<NodeId, Layout>,
    root: NodeId,
) -> bool {
    &&& prior.contains_key(root)
    &&& scoped.contains_key(root)
    &&& !loses_collapse(dom, styles, scoped, root)
    &&& scoped[root].width == prior[root].width
    &&& scoped[root].height == prior[root].height
}

/// The boxes with those of a subtree in place of the ones before. The subtree's
/// root keeps its corner; what is below it stands where it was laid out.
pub open spec fn spliced(
    dom: &Dom,
    boxes: Map<NodeId, Layout>,
    prior: Map<NodeId, Layout>,
    scoped: Map<NodeId, Layout>,
    root: NodeId,
) -> Map<NodeId, Layout> {
    let inside = |k: NodeId| dom.order(root).contains(k) && scoped.contains_key(k);
    Map::new(
        |k: NodeId| boxes.contains_key(k) || inside(k),
        |k: NodeId|
            if inside(k) {
                if k == root {
                    Layout { x: prior[root].x, y: prior[root].y, ..scoped[k] }
                } else {
                    scoped[k]
                }
            } else {
                boxes[k]
            },
    )
}

/// The boxes with the first `n` of some subtrees spliced in, one after the
/// other.
pub open spec fn spliced_all(
    dom: &Dom,
    prior: Map<NodeId, Layout>,
    scoped: Seq<FragmentPlane>,
    roots: Seq<NodeId>,
    n: nat,
) -> Map<NodeId, Layout>
    decreases n,
{
    if n == 0 {
        prior
    } else {
        spliced(
            dom,
            spliced_all(dom, prior, scoped, roots, (n - 1) as nat),
            prior,
            scoped[n - 1].rects@,
            roots[n - 1],
        )
    }
}

/// The nodes of a subtree in document order.
pub fn collect_subtree(dom: &Dom, root: NodeId) -> (r: Vec<NodeId>)
    requires
        dom.wf(),
        dom.has(root),
    ensures
        r@ == dom.order(root),
{
    dom.document_order(root)
}

fn copy_rects(from: &NodeMap<Layout>) -> (r: NodeMap<Layout>)
    ensures
        r@ == from@,
{
    let keys = from.keys();
    let mut out: NodeMap<Layout> = NodeMap::new();
    let mut i: usize = 0;
    while i < keys.len()
        invariant
            i <= keys@.len(),
            forall|k: NodeId| #[trigger] keys@.contains(k) <==> from@.contains_key(k),
            forall|k: NodeId| #[trigger]
                out@.contains_key(k) <==> exists|j: int| 0 <= j < i && #[trigger] keys@[j] == k,
            forall|k: NodeId| out@.contains_key(k) ==> #[trigger] out@[k] == from@[k],
        decreases keys.len() - i,
    {
        let id = keys[i];
        assert(keys@.contains(keys@[i as int]));
        let ghost before = out@;
        if let Some(l) = from.get(id) {
            out.insert(id, *l);
        }
        assert forall|k: NodeId| #[trigger]
            out@.contains_key(k) <==> exists|j: int| 0 <= j < i + 1 && #[trigger] keys@[j] == k by {
            assert(before.contains_key(k) <==> exists|j: int| 0 <= j < i && #[trigger] keys@[j]
                == k);
            if k == id {
                assert(keys@[i as int] == k);
            }
        }
        assert forall|k: NodeId| out@.contains_key(k) implies #[trigger] out@[k] == from@[k] by {
            assert(k != id ==> before.contains_key(k) && before[k] == from@[k]);
        }
        i += 1;
    }
    assert(out@ =~= from@) by {
        assert forall|k: NodeId| out@.contains_key(k) <==> from@.contains_key(k) by {
            assert(keys@.contains(k) <==> from@.contains_key(k));
        }
    }
    out
}

/// Puts a subtree in its place.
fn splice_into(
    dom: &Dom,
    boxes: &mut NodeMap<Layout>,
    prior_root: Layout,
    scoped: &FragmentPlane,
    root: NodeId,
    Ghost(prior): Ghost<Map<NodeId, Layout>>,
)
    requires
        dom.wf(),
        dom.has(root),
        prior[root] == prior_root,
    ensures
        final(boxes)@ == spliced(dom, old(boxes)@, prior, scoped.rects@, root),
{
    let ghost before = boxes@;
    let order = collect_subtree(dom, root);
    let ghost full = spliced(dom, before, prior, scoped.rects@, root);
    let mut i: usize = 0;
    while i < order.len()
        invariant
            order@ == dom.order(root),
            prior[root] == prior_root,
            full == spliced(dom, before, prior, scoped.rects@, root),
            i <= order@.len(),
            forall|k: NodeId| #[trigger]
                boxes@.contains_key(k) <==> before.contains_key(k) || (order@.take(
                    i as int,
                ).contains(k) && scoped.rects@.contains_key(k)),
            forall|k: NodeId|
                boxes@.contains_key(k) ==> #[trigger] boxes@[k] == if order@.take(i as int).contains(
                    k,
                ) && scoped.rects@.contains_key(k) {
                    full[k]
                } else {
                    before[k]
                },
        decreases order.len() - i,
    {
        let node = order[i];
        let ghost now = boxes@;
        let ghost a = order@.take(i as int);
        let ghost b = order@.take(i + 1);
        assert(order@.contains(order@[i as int]));
        if let Some(l) = scoped.rect_of(node) {
            let mut placed: Layout = *l;
            if node == root {
                placed.x = prior_root.x;
                placed.y = prior_root.y;
            }
            boxes.insert(node, placed);
            assert(full[node] == placed);
        }
        assert forall|k: NodeId| #[trigger] b.contains(k) <==> a.contains(k) || k == node by {
            assert(b =~= a.push(node));
            if a.contains(k) {
                let j = a.index_of(k);
                assert(b[j] == k);
            }
            if b.contains(k) {
                let j = b.index_of(k);
                if j < i {
                    assert(a[j] == k);
                }
            }
            assert(b[i as int] == node);
        }
        assert forall|k: NodeId| #[trigger]
            boxes@.contains_key(k) <==> before.contains_key(k) || (b.contains(k)
                && scoped.rects@.contains_key(k)) by {
            assert(now.contains_key(k) <==> before.contains_key(k) || (a.contains(k)
                && scoped.rects@.contains_key(k)));
        }
        assert forall|k: NodeId| boxes@.contains_key(k) implies #[trigger] boxes@[k] == if b.contains(
            k,
        ) && scoped.rects@.contains_key(k) {
            full[k]
        } else {
            before[k]
        } by {
            if k != node {
                assert(now.contains_key(k));
                assert(now[k] == boxes@[k]);
            }
        }
        i += 1;
    }
    assert(order@.take(i as int) =~= order@);
    assert(boxes@ =~= full);
}

/// Whether some boxes and fragments are those of a subtree as if it were the
/// whole document. Images do not size the boxes of a session.
pub open spec fn laid_out_at<C: Fn(&StylePlane, &BoxTree) -> Vec<Layout>>(
    dom: &Dom,
    top: NodeId,
    styles: &StylePlane,
    compute: &C,
    fragments: FragmentPlane,
    built: BoxTree,
) -> bool {
    exists|images: ImagePlane|
        {
            &&& images@ == Map::<NodeId, DecodedImage>::empty()
            &&& #[trigger] box_tree::layout_of(
                dom,
                top,
                styles,
                &images,
                compute,
                fragments,
                built,
            )
        }
}

/// Whether some fragments are those of a subtree as if it were the whole
/// document.
pub open spec fn laid_out_alone<C: Fn(&StylePlane, &BoxTree) -> Vec<Layout>>(
    dom: &Dom,
    top: NodeId,
    styles: &StylePlane,
    compute: &C,
    fragments: FragmentPlane,
) -> bool {
    exists|built: BoxTree| #[trigger] laid_out_at(dom, top, styles, compute, fragments, built)
}

/// Lays out a subtree as if it were the whole document.
fn scoped_layout<C: Fn(&StylePlane, &BoxTree) -> Vec<Layout>>(
    dom: &Dom,
    styles: &StylePlane,
    top: NodeId,
    compute: &C,
) -> (r: (FragmentPlane, BoxTree))
    requires
        dom.wf(),
        dom.has(top),
        forall|t: &BoxTree| #[trigger] call_requires(*compute, (styles, t)),
        box_tree::lays_out_every_box(compute, styles),
    ensures
        laid_out_at(dom, top, styles, compute, r.0, r.1),
{
    let images = ImagePlane::new();
    let (fragments, built) = layout_subtree(dom, styles, &images, top, compute);
    assert(box_tree::layout_of(dom, top, styles, &images, compute, fragments, built));
    (fragments, built)
}

/// Whether `scoped` holds the fragments of each of some subtrees, laid out by
/// itself.
pub open spec fn laid_out<C: Fn(&StylePlane, &BoxTree) -> Vec<Layout>>(
    dom: &Dom,
    compute: &C,
    styles: StylePlane,
    roots: Seq<NodeId>,
    scoped: Seq<FragmentPlane>,
) -> bool {
    &&& scoped.len() == roots.len()
    &&& forall|i: int|
        0 <= i < roots.len() ==> laid_out_alone(
            dom,
            roots[i],
            &styles,
            compute,
            #[trigger] scoped[i],
        )
}

/// Whether some boxes are those before with each of some subtrees, laid out by
/// itself, spliced in.
pub open spec fn all_spliced<C: Fn(&StylePlane, &BoxTree) -> Vec<Layout>>(
    dom: &Dom,
    styles: StylePlane,
    prior: Map<NodeId, Layout>,
    roots: Seq<NodeId>,
    compute: &C,
    boxes: Map<NodeId, Layout>,
) -> bool {
    exists|scoped: Seq<FragmentPlane>|
        {
            &&& #[trigger] laid_out(dom, compute, styles, roots, scoped)
            &&& forall|i: int|
                0 <= i < roots.len() ==> can_splice(
                    dom,
                    &styles,
                    prior,
                    (#[trigger] scoped[i]).rects@,
                    roots[i],
                )
            &&& boxes == spliced_all(dom, prior, scoped, roots, roots.len())
        }
}

/// Whether one of some subtrees cannot be spliced in: it was not laid out
/// before, or does not fit as it is laid out now.
pub open spec fn splice_fails<C: Fn(&StylePlane, &BoxTree) -> Vec<Layout>>(
    dom: &Dom,
    styles: StylePlane,
    prior: Map<NodeId, Layout>,
    roots: Seq<NodeId>,
    compute: &C,
) -> bool {
    exists|i: int| 0 <= i < roots.len() && #[trigger] cannot_splice(
        dom,
        styles,
        prior,
        roots[i],
        compute,
    )
}

/// Whether a subtree cannot be spliced in.
pub open spec fn cannot_splice<C: Fn(&StylePlane, &BoxTree) -> Vec<Layout>>(
    dom: &Dom,
    styles: StylePlane,
    prior: Map<NodeId, Layout>,
    root: NodeId,
    compute: &C,
) -> bool {
    ||| !prior.contains_key(root)
    ||| exists|scoped: FragmentPlane|
        laid_out_alone(dom, root, &styles, compute, scoped) && !#[trigger] can_splice(
            dom,
            &styles,
            prior,
            scoped.rects@,
            root,
        )
}

/// Lays out each of some subtrees by itself and splices it in. `None` where one
/// of them cannot be spliced: then layout must run over the whole document.
pub fn splice_subtrees<C: Fn(&StylePlane, &BoxTree) -> Vec<Layout>>(
    dom: &Dom,
    styles: &StylePlane,
    prior: &FragmentPlane,
    roots: &Vec<NodeId>,
    compute: &C,
) -> (r: Option<NodeMap<Layout>>)
    requires
        dom.wf(),
        forall|i: int| 0 <= i < roots@.len() ==> dom.has(#[trigger] roots@[i]),
        forall|t: &BoxTree| #[trigger] call_requires(*compute, (styles, t)),
        box_tree::lays_out_every_box(compute, styles),
    ensures
        match r {
            Some(boxes) => all_spliced(dom, *styles, prior.rects@, roots@, compute, boxes@),
            None => splice_fails(dom, *styles, prior.rects@, roots@, compute),
        },
{
    let mut boxes = copy_rects(&prior.rects);
    let ghost mut scoped_all = Seq::<FragmentPlane>::empty();
    let mut n: usize = 0;
    while n < roots.len()
        invariant
            dom.wf(),
            forall|i: int| 0 <= i < roots@.len() ==> dom.has(#[trigger] roots@[i]),
            forall|t: &BoxTree| #[trigger] call_requires(*compute, (styles, t)),
            box_tree::lays_out_every_box(compute, styles),
            n <= roots@.len(),
            scoped_all.len() == n,
            forall|i: int|
                0 <= i < n ==> laid_out_alone(
                    dom,
                    roots@[i],
                    styles,
                    compute,
                    #[trigger] scoped_all[i],
                ) && can_splice(dom, styles, prior.rects@, scoped_all[i].rects@, roots@[i]),
            boxes@ == spliced_all(dom, prior.rects@, scoped_all, roots@, n as nat),
        decreases roots.len() - n,
    {
        let root = roots[n];
        assert(dom.has(roots@[n as int]));
        let prior_root: Layout = match prior.rect_of(root) {
            Some(l) => *l,
            None => {
                assert(cannot_splice(dom, *styles, prior.rects@, roots@[n as int], compute));
                return None;
            },
        };
        let (scoped, built) = scoped_layout(dom, styles, root, compute);
        assert(laid_out_at(dom, roots@[n as int], styles, compute, scoped, built));
        let fits = match scoped.rect_of(root) {
            Some(l) => l.width == prior_root.width && l.height == prior_root.height,
            None => false,
        };
        if !fits || splice_loses_margin_collapse(dom, styles, &scoped, root) {
            assert(!can_splice(dom, styles, prior.rects@, scoped.rects@, roots@[n as int]));
            assert(cannot_splice(dom, *styles, prior.rects@, roots@[n as int], compute));
            return None;
        }
        splice_into(dom, &mut boxes, prior_root, &scoped, root, Ghost(prior.rects@));
        proof {
            let known = scoped_all;
            scoped_all = known.push(scoped);
            lemma_spliced_prefix(dom, prior.rects@, known, scoped_all, roots@, n as nat);
            assert forall|i: int| 0 <= i < n + 1 implies laid_out_alone(
                dom,
                roots@[i],
                styles,
                compute,
                #[trigger] scoped_all[i],
            ) && can_splice(dom, styles, prior.rects@, scoped_all[i].rects@, roots@[i]) by {
                if i < n {
                    assert(laid_out_alone(dom, roots@[i], styles, compute, known[i]));
                }
            }
        }
        n += 1;
    }
    assert(laid_out(dom, compute, *styles, roots@, scoped_all));
    Some(boxes)
}

proof fn lemma_spliced_prefix(
    dom: &Dom,
    prior: Map<NodeId, Layout>,
    a: Seq<FragmentPlane>,
    b: Seq<FragmentPlane>,
    roots: Seq<NodeId>,
    n: nat,
)
    requires
        n <= a.len() <= b.len(),
        forall|i: int| 0 <= i < n ==> a[i] == b[i],
    ensures
        spliced_all(dom, prior, a, roots, n) == spliced_all(dom, prior, b, roots, n),
    decreases n,
{
    if n > 0 {
        lemma_spliced_prefix(dom, prior, a, b, roots, (n - 1) as nat);
    }
}

/// A splice leaves every box outside the spliced subtrees as it was, and keeps
/// the corner and the size of their roots.
pub proof fn a_splice_stays_in_its_subtree(
    dom: &Dom,
    styles: &StylePlane,
    boxes: Map<NodeId, Layout>,
    prior: Map<NodeId, Layout>,
    scoped: Map<NodeId, Layout>,
    root: NodeId,
)
    requires
        dom.wf(),
        dom.has(root),
        can_splice(dom, styles, prior, scoped, root),
    ensures
        forall|k: NodeId|
            !dom.is_within(k, root) ==> (boxes.contains_key(k) <==> #[trigger] spliced(
                dom,
                boxes,
                prior,
                scoped,
                root,
            ).contains_key(k)) && (boxes.contains_key(k) ==> spliced(
                dom,
                boxes,
                prior,
                scoped,
                root,
            )[k] == boxes[k]),
        ({
            let l = spliced(dom, boxes, prior, scoped, root)[root];
            l.x == prior[root].x && l.y == prior[root].y && l.width == prior[root].width
                && l.height == prior[root].height
        }),
{
    dom.lemma_order_visits(root);
    assert(dom.order(root)[0] == root);
}

/// Whether two layouts have the same box for a node, or none.
pub open spec fn agree_on(a: Map<NodeId, Layout>, b: Map<NodeId, Layout>, k: NodeId) -> bool {
    (a.contains_key(k) <==> b.contains_key(k)) && (a.contains_key(k) ==> a[k] == b[k])
}

/// A box of a subtree that was laid out by itself, as it is spliced in: the root
/// keeps the corner that it had.
pub open spec fn placed(
    prior: Map<NodeId, Layout>,
    scoped: Map<NodeId, Layout>,
    root: NodeId,
    k: NodeId,
) -> Layout {
    if k == root {
        Layout { x: prior[root].x, y: prior[root].y, ..scoped[k] }
    } else {
        scoped[k]
    }
}

/// Whether a layout of a whole document has a subtree as it is when the subtree
/// is laid out by itself and put in its place.
pub open spec fn has_subtree(
    dom: &Dom,
    full: Map<NodeId, Layout>,
    prior: Map<NodeId, Layout>,
    scoped: Map<NodeId, Layout>,
    root: NodeId,
) -> bool {
    forall|k: NodeId| #[trigger]
        dom.is_within(k, root) ==> (full.contains_key(k) <==> scoped.contains_key(k)) && (
        full.contains_key(k) ==> full[k] == placed(prior, scoped, root, k))
}

proof fn lemma_splices_agree(
    dom: &Dom,
    prior: Map<NodeId, Layout>,
    scoped: Seq<FragmentPlane>,
    roots: Seq<NodeId>,
    full: Map<NodeId, Layout>,
    n: nat,
    k: NodeId,
)
    requires
        dom.wf(),
        n <= roots.len() == scoped.len(),
        forall|i: int| 0 <= i < roots.len() ==> dom.has(#[trigger] roots[i]),
        forall|i: int|
            0 <= i < roots.len() ==> has_subtree(
                dom,
                full,
                prior,
                (#[trigger] scoped[i]).rects@,
                roots[i],
            ),
        prior.contains_key(k) ==> full.contains_key(k),
        (forall|i: int| 0 <= i < roots.len() ==> !dom.is_within(k, #[trigger] roots[i]))
            ==> agree_on(prior, full, k),
    ensures
        ({
            let boxes = spliced_all(dom, prior, scoped, roots, n);
            &&& boxes.contains_key(k) ==> full.contains_key(k)
            &&& (exists|i: int| 0 <= i < n && dom.is_within(k, #[trigger] roots[i])) ==> agree_on(
                boxes,
                full,
                k,
            )
            &&& (forall|i: int| 0 <= i < n ==> !dom.is_within(k, #[trigger] roots[i])) ==> agree_on(
                boxes,
                prior,
                k,
            )
        }),
    decreases n,
{
    if n > 0 {
        lemma_splices_agree(dom, prior, scoped, roots, full, (n - 1) as nat, k);
        let root = roots[n - 1];
        let before = spliced_all(dom, prior, scoped, roots, (n - 1) as nat);
        assert(has_subtree(dom, full, prior, scoped[n - 1].rects@, root));
        dom.walks_meet_exactly_the_subtree(k, root);
        dom.lemma_order_visits(root);
        assert(dom.order(root).contains(k) <==> dom.is_within(k, root));
        if !dom.is_within(k, root) {
            if exists|i: int| 0 <= i < n && dom.is_within(k, #[trigger] roots[i]) {
                let i = choose|i: int| 0 <= i < n && dom.is_within(k, #[trigger] roots[i]);
                assert(i < n - 1 && dom.is_within(k, roots[i]));
            }
        }
    }
}

/// Where layout is local, splicing gives the layout of the whole document. That
/// it is local is to say that the layout of the whole has each affected subtree
/// as the subtree is by itself, and everything else as it was. A splice takes no
/// box away, so the law leaves out a node that loses the box that it had.
pub proof fn splicing_gives_the_whole_layout(
    dom: &Dom,
    prior: Map<NodeId, Layout>,
    scoped: Seq<FragmentPlane>,
    roots: Seq<NodeId>,
    full: Map<NodeId, Layout>,
    k: NodeId,
)
    requires
        dom.wf(),
        roots.len() == scoped.len(),
        forall|i: int| 0 <= i < roots.len() ==> dom.has(#[trigger] roots[i]),
        forall|i: int|
            0 <= i < roots.len() ==> has_subtree(
                dom,
                full,
                prior,
                (#[trigger] scoped[i]).rects@,
                roots[i],
            ),
        (forall|i: int| 0 <= i < roots.len() ==> !dom.is_within(k, #[trigger] roots[i]))
            ==> agree_on(prior, full, k),
        prior.contains_key(k) ==> full.contains_key(k),
    ensures
        agree_on(spliced_all(dom, prior, scoped, roots, roots.len()), full, k),
{
    lemma_splices_agree(dom, prior, scoped, roots, full, roots.len(), k);
    if !(exists|i: int| 0 <= i < roots.len() && dom.is_within(k, #[trigger] roots[i])) {
        assert(forall|i: int| 0 <= i < roots.len() ==> !dom.is_within(k, #[trigger] roots[i]));
    }
}

// ---------------------------------------------------------------------------
// Looking things up
// ---------------------------------------------------------------------------
/// Whether a node has an `id` attribute of a value.
pub open spec fn has_id(dom: &Dom, node: NodeId, id: Seq<char>) -> bool {
    dom.plain_attr(node, "id"@) == Some(id)
}

/// The first of some nodes that has an `id`.
pub open spec fn first_with_id(dom: &Dom, nodes: Seq<NodeId>, id: Seq<char>) -> Option<NodeId>
    decreases nodes.len(),
{
    if nodes.len() == 0 {
        None
    } else if has_id(dom, nodes[0], id) {
        Some(nodes[0])
    } else {
        first_with_id(dom, nodes.skip(1), id)
    }
}

/// The first node in document order that has an `id`.
pub fn element_by_id(dom: &Dom, id: &str) -> (r: Option<NodeId>)
    requires
        dom.wf(),
    ensures
        r == first_with_id(dom, dom.order(dom.root()), id@),
        r matches Some(n) ==> dom.has(n),
{
    let order = dom.document_order(dom.document());
    proof {
        dom.lemma_order_visits(dom.root());
        assert(order@.skip(0) =~= order@);
    }
    let mut i: usize = 0;
    while i < order.len()
        invariant
            order@ == dom.order(dom.root()),
            forall|x: NodeId| #[trigger]
                dom.order(dom.root()).contains(x) ==> dom.is_within(x, dom.root()),
            i <= order@.len(),
            first_with_id(dom, order@, id@) == first_with_id(dom, order@.skip(i as int), id@),
        decreases order.len() - i,
    {
        let node = order[i];
        assert(order@.contains(order@[i as int]));
        assert(order@.skip(i as int)[0] == node);
        assert(order@.skip(i as int).skip(1) =~= order@.skip(i + 1));
        if let Some(value) = dom.plain_attribute(node, "id") {
            if str_eq(value, id) {
                return Some(node);
            }
        }
        i += 1;
    }
    None
}

/// An `id` is found where some node of the document has it, and the node that
/// is found has it.
pub proof fn an_id_is_found_where_it_is(dom: &Dom, id: Seq<char>, n: NodeId)
    requires
        dom.wf(),
        dom.is_within(n, dom.root()),
        has_id(dom, n, id),
    ensures
        first_with_id(dom, dom.order(dom.root()), id) matches Some(m) && has_id(dom, m, id)
            && dom.is_within(m, dom.root()),
{
    let order = dom.order(dom.root());
    dom.lemma_order_visits(dom.root());
    dom.walks_meet_exactly_the_subtree(n, dom.root());
    lemma_first_with_id(dom, order, id, order.index_of(n));
}

proof fn lemma_first_with_id(dom: &Dom, nodes: Seq<NodeId>, id: Seq<char>, k: int)
    requires
        0 <= k < nodes.len(),
        has_id(dom, nodes[k], id),
    ensures
        first_with_id(dom, nodes, id) matches Some(m) && has_id(dom, m, id) && nodes.contains(m),
    decreases nodes.len(),
{
    if has_id(dom, nodes[0], id) {
        assert(nodes.contains(nodes[0]));
    } else {
        assert(nodes.skip(1)[k - 1] == nodes[k]);
        lemma_first_with_id(dom, nodes.skip(1), id, k - 1);
        let m = first_with_id(dom, nodes.skip(1), id)->0;
        let j = nodes.skip(1).index_of(m);
        assert(nodes[j + 1] == m);
    }
}

/// The fragment that the nearest link into the document leads to, from a node
/// up.
pub open spec fn fragment_around(dom: &Dom, hit: Option<NodeId>) -> Option<Seq<char>> {
    match hit {
        Some(n) => match dom.nearest(n, |x: NodeId| link_harvest::fragment_of(dom, x) is Some) {
            Some(a) => link_harvest::fragment_of(dom, a),
            None => None,
        },
        None => None,
    }
}

/// The address of the nearest link from a node up.
pub open spec fn href_around(dom: &Dom, hit: Option<NodeId>) -> Option<Seq<char>> {
    match hit {
        Some(n) => match dom.nearest(n, |x: NodeId| link_harvest::href_of(dom, x) is Some) {
            Some(a) => link_harvest::href_of(dom, a),
            None => None,
        },
        None => None,
    }
}

/// The fragment of the nearest link into the document, from a node up.
pub fn link_fragment_from(dom: &Dom, hit: Option<NodeId>) -> (r: Option<String>)
    requires
        dom.wf(),
        hit matches Some(n) ==> dom.has(n),
    ensures
        text::text_of(r) == fragment_around(dom, hit),
{
    let ghost p = |x: NodeId| link_harvest::fragment_of(dom, x) is Some;
    let mut cur: Option<NodeId> = hit;
    while cur.is_some()
        invariant
            dom.wf(),
            p == (|x: NodeId| link_harvest::fragment_of(dom, x) is Some),
            hit matches Some(n) ==> dom.has(n),
            cur matches Some(n) ==> dom.has(n),
            hit is None ==> cur is None,
            hit matches Some(n) ==> dom.nearest(n, p) == (match cur {
                Some(c) => dom.nearest(c, p),
                None => None,
            }),
        decreases
                match cur {
                    Some(n) => dom.depth_at(n) + 1,
                    None => 0,
                },
    {
        let n: NodeId = cur.unwrap();
        if let Some(f) = anchor_fragment(dom, n) {
            return Some(f);
        }
        cur = dom.parent(n);
    }
    None
}

/// The address of the nearest link from a node up.
pub fn link_href_from(dom: &Dom, hit: Option<NodeId>) -> (r: Option<String>)
    requires
        dom.wf(),
        hit matches Some(n) ==> dom.has(n),
    ensures
        text::text_of(r) == href_around(dom, hit),
{
    let ghost p = |x: NodeId| link_harvest::href_of(dom, x) is Some;
    let mut cur: Option<NodeId> = hit;
    while cur.is_some()
        invariant
            dom.wf(),
            p == (|x: NodeId| link_harvest::href_of(dom, x) is Some),
            hit matches Some(n) ==> dom.has(n),
            cur matches Some(n) ==> dom.has(n),
            hit is None ==> cur is None,
            hit matches Some(n) ==> dom.nearest(n, p) == (match cur {
                Some(c) => dom.nearest(c, p),
                None => None,
            }),
        decreases
                match cur {
                    Some(n) => dom.depth_at(n) + 1,
                    None => 0,
                },
    {
        let n: NodeId = cur.unwrap();
        if let Some(href) = anchor_href(dom, n) {
            return Some(href);
        }
        cur = dom.parent(n);
    }
    None
}

// ---------------------------------------------------------------------------
// The session
// ---------------------------------------------------------------------------
/// A session over one document.
pub struct IncrementalLayout {
    pub styles: StylePlane,
    /// The style sheets, which stay the same for the whole session.
    pub sheets: Vec<String>,
    pub fragments: FragmentPlane,
    /// The boxes of the last layout of the whole document.
    pub built: BoxTree,
    /// The images that the document holds itself, as of that layout.
    pub images: ImagePlane,
    /// Whether the boxes still match the fragments.
    pub paint_side_valid: bool,
    pub viewport: Viewport,
    /// How far nested containers are scrolled.
    pub element_scroll: NodeMap<(i64, i64)>,
    /// The damage of the last batch that changed attributes only.
    pub last_damage: u32,
}

/// Whether some boxes and fragments are those of a whole document.
pub open spec fn laid_out_whole<C: Fn(&StylePlane, &BoxTree) -> Vec<Layout>>(
    dom: &Dom,
    styles: &StylePlane,
    compute: &C,
    fragments: FragmentPlane,
    built: BoxTree,
) -> bool {
    laid_out_at(dom, dom.root(), styles, compute, fragments, built)
}

/// Lays out a whole document.
pub fn full_layout<C: Fn(&StylePlane, &BoxTree) -> Vec<Layout>>(
    dom: &Dom,
    styles: &StylePlane,
    compute: &C,
) -> (r: (FragmentPlane, BoxTree))
    requires
        dom.wf(),
        forall|t: &BoxTree| #[trigger] call_requires(*compute, (styles, t)),
        box_tree::lays_out_every_box(compute, styles),
    ensures
        laid_out_whole(dom, styles, compute, r.0, r.1),
{
    scoped_layout(dom, styles, dom.document(), compute)
}

/// Whether the layout of a whole document, each time it is made, is `full`.
pub open spec fn is_whole_layout<C: Fn(&StylePlane, &BoxTree) -> Vec<Layout>>(
    dom: &Dom,
    styles: &StylePlane,
    compute: &C,
    full: Map<NodeId, Layout>,
) -> bool {
    forall|fragments: FragmentPlane, built: BoxTree| #[trigger]
        laid_out_whole(dom, styles, compute, fragments, built) ==> fragments.rects@ == full
}

/// Whether the layout of a whole document has each of some subtrees that fits as
/// it is by itself, and has the node `k` as before where it is in none of them.
/// The node does not lose the box that it had.
pub open spec fn layout_is_local<C: Fn(&StylePlane, &BoxTree) -> Vec<Layout>>(
    dom: &Dom,
    styles: &StylePlane,
    compute: &C,
    prior: Map<NodeId, Layout>,
    roots: Seq<NodeId>,
    full: Map<NodeId, Layout>,
    k: NodeId,
) -> bool {
    &&& forall|i: int, scoped: FragmentPlane|
        0 <= i < roots.len() && laid_out_alone(dom, roots[i], styles, compute, scoped)
            && #[trigger] can_splice(dom, styles, prior, scoped.rects@, roots[i]) ==> has_subtree(
            dom,
            full,
            prior,
            scoped.rects@,
            roots[i],
        )
    &&& (forall|i: int| 0 <= i < roots.len() ==> !dom.is_within(k, #[trigger] roots[i]))
        ==> agree_on(prior, full, k)
    &&& prior.contains_key(k) ==> full.contains_key(k)
}

/// Whether a subtree had no box before, or its box has another size each time
/// that it is laid out now.
pub open spec fn changes_size<C: Fn(&StylePlane, &BoxTree) -> Vec<Layout>>(
    dom: &Dom,
    styles: &StylePlane,
    compute: &C,
    prior: Map<NodeId, Layout>,
    root: NodeId,
) -> bool {
    ||| !prior.contains_key(root)
    ||| forall|scoped: FragmentPlane| #[trigger]
        laid_out_alone(dom, root, styles, compute, scoped) && scoped.rects@.contains_key(root) ==> (
        scoped.rects@[root].width != prior[root].width || scoped.rects@[root].height
            != prior[root].height)
}

/// Whether every mutation changes an attribute.
pub open spec fn attribute_only(mutations: Seq<DomMutation<NodeId>>) -> bool {
    forall|i: int| 0 <= i < mutations.len() ==> #[trigger] mutations[i] is AttributeChanged
}

/// What the first `n` of some mutations invalidate.
pub open spec fn invalidated(mutations: Seq<DomMutation<NodeId>>, n: nat) -> Seq<
    Invalidation<NodeId>,
>
    decreases n,
{
    if n == 0 {
        Seq::empty()
    } else {
        invalidated(mutations, (n - 1) as nat) + invalidate::classified(mutations[n - 1])
    }
}

/// The parent of a node that is there.
pub open spec fn parent_link(dom: &Dom) -> spec_fn(NodeId) -> Option<NodeId> {
    |id: NodeId|
        if dom.has(id) {
            dom.parent_at(id)
        } else {
            None
        }
}

/// The nearest element from a node up; the node itself where there is none.
pub open spec fn element_around(dom: &Dom, node: NodeId) -> NodeId {
    match dom.nearest(node, |n: NodeId| dom.kind_at(n) == NodeKind::Element) {
        Some(e) => e,
        None => node,
    }
}

/// Some invalidations, each lifted to the nearest element: a text node has no
/// box of its own, and is laid out with the element around it.
pub open spec fn lifted(dom: &Dom, all: Seq<Invalidation<NodeId>>) -> Seq<Invalidation<NodeId>> {
    all.map(
        |i: int, inv: Invalidation<NodeId>|
            invalidate::rooted_at(inv, element_around(dom, invalidate::node_of(inv))),
    )
}

/// The roots of the subtrees that some mutations affect.
pub open spec fn affected_roots(dom: &Dom, mutations: Seq<DomMutation<NodeId>>) -> Seq<NodeId> {
    let all = lifted(dom, invalidated(mutations, mutations.len()));
    invalidate::coalesced(parent_link(dom), all, all.len()).map(
        |i: int, inv: Invalidation<NodeId>| invalidate::node_of(inv),
    )
}

/// Whether the nodes that some mutations invalidate are there.
pub open spec fn nodes_known(dom: &Dom, mutations: Seq<DomMutation<NodeId>>) -> bool {
    let all = invalidated(mutations, mutations.len());
    forall|i: int| 0 <= i < all.len() ==> dom.has(invalidate::node_of(#[trigger] all[i]))
}

proof fn lemma_nearest_is_there(dom: &Dom, id: NodeId, p: spec_fn(NodeId) -> bool)
    requires
        dom.wf(),
        dom.has(id),
    ensures
        dom.nearest(id, p) matches Some(n) ==> dom.has(n),
    decreases dom.depth_at(id),
{
    if !p(id) {
        if let Some(parent) = dom.parent_at(id) {
            lemma_nearest_is_there(dom, parent, p);
        }
    }
}

proof fn lemma_roots_are_there(dom: &Dom, mutations: Seq<DomMutation<NodeId>>)
    requires
        dom.wf(),
        nodes_known(dom, mutations),
    ensures
        forall|i: int|
            0 <= i < affected_roots(dom, mutations).len() ==> dom.has(
                #[trigger] affected_roots(dom, mutations)[i],
            ),
{
    let bare = invalidated(mutations, mutations.len());
    let all = lifted(dom, bare);
    let kept = invalidate::coalesced(parent_link(dom), all, all.len());
    invalidate::coalesced_is_a_minimal_part(parent_link(dom), all, all.len());
    assert forall|i: int| 0 <= i < affected_roots(dom, mutations).len() implies dom.has(
        #[trigger] affected_roots(dom, mutations)[i],
    ) by {
        assert(all.contains(kept[i]));
        let j = all.index_of(kept[i]);
        let node = invalidate::node_of(bare[j]);
        assert(dom.has(node));
        lemma_nearest_is_there(dom, node, |n: NodeId| dom.kind_at(n) == NodeKind::Element);
    }
}

fn nearest_element(dom: &Dom, node: NodeId) -> (r: NodeId)
    requires
        dom.wf(),
        dom.has(node),
    ensures
        r == element_around(dom, node),
        dom.has(r),
{
    let ghost p = |n: NodeId| dom.kind_at(n) == NodeKind::Element;
    let mut cur: Option<NodeId> = Some(node);
    while cur.is_some()
        invariant
            dom.wf(),
            dom.has(node),
            p == (|n: NodeId| dom.kind_at(n) == NodeKind::Element),
            cur matches Some(n) ==> dom.has(n),
            dom.nearest(node, p) == (match cur {
                Some(c) => dom.nearest(c, p),
                None => None,
            }),
        decreases
                match cur {
                    Some(n) => dom.depth_at(n) + 1,
                    None => 0,
                },
    {
        let n: NodeId = cur.unwrap();
        if dom.kind(n) == NodeKind::Element {
            return n;
        }
        cur = dom.parent(n);
    }
    node
}

/// Lifts each of some invalidations to the nearest element.
fn lift_to_elements(dom: &Dom, all: &Vec<Invalidation<NodeId>>) -> (r: Vec<Invalidation<NodeId>>)
    requires
        dom.wf(),
        forall|i: int| 0 <= i < all@.len() ==> dom.has(invalidate::node_of(#[trigger] all@[i])),
    ensures
        r@ == lifted(dom, all@),
        forall|i: int| 0 <= i < r@.len() ==> dom.has(invalidate::node_of(#[trigger] r@[i])),
{
    let mut out: Vec<Invalidation<NodeId>> = Vec::new();
    let mut i: usize = 0;
    while i < all.len()
        invariant
            dom.wf(),
            forall|j: int| 0 <= j < all@.len() ==> dom.has(invalidate::node_of(#[trigger] all@[j])),
            i <= all@.len(),
            out@.len() == i,
            forall|j: int|
                0 <= j < i ==> #[trigger] out@[j] == lifted(dom, all@)[j] && dom.has(
                    invalidate::node_of(out@[j]),
                ),
        decreases all.len() - i,
    {
        let inv = all[i];
        assert(dom.has(invalidate::node_of(all@[i as int])));
        out.push(inv.lifted_to(nearest_element(dom, inv.node())));
        i += 1;
    }
    assert(out@ =~= lifted(dom, all@));
    out
}

/// The roots of the subtrees that some mutations affect.
pub fn plan_roots(dom: &Dom, mutations: &[DomMutation<NodeId>]) -> (r: Vec<NodeId>)
    requires
        dom.wf(),
        nodes_known(dom, mutations@),
    ensures
        r@ == affected_roots(dom, mutations@),
        forall|i: int| 0 <= i < r@.len() ==> dom.has(#[trigger] r@[i]),
{
    proof {
        reveal(obeys_concrete_eq);
    }
    let mut all: Vec<Invalidation<NodeId>> = Vec::new();
    let mut n: usize = 0;
    while n < mutations.len()
        invariant
            obeys_concrete_eq::<NodeId>(),
            n <= mutations@.len(),
            all@ == invalidated(mutations@, n as nat),
        decreases mutations.len() - n,
    {
        let mut more = classify(&mutations[n]);
        all.append(&mut more);
        n += 1;
    }
    let all = lift_to_elements(dom, &all);
    let parent_of = |id: NodeId| -> (p: Option<NodeId>)
        ensures
            p == parent_link(dom)(id),
        {
            if id < dom.len() {
                dom.parent(id)
            } else {
                None
            }
        };
    proof {
        let rank = |id: NodeId| dom.depth_at(id) as nat;
        assert(invalidate::falls(parent_link(dom), rank));
        assert(invalidate::answers(parent_of, parent_link(dom)));
    }
    let kept = coalesce(all.as_slice(), parent_of);
    proof {
        invalidate::coalesced_is_a_minimal_part(parent_link(dom), all@, all@.len());
    }
    let mut roots: Vec<NodeId> = Vec::new();
    let mut i: usize = 0;
    while i < kept.len()
        invariant
            forall|j: int| 0 <= j < all@.len() ==> dom.has(invalidate::node_of(#[trigger] all@[j])),
            kept@ == invalidate::coalesced(parent_link(dom), all@, all@.len()),
            forall|j: int| 0 <= j < kept@.len() ==> all@.contains(#[trigger] kept@[j]),
            i <= kept@.len(),
            roots@.len() == i,
            forall|j: int|
                0 <= j < i ==> #[trigger] roots@[j] == invalidate::node_of(kept@[j]) && dom.has(
                    roots@[j],
                ),
        decreases kept.len() - i,
    {
        assert(all@.contains(kept@[i as int]));
        let ghost j = all@.index_of(kept@[i as int]);
        assert(dom.has(invalidate::node_of(all@[j])));
        roots.push(kept[i].node());
        i += 1;
    }
    assert(roots@ =~= affected_roots(dom, mutations@));
    roots
}

/// Where a change of the document takes place.
pub open spec fn places_of(m: DomMutation<NodeId>) -> Seq<NodeId> {
    match m {
        DomMutation::AttributeChanged { node, .. } => seq![node],
        DomMutation::Inserted { parent, .. } => seq![parent],
        DomMutation::Removed { former_parent, .. } => seq![former_parent],
        DomMutation::SubtreeReplaced { node } => seq![node],
        DomMutation::CharacterDataChanged { node } => seq![node],
        DomMutation::Moved { from_parent, to_parent, .. } => seq![from_parent, to_parent],
    }
}

proof fn lemma_invalidated_has(mutations: Seq<DomMutation<NodeId>>, n: nat, i: int, j: int) -> (at:
    int)
    requires
        0 <= i < n <= mutations.len(),
        0 <= j < invalidate::classified(mutations[i]).len(),
    ensures
        0 <= at < invalidated(mutations, n).len(),
        invalidated(mutations, n)[at] == invalidate::classified(mutations[i])[j],
    decreases n,
{
    let before = invalidated(mutations, (n - 1) as nat);
    if i == n - 1 {
        before.len() + j
    } else {
        let at = lemma_invalidated_has(mutations, (n - 1) as nat, i, j);
        assert(invalidated(mutations, n)[at] == before[at]);
        at
    }
}

proof fn lemma_up_is_rise(dom: &Dom, id: NodeId, k: nat)
    requires
        dom.wf(),
        dom.has(id),
    ensures
        invalidate::up(parent_link(dom), id, k) == dom.rise(id, k),
        dom.rise(id, k) matches Some(a) ==> dom.has(a),
    decreases k,
{
    if k > 0 {
        lemma_up_is_rise(dom, id, (k - 1) as nat);
    }
}

proof fn lemma_within_its_element(dom: &Dom, node: NodeId)
    requires
        dom.wf(),
        dom.has(node),
    ensures
        dom.has(element_around(dom, node)),
        dom.is_within(node, element_around(dom, node)),
{
    let p = |n: NodeId| dom.kind_at(n) == NodeKind::Element;
    dom.the_nearest_is_the_first_above(node, p);
    assert(dom.rise(node, 0) == Some(node));
    if let Some(e) = dom.nearest(node, p) {
        let k = choose|k: nat| #[trigger] dom.is_first_above(node, p, e, k);
        dom.lemma_rise_is_within(node, k);
    }
}

/// Nothing that changed is passed over: every place where a change takes place is
/// within a subtree that is affected. A node that moved changes both the place it
/// left and the place it came to.
pub proof fn every_change_is_within_an_affected_subtree(
    dom: &Dom,
    mutations: Seq<DomMutation<NodeId>>,
    i: int,
    p: int,
)
    requires
        dom.wf(),
        nodes_known(dom, mutations),
        0 <= i < mutations.len(),
        0 <= p < places_of(mutations[i]).len(),
    ensures
        exists|j: int|
            0 <= j < affected_roots(dom, mutations).len() && dom.is_within(
                places_of(mutations[i])[p],
                #[trigger] affected_roots(dom, mutations)[j],
            ),
{
    let place = places_of(mutations[i])[p];
    let parts = invalidate::classified(mutations[i]);
    let q = match mutations[i] {
        DomMutation::Moved { from_parent, to_parent, .. } => if from_parent != to_parent && p == 0 {
            1int
        } else {
            0int
        },
        _ => 0int,
    };
    assert(invalidate::node_of(parts[q]) == place);
    let bare = invalidated(mutations, mutations.len());
    let at = lemma_invalidated_has(mutations, mutations.len(), i, q);
    assert(dom.has(invalidate::node_of(bare[at])));
    let all = lifted(dom, bare);
    let link = parent_link(dom);
    let rank = |id: NodeId| dom.depth_at(id) as nat;
    assert(invalidate::falls(link, rank));
    invalidate::coalesced_loses_no_work(link, all, at);
    let end = invalidate::coalesced(link, all, all.len());
    let j = choose|j: int|
        0 <= j < end.len() && {
            let kept = #[trigger] end[j];
            &&& invalidate::strength_of(kept) >= invalidate::strength_of(all[at])
            &&& invalidate::node_of(kept) == invalidate::node_of(all[at]) || invalidate::subsumes(
                link,
                kept,
                all[at],
            )
        };
    let around = element_around(dom, place);
    assert(invalidate::node_of(all[at]) == around);
    lemma_within_its_element(dom, place);
    let root = affected_roots(dom, mutations)[j];
    assert(root == invalidate::node_of(end[j]));
    assert(dom.rise(around, 0) == Some(around));
    if root != around {
        let k = choose|k: nat| k > 0 && #[trigger] invalidate::up(link, around, k) == Some(root);
        lemma_up_is_rise(dom, around, k);
        dom.lemma_rise_is_within(around, k);
    }
    dom.within_is_transitive(place, around, root);
}

impl IncrementalLayout {
    /// Whether a session keeps what no batch touches.
    pub open spec fn keeps_session(&self, after: &IncrementalLayout) -> bool {
        &&& after.sheets == self.sheets
        &&& after.element_scroll == self.element_scroll
    }

    /// How far the document scrolls on both axes.
    pub open spec fn range_in(&self, dom: &Dom) -> (i64, i64) {
        let range = scroll::document_range(
            dom,
            &self.styles,
            &self.fragments,
            self.viewport.width as int,
            self.viewport.height as int,
        );
        (range.0 as i64, range.1 as i64)
    }

    /// Whether `after` has the window of its styles and its layout, of the size of
    /// this session's and scrolled to where that was, as far as that goes.
    pub open spec fn takes_window(&self, dom: &Dom, after: &IncrementalLayout) -> bool {
        scroll::document_viewport(
            dom,
            &after.styles,
            self.viewport.width,
            self.viewport.height,
        ).scrolled_to(
            (self.viewport.scroll.0 as int, self.viewport.scroll.1 as int),
            after.range_in(dom),
            after.viewport,
        )
    }

    /// Whether the session has the layout of the whole document: the boxes of its
    /// styles, laid out, and the images that the document holds itself.
    pub open spec fn is_laid_out<C: Fn(&StylePlane, &BoxTree) -> Vec<Layout>>(
        &self,
        dom: &Dom,
        compute: &C,
    ) -> bool {
        &&& laid_out_whole(dom, &self.styles, compute, self.fragments, self.built)
        &&& image_decode::shows_urls(
            self.images@,
            image_decode::subtree(dom, dom.root()),
            |id: NodeId| image_decode::img_src(dom, id),
            &NoImageLoader,
        )
        &&& self.paint_side_valid
    }

    /// Whether `after` is what a batch of attribute changes makes of the session:
    /// restyled, and laid out again where the damage asks for it.
    pub open spec fn attributes_applied<
        F: Fn(StylePlane, NodeId, &Vec<(NodeId, u64)>) -> StylePlane,
        M: Fn(&StylePlane, NodeId) -> Option<ComputedStyle>,
        C: Fn(&StylePlane, &BoxTree) -> Vec<Layout>,
    >(
        &self,
        dom: &Dom,
        mutations: Seq<DomMutation<NodeId>>,
        recalc: &F,
        marker: &M,
        compute: &C,
        outcome: RestyleOutcome,
        after: &IncrementalLayout,
        r: Applied,
    ) -> bool {
        &&& cascade::restyled_alone(
            dom,
            self.styles,
            cascade::attribute_nodes(mutations, mutations.len()),
            cascade::style_nodes(mutations, mutations.len()),
            cascade::RESTYLE_STYLE_ATTRIBUTE,
            cascade::attribute_nodes(mutations, mutations.len()),
            recalc,
            marker,
            after.styles,
        )
        &&& cascade::is_outcome(
            outcome,
            after.styles.entries@,
            cascade::damaged(after.styles.entries@).len() as int,
        )
        &&& after.last_damage == outcome.damage
        &&& if outcome.needs_relayout {
            &&& r == Applied::Restyled
            &&& after.is_laid_out(dom, compute)
            &&& self.takes_window(dom, after)
        } else {
            &&& r == Applied::RepaintOnly
            &&& after.fragments == self.fragments
            &&& after.built == self.built
            &&& after.images == self.images
            &&& after.paint_side_valid == self.paint_side_valid
            &&& after.viewport == self.viewport
        }
    }

    /// Whether `after` is what a change of structure makes of the session: the
    /// affected subtrees restyled, and either spliced in or everything laid out
    /// again.
    pub open spec fn structure_applied<
        F: Fn(StylePlane, NodeId, &Vec<(NodeId, u64)>) -> StylePlane,
        M: Fn(&StylePlane, NodeId) -> Option<ComputedStyle>,
        C: Fn(&StylePlane, &BoxTree) -> Vec<Layout>,
    >(
        &self,
        dom: &Dom,
        roots: Seq<NodeId>,
        recalc: &F,
        marker: &M,
        compute: &C,
        after: &IncrementalLayout,
        r: Applied,
    ) -> bool {
        &&& cascade::restyled_alone(
            dom,
            self.styles,
            Seq::empty(),
            roots,
            cascade::RESTYLE_SUBTREE,
            roots,
            recalc,
            marker,
            after.styles,
        )
        &&& after.last_damage == self.last_damage
        &&& self.takes_window(dom, after)
        &&& match r {
            Applied::Spliced => {
                &&& all_spliced(
                    dom,
                    after.styles,
                    self.fragments.rects@,
                    roots,
                    compute,
                    after.fragments.rects@,
                )
                &&& after.fragments.hoisted_origins == self.fragments.hoisted_origins
                &&& after.built == self.built
                &&& after.images == self.images
                &&& !after.paint_side_valid
            },
            Applied::FullRecompute => {
                &&& splice_fails(dom, after.styles, self.fragments.rects@, roots, compute)
                &&& after.is_laid_out(dom, compute)
            },
            _ => false,
        }
    }

    /// Where layout is local, a session holds the layout of the whole document
    /// after a change of structure, whether it spliced or laid out everything. That
    /// it is local is said of a splice as `splicing_gives_the_whole_layout` says it,
    /// and so is which nodes the law leaves out. Everything is laid out where an
    /// affected subtree had no box before, or its box gets another size.
    pub proof fn a_change_of_structure_gives_the_whole_layout<
        F: Fn(StylePlane, NodeId, &Vec<(NodeId, u64)>) -> StylePlane,
        M: Fn(&StylePlane, NodeId) -> Option<ComputedStyle>,
        C: Fn(&StylePlane, &BoxTree) -> Vec<Layout>,
    >(
        &self,
        dom: &Dom,
        roots: Seq<NodeId>,
        recalc: &F,
        marker: &M,
        compute: &C,
        after: &IncrementalLayout,
        r: Applied,
        full: Map<NodeId, Layout>,
        k: NodeId,
    )
        requires
            dom.wf(),
            forall|i: int| 0 <= i < roots.len() ==> dom.has(#[trigger] roots[i]),
            self.structure_applied(dom, roots, recalc, marker, compute, after, r),
            is_whole_layout(dom, &after.styles, compute, full),
            r == Applied::Spliced ==> layout_is_local(
                dom,
                &after.styles,
                compute,
                self.fragments.rects@,
                roots,
                full,
                k,
            ),
        ensures
            r == Applied::Spliced || r == Applied::FullRecompute,
            agree_on(after.fragments.rects@, full, k),
            forall|i: int|
                0 <= i < roots.len() && #[trigger] changes_size(
                    dom,
                    &after.styles,
                    compute,
                    self.fragments.rects@,
                    roots[i],
                ) ==> r == Applied::FullRecompute,
    {
        let prior = self.fragments.rects@;
        if r == Applied::Spliced {
            let scoped = choose|scoped: Seq<FragmentPlane>|
                {
                    &&& #[trigger] laid_out(dom, compute, after.styles, roots, scoped)
                    &&& forall|i: int|
                        0 <= i < roots.len() ==> can_splice(
                            dom,
                            &after.styles,
                            prior,
                            (#[trigger] scoped[i]).rects@,
                            roots[i],
                        )
                    &&& after.fragments.rects@ == spliced_all(
                        dom,
                        prior,
                        scoped,
                        roots,
                        roots.len(),
                    )
                };
            assert forall|i: int| 0 <= i < roots.len() implies has_subtree(
                dom,
                full,
                prior,
                (#[trigger] scoped[i]).rects@,
                roots[i],
            ) by {
                assert(laid_out_alone(dom, roots[i], &after.styles, compute, scoped[i]));
                assert(can_splice(dom, &after.styles, prior, scoped[i].rects@, roots[i]));
            }
            splicing_gives_the_whole_layout(dom, prior, scoped, roots, full, k);
            assert forall|i: int| 0 <= i < roots.len() implies !#[trigger] changes_size(
                dom,
                &after.styles,
                compute,
                prior,
                roots[i],
            ) by {
                assert(laid_out_alone(dom, roots[i], &after.styles, compute, scoped[i]));
                assert(can_splice(dom, &after.styles, prior, scoped[i].rects@, roots[i]));
            }
        }
    }

    /// A session that takes a change of structure over has the boxes that a session
    /// started on the changed document has, whether it spliced or laid out
    /// everything. That restyling leaves styles which are laid out as those of a
    /// fresh cascade, and that layout is local, rests with the engines; which nodes
    /// the law leaves out, `layout_is_local` says. Everything is laid out where an
    /// affected subtree had no box before, or its box gets another size.
    pub proof fn a_structural_batch_gives_the_layout_of_a_fresh_session<
        F: Fn(StylePlane, NodeId, &Vec<(NodeId, u64)>) -> StylePlane,
        M: Fn(&StylePlane, NodeId) -> Option<ComputedStyle>,
        C: Fn(&StylePlane, &BoxTree) -> Vec<Layout>,
    >(
        &self,
        dom: &Dom,
        mutations: Seq<DomMutation<NodeId>>,
        recalc: &F,
        marker: &M,
        compute: &C,
        after: &IncrementalLayout,
        r: Applied,
        fresh: &IncrementalLayout,
        k: NodeId,
    )
        requires
            dom.wf(),
            nodes_known(dom, mutations),
            self.structure_applied(
                dom,
                affected_roots(dom, mutations),
                recalc,
                marker,
                compute,
                after,
                r,
            ),
            fresh.is_laid_out(dom, compute),
            forall|full: Map<NodeId, Layout>| #[trigger]
                is_whole_layout(dom, &fresh.styles, compute, full) ==> is_whole_layout(
                    dom,
                    &after.styles,
                    compute,
                    full,
                ),
            is_whole_layout(dom, &fresh.styles, compute, fresh.fragments.rects@),
            r == Applied::Spliced ==> layout_is_local(
                dom,
                &after.styles,
                compute,
                self.fragments.rects@,
                affected_roots(dom, mutations),
                fresh.fragments.rects@,
                k,
            ),
        ensures
            r == Applied::Spliced || r == Applied::FullRecompute,
            agree_on(after.fragments.rects@, fresh.fragments.rects@, k),
            forall|i: int|
                0 <= i < affected_roots(dom, mutations).len() && #[trigger] changes_size(
                    dom,
                    &after.styles,
                    compute,
                    self.fragments.rects@,
                    affected_roots(dom, mutations)[i],
                ) ==> r == Applied::FullRecompute,
    {
        lemma_roots_are_there(dom, mutations);
        self.a_change_of_structure_gives_the_whole_layout(
            dom,
            affected_roots(dom, mutations),
            recalc,
            marker,
            compute,
            after,
            r,
            fresh.fragments.rects@,
            k,
        );
    }

    /// Whether `after`, and the answer `r`, are what a batch of changes makes of the
    /// session.
    pub open spec fn takes_batch<
        F: Fn(StylePlane, NodeId, &Vec<(NodeId, u64)>) -> StylePlane,
        M: Fn(&StylePlane, NodeId) -> Option<ComputedStyle>,
        C: Fn(&StylePlane, &BoxTree) -> Vec<Layout>,
    >(
        &self,
        dom: &Dom,
        mutations: Seq<DomMutation<NodeId>>,
        recalc: &F,
        marker: &M,
        compute: &C,
        after: &IncrementalLayout,
        r: Applied,
    ) -> bool {
        &&& self.keeps_session(after)
        &&& r == Applied::Unchanged <==> mutations.len() == 0
        &&& mutations.len() == 0 ==> *after == *self
        &&& mutations.len() > 0 && attribute_only(mutations) ==> exists|outcome: RestyleOutcome|
            #[trigger] self.attributes_applied(
                dom,
                mutations,
                recalc,
                marker,
                compute,
                outcome,
                after,
                r,
            )
        &&& !attribute_only(mutations) ==> self.structure_applied(
            dom,
            affected_roots(dom, mutations),
            recalc,
            marker,
            compute,
            after,
            r,
        )
    }

    /// A batch in which anything is inserted, removed, moved, rebuilt or given other
    /// text is never taken for a restyle or a repaint: it is spliced in, or the whole
    /// document is laid out again. The session then has the boxes that one started on
    /// the changed document has, as
    /// `a_structural_batch_gives_the_layout_of_a_fresh_session` says.
    pub proof fn a_batch_that_changes_the_tree_is_laid_out<
        F: Fn(StylePlane, NodeId, &Vec<(NodeId, u64)>) -> StylePlane,
        M: Fn(&StylePlane, NodeId) -> Option<ComputedStyle>,
        C: Fn(&StylePlane, &BoxTree) -> Vec<Layout>,
    >(
        &self,
        dom: &Dom,
        mutations: Seq<DomMutation<NodeId>>,
        recalc: &F,
        marker: &M,
        compute: &C,
        after: &IncrementalLayout,
        r: Applied,
        fresh: &IncrementalLayout,
        i: int,
        k: NodeId,
    )
        requires
            dom.wf(),
            nodes_known(dom, mutations),
            self.takes_batch(dom, mutations, recalc, marker, compute, after, r),
            0 <= i < mutations.len(),
            mutations[i] is Inserted || mutations[i] is Removed || mutations[i] is Moved
                || mutations[i] is SubtreeReplaced || mutations[i] is CharacterDataChanged,
            fresh.is_laid_out(dom, compute),
            forall|full: Map<NodeId, Layout>| #[trigger]
                is_whole_layout(dom, &fresh.styles, compute, full) ==> is_whole_layout(
                    dom,
                    &after.styles,
                    compute,
                    full,
                ),
            is_whole_layout(dom, &fresh.styles, compute, fresh.fragments.rects@),
            r == Applied::Spliced ==> layout_is_local(
                dom,
                &after.styles,
                compute,
                self.fragments.rects@,
                affected_roots(dom, mutations),
                fresh.fragments.rects@,
                k,
            ),
        ensures
            r == Applied::Spliced || r == Applied::FullRecompute,
            agree_on(after.fragments.rects@, fresh.fragments.rects@, k),
    {
        assert(!(mutations[i] is AttributeChanged));
        self.a_structural_batch_gives_the_layout_of_a_fresh_session(
            dom,
            mutations,
            recalc,
            marker,
            compute,
            after,
            r,
            fresh,
            k,
        );
    }

    /// A batch in which attributes change and nothing else is restyled. It is laid out
    /// as a whole where the restyle damaged something that layout depends on, and
    /// else repainted with the boxes, the images and the window as they were.
    pub proof fn a_batch_of_attributes_is_restyled<
        F: Fn(StylePlane, NodeId, &Vec<(NodeId, u64)>) -> StylePlane,
        M: Fn(&StylePlane, NodeId) -> Option<ComputedStyle>,
        C: Fn(&StylePlane, &BoxTree) -> Vec<Layout>,
    >(
        &self,
        dom: &Dom,
        mutations: Seq<DomMutation<NodeId>>,
        recalc: &F,
        marker: &M,
        compute: &C,
        after: &IncrementalLayout,
        r: Applied,
    )
        requires
            self.takes_batch(dom, mutations, recalc, marker, compute, after, r),
            mutations.len() > 0,
            forall|i: int| 0 <= i < mutations.len() ==> #[trigger] mutations[i] is AttributeChanged,
        ensures
            r == Applied::Restyled || r == Applied::RepaintOnly,
            r == Applied::Restyled ==> after.is_laid_out(dom, compute),
            r == Applied::RepaintOnly ==> {
                &&& after.fragments == self.fragments
                &&& after.built == self.built
                &&& after.images == self.images
                &&& after.viewport == self.viewport
            },
    {
        let outcome = choose|outcome: RestyleOutcome| #[trigger]
            self.attributes_applied(
                dom,
                mutations,
                recalc,
                marker,
                compute,
                outcome,
                after,
                r,
            );
    }

    /// Starts a session in a window of a size: a cascade over the whole document,
    /// and its layout.
    pub fn new<
        F: Fn(StylePlane, NodeId, &Vec<(NodeId, u64)>) -> StylePlane,
        M: Fn(&StylePlane, NodeId) -> Option<ComputedStyle>,
        C: Fn(&StylePlane, &BoxTree) -> Vec<Layout>,
    >(
        dom: &Dom,
        sheets: Vec<String>,
        width: i32,
        height: i32,
        recalc: &F,
        marker: &M,
        compute: &C,
    ) -> (r: IncrementalLayout)
        requires
            dom.wf(),
            forall|p: StylePlane, n: NodeId, c: &Vec<(NodeId, u64)>| #[trigger]
                call_requires(*recalc, (p, n, c)),
            forall|p: &StylePlane, n: NodeId| #[trigger] call_requires(*marker, (p, n)),
            forall|p: &StylePlane, t: &BoxTree| #[trigger] call_requires(*compute, (p, t)),
            forall|p: &StylePlane| #[trigger] box_tree::lays_out_every_box(compute, p),
        ensures
            exists|start: StylePlane|
                {
                    &&& start.entries@ == Map::<NodeId, StyleEntry>::empty()
                    &&& #[trigger] cascade::cascaded_alone(dom, start, recalc, marker, r.styles)
                },
            r.is_laid_out(dom, compute),
            r.sheets == sheets,
            r.viewport == scroll::document_viewport(dom, &r.styles, width, height),
            r.element_scroll@ == Map::<NodeId, (i64, i64)>::empty(),
            r.last_damage == 0,
    {
        let start = StylePlane::new();
        let ghost blank = start;
        let styles = run_cascade_with_stylist(dom, start, recalc, marker);
        let (fragments, built) = full_layout(dom, &styles, compute);
        let viewport = Viewport::for_document(dom, &styles, width, height);
        let session = IncrementalLayout {
            styles,
            sheets,
            fragments,
            built,
            images: ImagePlane::decode_from_dom(dom),
            paint_side_valid: true,
            viewport,
            element_scroll: NodeMap::new(),
            last_damage: 0,
        };
        assert(cascade::cascaded_alone(dom, blank, recalc, marker, session.styles));
        session
    }

    /// Whether some style sheets are those of the session.
    pub fn has_sheets(&self, stylesheets: &[&str]) -> (r: bool)
        ensures
            r == (stylesheets@.len() == self.sheets@.len() && forall|i: int|
                0 <= i < stylesheets@.len() ==> #[trigger] stylesheets@[i]@ == self.sheets@[i]@),
    {
        if stylesheets.len() != self.sheets.len() {
            return false;
        }
        let mut i: usize = 0;
        while i < stylesheets.len()
            invariant
                stylesheets@.len() == self.sheets@.len(),
                i <= stylesheets@.len(),
                forall|j: int| 0 <= j < i ==> #[trigger] stylesheets@[j]@ == self.sheets@[j]@,
            decreases stylesheets.len() - i,
        {
            if !str_eq(stylesheets[i], self.sheets[i].as_str()) {
                assert(stylesheets@[i as int]@ != self.sheets@[i as int]@);
                return false;
            }
            i += 1;
        }
        true
    }

    /// Applies a batch of mutations. `compute` lays out the boxes of a tree.
    pub fn apply<
        F: Fn(StylePlane, NodeId, &Vec<(NodeId, u64)>) -> StylePlane,
        M: Fn(&StylePlane, NodeId) -> Option<ComputedStyle>,
        C: Fn(&StylePlane, &BoxTree) -> Vec<Layout>,
    >(
        &mut self,
        dom: &Dom,
        mutations: &[DomMutation<NodeId>],
        recalc: &F,
        marker: &M,
        compute: &C,
    ) -> (r: Applied)
        requires
            dom.wf(),
            nodes_known(dom, mutations@),
            cascade::attribute_nodes_known(dom, mutations@),
            cascade::total_elements(
                dom,
                affected_roots(dom, mutations@),
                affected_roots(dom, mutations@).len(),
            ) <= usize::MAX,
            forall|p: StylePlane, n: NodeId, c: &Vec<(NodeId, u64)>| #[trigger]
                call_requires(*recalc, (p, n, c)),
            forall|p: &StylePlane, n: NodeId| #[trigger] call_requires(*marker, (p, n)),
            forall|p: &StylePlane, t: &BoxTree| #[trigger] call_requires(*compute, (p, t)),
            forall|p: &StylePlane| #[trigger] box_tree::lays_out_every_box(compute, p),
        ensures
            old(self).takes_batch(dom, mutations@, recalc, marker, compute, final(self), r),
            old(self).keeps_session(final(self)),
            r == Applied::Unchanged <==> mutations@.len() == 0,
            mutations@.len() == 0 ==> *final(self) == *old(self),
            (r == Applied::Spliced || r == Applied::FullRecompute) <==> exists|i: int|
                0 <= i < mutations@.len() && (#[trigger] mutations@[i] is Inserted
                    || mutations@[i] is Removed || mutations@[i] is Moved
                    || mutations@[i] is SubtreeReplaced || mutations@[i] is CharacterDataChanged),
            mutations@.len() > 0 && attribute_only(mutations@) ==> exists|outcome: RestyleOutcome|
                #[trigger] old(self).attributes_applied(
                    dom,
                    mutations@,
                    recalc,
                    marker,
                    compute,
                    outcome,
                    final(self),
                    r,
                ),
            !attribute_only(mutations@) ==> old(self).structure_applied(
                dom,
                affected_roots(dom, mutations@),
                recalc,
                marker,
                compute,
                final(self),
                r,
            ),
    {
        if mutations.len() == 0 {
            return Applied::Unchanged;
        }
        let mut only = true;
        let mut i: usize = 0;
        while i < mutations.len()
            invariant
                i <= mutations@.len(),
                *self == *old(self),
                only <==> forall|j: int|
                    0 <= j < i ==> #[trigger] mutations@[j] is AttributeChanged,
            decreases mutations.len() - i,
        {
            match &mutations[i] {
                DomMutation::AttributeChanged { .. } => {},
                _ => {
                    assert(!(mutations@[i as int] is AttributeChanged));
                    only = false;
                },
            }
            i += 1;
        }
        if !only {
            return self.apply_structural(dom, mutations, recalc, marker, compute);
        }
        let ghost before = *self;
        let mut styles = StylePlane::new();
        std::mem::swap(&mut styles, &mut self.styles);
        let (styles, outcome) = restyle_with_snapshots(dom, styles, mutations, recalc, marker);
        self.styles = styles;
        self.last_damage = outcome.damage;
        let r = if outcome.needs_relayout {
            self.full_relayout(dom, compute);
            Applied::Restyled
        } else {
            Applied::RepaintOnly
        };
        assert(before.attributes_applied(
            dom,
            mutations@,
            recalc,
            marker,
            compute,
            outcome,
            self,
            r,
        ));
        r
    }

    fn apply_structural<
        F: Fn(StylePlane, NodeId, &Vec<(NodeId, u64)>) -> StylePlane,
        M: Fn(&StylePlane, NodeId) -> Option<ComputedStyle>,
        C: Fn(&StylePlane, &BoxTree) -> Vec<Layout>,
    >(
        &mut self,
        dom: &Dom,
        mutations: &[DomMutation<NodeId>],
        recalc: &F,
        marker: &M,
        compute: &C,
    ) -> (r: Applied)
        requires
            dom.wf(),
            nodes_known(dom, mutations@),
            cascade::total_elements(
                dom,
                affected_roots(dom, mutations@),
                affected_roots(dom, mutations@).len(),
            ) <= usize::MAX,
            forall|p: StylePlane, n: NodeId, c: &Vec<(NodeId, u64)>| #[trigger]
                call_requires(*recalc, (p, n, c)),
            forall|p: &StylePlane, n: NodeId| #[trigger] call_requires(*marker, (p, n)),
            forall|p: &StylePlane, t: &BoxTree| #[trigger] call_requires(*compute, (p, t)),
            forall|p: &StylePlane| #[trigger] box_tree::lays_out_every_box(compute, p),
        ensures
            old(self).keeps_session(final(self)),
            r != Applied::Unchanged,
            old(self).structure_applied(
                dom,
                affected_roots(dom, mutations@),
                recalc,
                marker,
                compute,
                final(self),
                r,
            ),
    {
        let roots = plan_roots(dom, mutations);
        let mut styles = StylePlane::new();
        std::mem::swap(&mut styles, &mut self.styles);
        let (styles, _) = restyle_structural(dom, styles, roots.as_slice(), recalc, marker);
        let boxes = splice_subtrees(dom, &styles, &self.fragments, &roots, compute);
        self.styles = styles;
        match boxes {
            Some(boxes) => {
                self.fragments.rects = boxes;
                self.paint_side_valid = false;
                self.recompute_viewport(dom);
                Applied::Spliced
            },
            None => {
                self.full_relayout(dom, compute);
                Applied::FullRecompute
            },
        }
    }

    fn full_relayout<C: Fn(&StylePlane, &BoxTree) -> Vec<Layout>>(&mut self, dom: &Dom, compute: &C)
        requires
            dom.wf(),
            forall|p: &StylePlane, t: &BoxTree| #[trigger] call_requires(*compute, (p, t)),
            forall|p: &StylePlane| #[trigger] box_tree::lays_out_every_box(compute, p),
        ensures
            final(self).is_laid_out(dom, compute),
            old(self).takes_window(dom, final(self)),
            old(self).keeps_session(final(self)),
            final(self).styles == old(self).styles,
            final(self).last_damage == old(self).last_damage,
    {
        let (fragments, built) = full_layout(dom, &self.styles, compute);
        self.fragments = fragments;
        self.built = built;
        self.images = ImagePlane::decode_from_dom(dom);
        self.paint_side_valid = true;
        self.recompute_viewport(dom);
    }

    /// Takes over the window of a new layout, on the axes that the root lets it
    /// scroll on. The document stays where it was scrolled to, as far as it still
    /// goes.
    pub fn recompute_viewport(&mut self, dom: &Dom)
        requires
            dom.wf(),
        ensures
            old(self).takes_window(dom, final(self)),
            old(self).keeps_but_viewport(final(self)),
    {
        let was = self.viewport.scroll;
        let range = self.scroll_range(dom);
        let (width, height) = (self.viewport.width, self.viewport.height);
        let mut next = Viewport::for_document(dom, &self.styles, width, height);
        next.set_viewport_scroll((was.0 as i128, was.1 as i128), range);
        self.viewport = next;
    }

    /// The laid out boxes.
    pub fn fragments(&self) -> (r: &FragmentPlane)
        ensures
            *r == self.fragments,
    {
        &self.fragments
    }

    /// The computed styles.
    pub fn styles(&self) -> (r: &StylePlane)
        ensures
            *r == self.styles,
    {
        &self.styles
    }

    /// The window.
    pub fn viewport(&self) -> (r: Viewport)
        ensures
            r == self.viewport,
    {
        self.viewport
    }

    /// How far the document is scrolled.
    pub fn viewport_scroll(&self) -> (r: (i64, i64))
        ensures
            r == self.viewport.scroll,
    {
        self.viewport.scroll
    }

    /// The damage of the last batch of attribute changes.
    pub fn last_damage(&self) -> (r: u32)
        ensures
            r == self.last_damage,
    {
        self.last_damage
    }

    /// How far the document scrolls on both axes: as far as its content reaches
    /// beyond the window.
    pub fn scroll_range(&self, dom: &Dom) -> (r: (i64, i64))
        requires
            dom.wf(),
        ensures
            (r.0 as int, r.1 as int) == scroll::document_range(
                dom,
                &self.styles,
                &self.fragments,
                self.viewport.width as int,
                self.viewport.height as int,
            ),
            r == self.range_in(dom),
            0 <= r.0,
            0 <= r.1,
    {
        document_scroll_range(
            dom,
            &self.styles,
            &self.fragments,
            self.viewport.width,
            self.viewport.height,
        )
    }

    /// Scrolls the document to an offset, as far as it goes.
    pub fn set_viewport_scroll(&mut self, dom: &Dom, want: (i128, i128))
        requires
            dom.wf(),
        ensures
            old(self).viewport.scrolled_to(
                (want.0 as int, want.1 as int),
                old(self).range_in(dom),
                final(self).viewport,
            ),
            old(self).keeps_but_viewport(final(self)),
    {
        let range = self.scroll_range(dom);
        self.viewport.set_viewport_scroll(want, range);
    }

    /// Scrolls the document by a distance, as far as it goes.
    pub fn scroll_by(&mut self, dom: &Dom, dx: i64, dy: i64) -> (r: (i64, i64))
        requires
            dom.wf(),
        ensures
            old(self).viewport.scrolled_to(
                (old(self).viewport.scroll.0 + dx, old(self).viewport.scroll.1 + dy),
                old(self).range_in(dom),
                final(self).viewport,
            ),
            r == final(self).viewport.scroll,
            old(self).keeps_but_viewport(final(self)),
    {
        let range = self.scroll_range(dom);
        self.viewport.scroll_by(dx, dy, range)
    }

    /// Scrolls by a distance for an input over a node: the nearest container from
    /// the node up that moves, else the document. Says whether anything moved.
    pub fn scroll_from(
        &mut self,
        dom: &Dom,
        hit: Option<NodeId>,
        dx: i64,
        dy: i64,
    ) -> (r: bool)
        requires
            dom.wf(),
            hit matches Some(id) ==> dom.has(id),
        ensures
            scroll::scrolled_at(
                scroll::mover(
                    dom,
                    &old(self).styles,
                    &old(self).fragments,
                    old(self).element_scroll@,
                    hit,
                    (dx, dy),
                ),
                old(self).element_scroll@,
                old(self).viewport,
                old(self).range_in(dom),
                (dx, dy),
                final(self).element_scroll@,
                final(self).viewport,
                r,
            ),
            *final(self) == (IncrementalLayout {
                element_scroll: final(self).element_scroll,
                viewport: final(self).viewport,
                ..*old(self)
            }),
    {
        let range = self.scroll_range(dom);
        scroll_from(
            dom,
            &self.styles,
            &self.fragments,
            &mut self.element_scroll,
            &mut self.viewport,
            range,
            hit,
            dx,
            dy,
        )
    }

    /// Scrolls the document for a key, and says whether it moved.
    pub fn scroll_for_key(&mut self, dom: &Dom, key: ScrollKey) -> (r: bool)
        requires
            dom.wf(),
        ensures
            old(self).viewport.scrolled_to(
                old(self).viewport.wanted_by(key, old(self).range_in(dom)),
                old(self).range_in(dom),
                final(self).viewport,
            ),
            r == (final(self).viewport.scroll != old(self).viewport.scroll),
            old(self).keeps_but_viewport(final(self)),
    {
        let range = self.scroll_range(dom);
        self.viewport.scroll_for_key(key, range)
    }

    /// Whether a session differs from another in its window at most.
    pub open spec fn keeps_but_viewport(&self, after: &IncrementalLayout) -> bool {
        *after == (IncrementalLayout { viewport: after.viewport, ..*self })
    }

    /// Whether `after` is this session with the document scrolled so that a
    /// node's box is at the top. A node without a box moves nothing.
    pub open spec fn scrolled_to_top_of(
        &self,
        dom: &Dom,
        node: NodeId,
        after: &IncrementalLayout,
    ) -> bool {
        &&& self.keeps_but_viewport(after)
        &&& if self.fragments.rects@.contains_key(node) {
            self.viewport.scrolled_to(
                (
                    self.viewport.scroll.0 as int,
                    fragment::origin(dom, &self.fragments, node).1 * 64,
                ),
                self.range_in(dom),
                after.viewport,
            )
        } else {
            after.viewport == self.viewport
        }
    }

    /// Scrolls the document so that a node's box is at the top, and says whether
    /// it moved. A node without a box moves nothing.
    pub fn scroll_to_element(&mut self, dom: &Dom, node: NodeId) -> (r: bool)
        requires
            dom.wf(),
            dom.has(node),
        ensures
            old(self).scrolled_to_top_of(dom, node, final(self)),
            r == (final(self).viewport.scroll != old(self).viewport.scroll),
    {
        let origin = match absolute_origin(dom, &self.fragments, node) {
            Some(o) => o,
            None => return false,
        };
        let before = self.viewport.scroll;
        let range = self.scroll_range(dom);
        self.viewport.set_viewport_scroll((before.0 as i128, origin.1 * 64), range);
        self.viewport.scroll.0 != before.0 || self.viewport.scroll.1 != before.1
    }

    /// Scrolls the document to the first element with an `id`, and says whether
    /// it moved.
    pub fn scroll_to_id(&mut self, dom: &Dom, id: &str) -> (r: bool)
        requires
            dom.wf(),
        ensures
            match first_with_id(dom, dom.order(dom.root()), id@) {
                Some(node) => old(self).scrolled_to_top_of(dom, node, final(self)),
                None => *final(self) == *old(self),
            },
            r == (final(self).viewport.scroll != old(self).viewport.scroll),
    {
        match element_by_id(dom, id) {
            Some(node) => self.scroll_to_element(dom, node),
            None => false,
        }
    }

    /// Scrolls the document as little as it takes to show a node's box, and says
    /// whether it moved. A node without a box moves nothing.
    pub fn scroll_element_into_view(&mut self, dom: &Dom, node: NodeId) -> (r: bool)
        requires
            dom.wf(),
            dom.has(node),
            0 <= old(self).viewport.width,
            0 <= old(self).viewport.height,
        ensures
            old(self).keeps_but_viewport(final(self)),
            r == (final(self).viewport.scroll != old(self).viewport.scroll),
            match fragment::rect_at(dom, &old(self).fragments, node) {
                Some(b) => old(self).viewport.scrolled_to(
                    (
                        scroll::nearest(
                            old(self).viewport.scroll.0 as int,
                            old(self).viewport.width * 64,
                            b.0 * 64,
                            b.2 * 64,
                        ),
                        scroll::nearest(
                            old(self).viewport.scroll.1 as int,
                            old(self).viewport.height * 64,
                            b.1 * 64,
                            b.3 * 64,
                        ),
                    ),
                    old(self).range_in(dom),
                    final(self).viewport,
                ),
                None => final(self).viewport == old(self).viewport,
            },
    {
        let origin = match absolute_origin(dom, &self.fragments, node) {
            Some(o) => o,
            None => return false,
        };
        let rect: Layout = match self.fragments.rect_of(node) {
            Some(l) => *l,
            None => return false,
        };
        let before = self.viewport.scroll;
        let right: i128 = origin.0 + rect.width as i128;
        let bottom: i128 = origin.1 + rect.height as i128;
        let x: i128 = nearest_offset(
            before.0 as i128,
            self.viewport.width as i128 * 64,
            origin.0 * 64,
            right * 64,
        );
        let y: i128 = nearest_offset(
            before.1 as i128,
            self.viewport.height as i128 * 64,
            origin.1 * 64,
            bottom * 64,
        );
        let range = self.scroll_range(dom);
        self.viewport.set_viewport_scroll((x, y), range);
        self.viewport.scroll.0 != before.0 || self.viewport.scroll.1 != before.1
    }
}

// ---------------------------------------------------------------------------
// Questions to a session
// ---------------------------------------------------------------------------
/// The topmost box under a point, and the point from where its content starts.
pub struct BlockHit {
    pub node: NodeId,
    pub x: Bits,
    pub y: Bits,
}

impl IncrementalLayout {
    /// The node that a hit comes to: the inline element of the box's text under
    /// the point, else the box's own node.
    pub open spec fn refined(
        &self,
        ctx: &TextMeasureCtx,
        hit: Option<BlockHit>,
    ) -> Option<NodeId> {
        match hit {
            Some(h) => {
                let inline = if self.fragments.rects@.contains_key(h.node) {
                    inline_hit::inline_element(
                        &self.built,
                        ctx,
                        &self.styles,
                        h.node,
                        h.x,
                        h.y,
                    )
                } else {
                    None
                };
                if inline is Some {
                    inline
                } else {
                    Some(h.node)
                }
            },
            None => None,
        }
    }

    /// Whether a hit comes to `r`: the view finds a box of the session, with
    /// nested containers scrolled to the session's offsets, and over them those
    /// of the host.
    pub open spec fn can_hit<V: Fn(&IncrementalLayout, &NodeMap<(i64, i64)>) -> Option<BlockHit>>(
        &self,
        ctx: &TextMeasureCtx,
        scroll: Map<NodeId, (i64, i64)>,
        view: &V,
        r: Option<NodeId>,
    ) -> bool {
        exists|merged: NodeMap<(i64, i64)>, hit: Option<BlockHit>|
            {
                &&& merged@ == self.element_scroll@.union_prefer_right(scroll)
                &&& #[trigger] call_ensures(*view, (self, &merged), hit)
                &&& r == self.refined(ctx, hit)
            }
    }

    /// Whether the boxes that a view finds are those of nodes of the document.
    pub open spec fn finds_nodes<
        V: Fn(&IncrementalLayout, &NodeMap<(i64, i64)>) -> Option<BlockHit>,
    >(&self, dom: &Dom, view: &V) -> bool {
        forall|m: &NodeMap<(i64, i64)>, hit: Option<BlockHit>| #[trigger]
            call_ensures(*view, (self, m), hit) ==> (hit matches Some(h) ==> dom.has(h.node))
    }

    proof fn lemma_hit_is_a_node<
        V: Fn(&IncrementalLayout, &NodeMap<(i64, i64)>) -> Option<BlockHit>,
    >(
        &self,
        dom: &Dom,
        ctx: &TextMeasureCtx,
        scroll: Map<NodeId, (i64, i64)>,
        view: &V,
        r: Option<NodeId>,
    )
        requires
            self.can_hit(ctx, scroll, view, r),
            self.finds_nodes(dom, view),
            link_harvest::all_sources_known(dom, &self.built),
        ensures
            r matches Some(n) ==> dom.has(n),
    {
        let (merged, hit) = choose|merged: NodeMap<(i64, i64)>, hit: Option<BlockHit>|
            {
                &&& merged@ == self.element_scroll@.union_prefer_right(scroll)
                &&& #[trigger] call_ensures(*view, (self, &merged), hit)
                &&& r == self.refined(ctx, hit)
            };
        if let Some(h) = hit {
            inline_hit::lemma_inline_element_is_a_source(
                &self.built,
                ctx,
                &self.styles,
                h.node,
                h.x,
                h.y,
            );
        }
    }

    /// The topmost node under a point. `view` finds the topmost box of the session
    /// under it, with nested containers scrolled to the given offsets: those of
    /// the session, and over them those of the host.
    pub fn hit_test<V: Fn(&IncrementalLayout, &NodeMap<(i64, i64)>) -> Option<BlockHit>>(
        &self,
        ctx: &TextMeasureCtx,
        scroll: &NodeMap<(i64, i64)>,
        view: &V,
    ) -> (r: Option<NodeId>)
        requires
            forall|m: &NodeMap<(i64, i64)>| #[trigger] call_requires(*view, (self, m)),
        ensures
            self.can_hit(ctx, scroll@, view, r),
    {
        let merged = merged_scroll(&self.element_scroll, scroll);
        let hit = view(self, &merged);
        let ghost found = hit;
        assert(call_ensures(*view, (self, &merged), found));
        match hit {
            Some(h) => match self.inline_hit_at(ctx, &h) {
                Some(el) => Some(el),
                None => Some(h.node),
            },
            None => None,
        }
    }

    /// The fragment of the link into the document under a point.
    pub fn link_fragment_at<V: Fn(&IncrementalLayout, &NodeMap<(i64, i64)>) -> Option<BlockHit>>(
        &self,
        dom: &Dom,
        ctx: &TextMeasureCtx,
        scroll: &NodeMap<(i64, i64)>,
        view: &V,
    ) -> (r: Option<String>)
        requires
            dom.wf(),
            link_harvest::all_sources_known(dom, &self.built),
            self.finds_nodes(dom, view),
            forall|m: &NodeMap<(i64, i64)>| #[trigger] call_requires(*view, (self, m)),
        ensures
            exists|hit: Option<NodeId>| #[trigger]
                self.can_hit(ctx, scroll@, view, hit) && text::text_of(r)
                    == fragment_around(dom, hit),
    {
        let hit = self.hit_test(ctx, scroll, view);
        proof {
            self.lemma_hit_is_a_node(dom, ctx, scroll@, view, hit);
        }
        link_fragment_from(dom, hit)
    }

    /// The address of the link under a point.
    pub fn link_href_at<V: Fn(&IncrementalLayout, &NodeMap<(i64, i64)>) -> Option<BlockHit>>(
        &self,
        dom: &Dom,
        ctx: &TextMeasureCtx,
        scroll: &NodeMap<(i64, i64)>,
        view: &V,
    ) -> (r: Option<String>)
        requires
            dom.wf(),
            link_harvest::all_sources_known(dom, &self.built),
            self.finds_nodes(dom, view),
            forall|m: &NodeMap<(i64, i64)>| #[trigger] call_requires(*view, (self, m)),
        ensures
            exists|hit: Option<NodeId>| #[trigger]
                self.can_hit(ctx, scroll@, view, hit) && text::text_of(r)
                    == href_around(dom, hit),
    {
        let hit = self.hit_test(ctx, scroll, view);
        proof {
            self.lemma_hit_is_a_node(dom, ctx, scroll@, view, hit);
        }
        link_href_from(dom, hit)
    }

    /// Scrolls by a distance for an input at a point: the nearest container from
    /// the node under it up that moves, else the document. Says whether anything
    /// moved.
    pub fn scroll_at<V: Fn(&IncrementalLayout, &NodeMap<(i64, i64)>) -> Option<BlockHit>>(
        &mut self,
        dom: &Dom,
        ctx: &TextMeasureCtx,
        view: &V,
        dx: i64,
        dy: i64,
    ) -> (r: bool)
        requires
            dom.wf(),
            link_harvest::all_sources_known(dom, &old(self).built),
            old(self).finds_nodes(dom, view),
            forall|m: &NodeMap<(i64, i64)>| #[trigger] call_requires(*view, (&*old(self), m)),
        ensures
            exists|hit: Option<NodeId>| #[trigger]
                old(self).can_hit(ctx, Map::empty(), view, hit) && scroll::scrolled_at(
                    scroll::mover(
                        dom,
                        &old(self).styles,
                        &old(self).fragments,
                        old(self).element_scroll@,
                        hit,
                        (dx, dy),
                    ),
                    old(self).element_scroll@,
                    old(self).viewport,
                    old(self).range_in(dom),
                    (dx, dy),
                    final(self).element_scroll@,
                    final(self).viewport,
                    r,
                ),
            *final(self) == (IncrementalLayout {
                element_scroll: final(self).element_scroll,
                viewport: final(self).viewport,
                ..*old(self)
            }),
    {
        let none: NodeMap<(i64, i64)> = NodeMap::new();
        let hit = self.hit_test(ctx, &none, view);
        proof {
            self.lemma_hit_is_a_node(dom, ctx, none@, view, hit);
            assert(old(self).can_hit(ctx, Map::empty(), view, hit));
        }
        self.scroll_from(dom, hit, dx, dy)
    }

    fn inline_hit_at(
        &self,
        ctx: &TextMeasureCtx,
        hit: &BlockHit,
    ) -> (r: Option<NodeId>)
        ensures
            r == (if self.fragments.rects@.contains_key(hit.node) {
                inline_hit::inline_element(
                    &self.built,
                    ctx,
                    &self.styles,
                    hit.node,
                    hit.x,
                    hit.y,
                )
            } else {
                None
            }),
    {
        if self.fragments.rect_of(hit.node).is_none() {
            return None;
        }
        inline_hit_at(&self.built, ctx, &self.styles, hit.node, hit.x, hit.y)
    }

    /// Paints the session. `emit` paints its boxes with nested containers scrolled
    /// to the given offsets: those of the session, and over them those of the
    /// host. After a splice the boxes no longer match the fragments, and there is
    /// nothing to paint from.
    pub fn emit_paint_list<P, E: Fn(&IncrementalLayout, &NodeMap<(i64, i64)>) -> P>(
        &self,
        scroll_offsets: &NodeMap<(i64, i64)>,
        emit: &E,
    ) -> (r: P)
        requires
            self.paint_side_valid,
            forall|m: &NodeMap<(i64, i64)>| #[trigger] call_requires(*emit, (self, m)),
        ensures
            exists|merged: NodeMap<(i64, i64)>|
                {
                    &&& merged@ == self.element_scroll@.union_prefer_right(scroll_offsets@)
                    &&& #[trigger] call_ensures(*emit, (self, &merged), r)
                },
    {
        let merged = merged_scroll(&self.element_scroll, scroll_offsets);
        emit(self, &merged)
    }

    /// The caret's rectangle at a byte of a node's text. `None` where the text is
    /// not shown.
    pub fn caret_rect<R, G: Fn(TextPlace, usize) -> R>(
        &self,
        dom: &Dom,
        node: NodeId,
        byte_offset: usize,
        ctx: &TextMeasureCtx,
        geometry: &G,
    ) -> (r: Option<R>)
        requires
            dom.wf(),
            dom.has(node),
            forall|p: TextPlace, b: usize| #[trigger] call_requires(*geometry, (p, b)),
        ensures
            match r {
                Some(rect) => highlight::is_shown(&self.fragments, &self.built, ctx, node)
                    && highlight::is_caret(
                    dom,
                    &self.fragments,
                    &self.built,
                    geometry,
                    node,
                    byte_offset,
                    rect,
                ),
                None => !highlight::is_shown(&self.fragments, &self.built, ctx, node),
            },
    {
        highlight::caret_rect(
            dom,
            node,
            byte_offset,
            &self.built,
            ctx,
            &self.fragments,
            geometry,
        )
    }

    /// The rectangles that highlight the text of a node between two bytes.
    pub fn selection_rects<R, G: Fn(TextPlace, usize, usize) -> Vec<R>>(
        &self,
        dom: &Dom,
        node: NodeId,
        start: usize,
        end: usize,
        ctx: &TextMeasureCtx,
        geometry: &G,
    ) -> (r: Vec<R>)
        requires
            dom.wf(),
            dom.has(node),
            forall|p: TextPlace, s: usize, e: usize| #[trigger]
                call_requires(*geometry, (p, s, e)),
        ensures
            highlight::highlights(
                dom,
                &self.fragments,
                &self.built,
                ctx,
                geometry,
                (LeafSpan { leaf: node, start, end }),
                r,
            ),
    {
        highlight::selection_rects(
            dom,
            node,
            start,
            end,
            &self.built,
            ctx,
            &self.fragments,
            geometry,
        )
    }

    /// The colors of a selection at a node: its background and its text.
    pub fn selection_style(&self, dom: &Dom, node: NodeId) -> (r: Option<(Rgba, Rgba)>)
        requires
            dom.wf(),
            dom.has(node),
        ensures
            r == caret::selection_colors(dom, &self.styles, node),
    {
        caret::selection_style(dom, &self.styles, node)
    }

    /// The color of the caret at a node.
    pub fn caret_color(&self, dom: &Dom, node: NodeId) -> (r: Option<Rgba>)
        requires
            dom.wf(),
            dom.has(node),
        ensures
            r == caret::caret_color_at(dom, &self.styles, node),
    {
        caret::caret_color(dom, &self.styles, node)
    }
}

// ---------------------------------------------------------------------------
// Where splices, links and scrolls lead
// ---------------------------------------------------------------------------
/// Whether a child takes part in the flow of its parent as it was laid out: it has
/// a box, and it is styled and neither absolute nor fixed.
pub open spec fn is_laid_in_flow(
    styles: &StylePlane,
    scoped: Map<NodeId, Layout>,
    child: NodeId,
) -> bool {
    scoped.contains_key(child) && (styles.primary_at(child) matches Some(s) && !(s.position
        is Absolute) && !(s.position is Fixed))
}

/// Whether margins go through the edge of an element: it is not styled, or it shows
/// its overflow, is in the flow and is a plain block inside.
pub open spec fn lets_margins_through(styles: &StylePlane, node: NodeId) -> bool {
    styles.primary_at(node) matches Some(s) ==> s.overflow_x is Visible && s.overflow_y is Visible
        && !(s.position is Absolute) && !(s.position is Fixed) && s.display_inside is Flow
}

/// Whether a margin is of more than half a pixel, in either direction.
pub open spec fn is_wide(margin: Bits) -> bool {
    !float_bits::is_nan(margin) && float_bits::magnitude(margin) > 0x3f00_0000
}

proof fn lemma_ends_of_flow(
    dom: &Dom,
    styles: &StylePlane,
    scoped: Map<NodeId, Layout>,
    root: NodeId,
    first: int,
    last: int,
)
    requires
        0 <= first <= last < dom.children_at(root).len(),
        is_laid_in_flow(styles, scoped, dom.children_at(root)[first]),
        is_laid_in_flow(styles, scoped, dom.children_at(root)[last]),
        forall|j: int|
            0 <= j < dom.children_at(root).len() && (j < first || j > last) ==> !is_laid_in_flow(
                styles,
                scoped,
                #[trigger] dom.children_at(root)[j],
            ),
    ensures
        flow_children(dom, styles, scoped, root).len() > 0,
        flow_children(dom, styles, scoped, root).first() == dom.children_at(root)[first],
        flow_children(dom, styles, scoped, root).last() == dom.children_at(root)[last],
{
    let all = dom.children_at(root);
    let p = |c: NodeId| counts(styles, scoped, c);
    lemma_filter_ends(all, p, first, last);
}

proof fn lemma_filter_ends(s: Seq<NodeId>, p: spec_fn(NodeId) -> bool, first: int, last: int)
    requires
        0 <= first <= last < s.len(),
        p(s[first]),
        p(s[last]),
        forall|j: int| 0 <= j < s.len() && (j < first || j > last) ==> !p(#[trigger] s[j]),
    ensures
        s.filter(p).len() > 0,
        s.filter(p).first() == s[first],
        s.filter(p).last() == s[last],
    decreases s.len(),
{
    reveal(Seq::filter);
    let init = s.drop_last();
    if last < s.len() - 1 {
        assert(!p(s[s.len() - 1]));
        assert forall|j: int| 0 <= j < init.len() && (j < first || j > last) implies !p(
            #[trigger] init[j],
        ) by {
            assert(init[j] == s[j]);
        }
        lemma_filter_ends(init, p, first, last);
    } else if first < last {
        let m = lemma_last_of(init, p, first);
        assert forall|j: int| 0 <= j < init.len() && (j < first || j > m) implies !p(
            #[trigger] init[j],
        ) by {
            assert(init[j] == s[j]);
        }
        lemma_filter_ends(init, p, first, m);
    } else {
        assert forall|j: int| 0 <= j < init.len() implies !p(#[trigger] init[j]) by {
            assert(init[j] == s[j]);
        }
        lemma_filter_none(init, p);
    }
}

proof fn lemma_filter_none(s: Seq<NodeId>, p: spec_fn(NodeId) -> bool)
    requires
        forall|j: int| 0 <= j < s.len() ==> !p(#[trigger] s[j]),
    ensures
        s.filter(p).len() == 0,
    decreases s.len(),
{
    reveal(Seq::filter);
    if s.len() > 0 {
        let init = s.drop_last();
        assert forall|j: int| 0 <= j < init.len() implies !p(#[trigger] init[j]) by {
            assert(init[j] == s[j]);
        }
        lemma_filter_none(init, p);
    }
}

proof fn lemma_last_of(s: Seq<NodeId>, p: spec_fn(NodeId) -> bool, k: int) -> (m: int)
    requires
        0 <= k < s.len(),
        p(s[k]),
    ensures
        k <= m < s.len(),
        p(s[m]),
        forall|j: int| m < j < s.len() ==> !p(#[trigger] s[j]),
    decreases s.len(),
{
    if p(s[s.len() - 1]) {
        s.len() - 1
    } else {
        let init = s.drop_last();
        let m = lemma_last_of(init, p, k);
        assert forall|j: int| m < j < s.len() implies !p(#[trigger] s[j]) by {
            if j < s.len() - 1 {
                assert(init[j] == s[j]);
            }
        }
        m
    }
}

/// A subtree that was laid out by itself goes in the place of the one before where
/// both have a box of one size, unless margins go through the edge of its root and
/// the first child in the flow has a wide margin above, or the last one below.
pub proof fn a_subtree_is_spliced_unless_a_margin_is_lost(
    dom: &Dom,
    styles: &StylePlane,
    prior: Map<NodeId, Layout>,
    scoped: Map<NodeId, Layout>,
    root: NodeId,
    first: int,
    last: int,
)
    requires
        0 <= first <= last < dom.children_at(root).len(),
        is_laid_in_flow(styles, scoped, dom.children_at(root)[first]),
        is_laid_in_flow(styles, scoped, dom.children_at(root)[last]),
        forall|j: int|
            0 <= j < dom.children_at(root).len() && (j < first || j > last) ==> !is_laid_in_flow(
                styles,
                scoped,
                #[trigger] dom.children_at(root)[j],
            ),
    ensures
        can_splice(dom, styles, prior, scoped, root) <==> {
            &&& prior.contains_key(root)
            &&& scoped.contains_key(root)
            &&& scoped[root].width == prior[root].width
            &&& scoped[root].height == prior[root].height
            &&& lets_margins_through(styles, root) ==> !is_wide(
                scoped[dom.children_at(root)[first]].margin_top,
            ) && !is_wide(scoped[dom.children_at(root)[last]].margin_bottom)
        },
{
    lemma_ends_of_flow(dom, styles, scoped, root, first, last);
}

/// A subtree without children in the flow goes in the place of the one before where
/// both have a box of one size.
pub proof fn a_subtree_without_flow_is_spliced_at_its_size(
    dom: &Dom,
    styles: &StylePlane,
    prior: Map<NodeId, Layout>,
    scoped: Map<NodeId, Layout>,
    root: NodeId,
)
    requires
        forall|j: int|
            0 <= j < dom.children_at(root).len() ==> !is_laid_in_flow(
                styles,
                scoped,
                #[trigger] dom.children_at(root)[j],
            ),
    ensures
        can_splice(dom, styles, prior, scoped, root) <==> {
            &&& prior.contains_key(root)
            &&& scoped.contains_key(root)
            &&& scoped[root].width == prior[root].width
            &&& scoped[root].height == prior[root].height
        },
{
    lemma_filter_none(dom.children_at(root), |c: NodeId| counts(styles, scoped, c));
}

/// What is in a spliced subtree stands as it was laid out by itself, but for the
/// corner of its root; a node of it that was not laid out keeps the box that it
/// had.
pub proof fn a_splice_puts_in_what_was_laid_out(
    dom: &Dom,
    boxes: Map<NodeId, Layout>,
    prior: Map<NodeId, Layout>,
    scoped: Map<NodeId, Layout>,
    root: NodeId,
    k: NodeId,
)
    requires
        dom.wf(),
        dom.has(root),
        dom.is_within(k, root),
    ensures
        ({
            let after = spliced(dom, boxes, prior, scoped, root);
            &&& scoped.contains_key(k) ==> after.contains_key(k) && after[k] == (if k == root {
                Layout { x: prior[root].x, y: prior[root].y, ..scoped[root] }
            } else {
                scoped[k]
            })
            &&& !scoped.contains_key(k) ==> (after.contains_key(k) <==> boxes.contains_key(k)) && (
            boxes.contains_key(k) ==> after[k] == boxes[k])
        }),
{
    dom.lemma_order_visits(root);
    dom.walks_meet_exactly_the_subtree(k, root);
}

/// Whether a node is a link into the document, `k` steps up from another, with none on the
/// way.
pub open spec fn is_first_fragment(dom: &Dom, from: NodeId, a: NodeId, k: nat) -> bool {
    &&& dom.rise(from, k) == Some(a)
    &&& link_harvest::fragment_of(dom, a) is Some
    &&& forall|j: nat|
        j < k ==> ((#[trigger] dom.rise(from, j)) matches Some(b) && link_harvest::fragment_of(dom, b)
            is None)
}

/// A point leads to the fragment of the first link into the document from its node
/// up, and to none where there is no such link.
pub proof fn a_point_leads_to_the_nearest_fragment(dom: &Dom, hit: NodeId)
    requires
        dom.wf(),
        dom.has(hit),
    ensures
        match fragment_around(dom, Some(hit)) {
            Some(f) => exists|a: NodeId, k: nat| #[trigger]
                is_first_fragment(dom, hit, a, k) && link_harvest::fragment_of(dom, a) == Some(f),
            None => forall|k: nat| (#[trigger] dom.rise(hit, k)) matches Some(b)
                ==> link_harvest::fragment_of(dom, b) is None,
        },
        fragment_around(dom, None) is None,
{
    let p = |x: NodeId| link_harvest::fragment_of(dom, x) is Some;
    dom.the_nearest_is_the_first_above(hit, p);
    if let Some(a) = dom.nearest(hit, p) {
        let k = choose|k: nat| #[trigger] dom.is_first_above(hit, p, a, k);
        assert(is_first_fragment(dom, hit, a, k));
    } else {
        assert forall|k: nat| (#[trigger] dom.rise(hit, k)) is Some implies link_harvest::fragment_of(
            dom,
            dom.rise(hit, k)->0,
        ) is None by {
            assert(!p(dom.rise(hit, k)->0));
        }
    }
}

/// Whether a node is a link, `k` steps up from another, with none on the
/// way.
pub open spec fn is_first_href(dom: &Dom, from: NodeId, a: NodeId, k: nat) -> bool {
    &&& dom.rise(from, k) == Some(a)
    &&& link_harvest::href_of(dom, a) is Some
    &&& forall|j: nat|
        j < k ==> ((#[trigger] dom.rise(from, j)) matches Some(b) && link_harvest::href_of(dom, b)
            is None)
}

/// A point leads to the address of the first link from its node up, and to none
/// where there is no link.
pub proof fn a_point_leads_to_the_nearest_link(dom: &Dom, hit: NodeId)
    requires
        dom.wf(),
        dom.has(hit),
    ensures
        match href_around(dom, Some(hit)) {
            Some(h) => exists|a: NodeId, k: nat| #[trigger]
                is_first_href(dom, hit, a, k) && link_harvest::href_of(dom, a) == Some(h),
            None => forall|k: nat| (#[trigger] dom.rise(hit, k)) matches Some(b)
                ==> link_harvest::href_of(dom, b) is None,
        },
        href_around(dom, None) is None,
{
    let p = |x: NodeId| link_harvest::href_of(dom, x) is Some;
    dom.the_nearest_is_the_first_above(hit, p);
    if let Some(a) = dom.nearest(hit, p) {
        let k = choose|k: nat| #[trigger] dom.is_first_above(hit, p, a, k);
        assert(is_first_href(dom, hit, a, k));
    } else {
        assert forall|k: nat| (#[trigger] dom.rise(hit, k)) is Some implies link_harvest::href_of(
            dom,
            dom.rise(hit, k)->0,
        ) is None by {
            assert(!p(dom.rise(hit, k)->0));
        }
    }
}

/// No node before the one that is found for an `id` has it.
pub proof fn an_id_is_found_where_it_comes_first(dom: &Dom, nodes: Seq<NodeId>, id: Seq<char>)
    ensures
        match first_with_id(dom, nodes, id) {
            Some(m) => exists|k: int|
                0 <= k < nodes.len() && #[trigger] nodes[k] == m && dom.plain_attr(m, "id"@)
                    == Some(id) && forall|j: int|
                    0 <= j < k ==> dom.plain_attr(#[trigger] nodes[j], "id"@) != Some(id),
            None => forall|j: int|
                0 <= j < nodes.len() ==> dom.plain_attr(#[trigger] nodes[j], "id"@) != Some(id),
        },
    decreases nodes.len(),
{
    if nodes.len() > 0 && !has_id(dom, nodes[0], id) {
        let rest = nodes.skip(1);
        an_id_is_found_where_it_comes_first(dom, rest, id);
        match first_with_id(dom, rest, id) {
            Some(m) => {
                let k = choose|k: int|
                    0 <= k < rest.len() && #[trigger] rest[k] == m && dom.plain_attr(m, "id"@)
                        == Some(id) && forall|j: int|
                        0 <= j < k ==> dom.plain_attr(#[trigger] rest[j], "id"@) != Some(id);
                assert(nodes[k + 1] == m);
                assert forall|j: int| 0 <= j < k + 1 implies dom.plain_attr(
                    #[trigger] nodes[j],
                    "id"@,
                ) != Some(id) by {
                    if j > 0 {
                        assert(rest[j - 1] == nodes[j]);
                    }
                }
            },
            None => {
                assert forall|j: int| 0 <= j < nodes.len() implies dom.plain_attr(
                    #[trigger] nodes[j],
                    "id"@,
                ) != Some(id) by {
                    if j > 0 {
                        assert(rest[j - 1] == nodes[j]);
                    }
                }
            },
        }
    }
}

/// A scroll to an element brings the top of its box to the top of the view, as far
/// as the document goes, and moves nothing sideways; without a box it moves
/// nothing.
pub proof fn a_scroll_to_an_element_brings_its_top_up(
    before: &IncrementalLayout,
    dom: &Dom,
    node: NodeId,
    after: &IncrementalLayout,
    top: int,
)
    requires
        before.scrolled_to_top_of(dom, node, after),
        0 <= before.range_in(dom).0,
        0 <= before.range_in(dom).1,
        before.viewport.scrolls_y,
        fragment::rect_at(dom, &before.fragments, node) matches Some(b) ==> top == b.1 * 64,
    ensures
        fragment::rect_at(dom, &before.fragments, node) is None ==> after.viewport
            == before.viewport,
        fragment::rect_at(dom, &before.fragments, node) is Some ==> {
            &&& 0 <= top <= before.range_in(dom).1 ==> after.viewport.scroll.1 == top
            &&& top < 0 ==> after.viewport.scroll.1 == 0
            &&& top > before.range_in(dom).1 ==> after.viewport.scroll.1 == before.range_in(dom).1
            &&& before.viewport.scrolls_x && 0 <= before.viewport.scroll.0 <= before.range_in(dom).0
                ==> after.viewport.scroll.0 == before.viewport.scroll.0
        },
        after.styles == before.styles && after.fragments == before.fragments
            && after.element_scroll == before.element_scroll,
{
}

/// A hit on a box comes to the inline element of its text under the point, where
/// there is one, and else to the node of the box.
pub proof fn a_hit_comes_to_the_inline_element_or_the_box(
    session: &IncrementalLayout,
    ctx: &TextMeasureCtx,
    hit: BlockHit,
    el: NodeId,
)
    ensures
        session.refined(ctx, None) is None,
        session.refined(ctx, Some(hit)) is Some,
        session.refined(ctx, Some(hit)) == Some(el) && el != hit.node ==> {
            &&& session.fragments.rects@.contains_key(hit.node)
            &&& inline_hit::inline_element(
                &session.built,
                ctx,
                &session.styles,
                hit.node,
                hit.x,
                hit.y,
            ) == Some(el)
        },
        session.fragments.rects@.contains_key(hit.node) && inline_hit::inline_element(
            &session.built,
            ctx,
            &session.styles,
            hit.node,
            hit.x,
            hit.y,
        ) == Some(el) ==> session.refined(ctx, Some(hit)) == Some(el),
{
}

} // verus!
