//! The whole way from a document to what is painted: styles, images, boxes.
use vstd::prelude::*;
use crate::box_tree;
use crate::box_tree::{layout_via_box_tree, BoxTree};
use crate::cascade;
use crate::cascade::run_cascade;
use crate::dom::{Dom, NodeId};
use crate::fragment::{FragmentPlane, Layout};
use crate::image_decode;
use crate::image_decode::{BackgroundImagePlane, DecodedImage, ImageLoader, ImagePlane};
use crate::style_plane::{ComputedStyle, StyleEntry, StylePlane};

verus! {

/// Whether a plane holds no entry.
pub open spec fn is_unstyled(plane: StylePlane) -> bool {
    plane.entries@ == Map::<NodeId, StyleEntry>::empty()
}

/// Whether `styles` is what styling a document comes to from nothing.
pub open spec fn styles_are<
    F: Fn(StylePlane, NodeId, &Vec<(NodeId, u64)>) -> StylePlane,
    M: Fn(&StylePlane, NodeId) -> Option<ComputedStyle>,
>(
    dom: &Dom,
    stylesheets: Seq<&str>,
    recalc: &F,
    marker: &M,
    styles: StylePlane,
) -> bool {
    exists|start: StylePlane|
        is_unstyled(start) && #[trigger] cascade::styled(
            dom,
            start,
            stylesheets,
            recalc,
            marker,
            styles,
        )
}

fn style_from_nothing<
    F: Fn(StylePlane, NodeId, &Vec<(NodeId, u64)>) -> StylePlane,
    M: Fn(&StylePlane, NodeId) -> Option<ComputedStyle>,
>(dom: &Dom, stylesheets: &[&str], recalc: &F, marker: &M) -> (r: StylePlane)
    requires
        dom.wf(),
        forall|p: StylePlane, n: NodeId, c: &Vec<(NodeId, u64)>| #[trigger]
            call_requires(*recalc, (p, n, c)),
        forall|p: &StylePlane, n: NodeId| #[trigger] call_requires(*marker, (p, n)),
    ensures
        styles_are(dom, stylesheets@, recalc, marker, r),
{
    let start = StylePlane::new();
    let ghost blank = start;
    let styles = run_cascade(dom, start, stylesheets, recalc, marker);
    assert(is_unstyled(blank) && cascade::styled(
        dom,
        blank,
        stylesheets@,
        recalc,
        marker,
        styles,
    ));
    styles
}

/// A document with all that it is painted from.
pub struct LaidOut {
    pub styles: StylePlane,
    pub images: ImagePlane,
    pub backgrounds: BackgroundImagePlane,
    pub fragments: FragmentPlane,
    pub tree: BoxTree,
}

/// Whether `laid` is a document with all that it is painted from: its styles,
/// the images that it shows, and the boxes that they take.
pub open spec fn is_laid_out<
    L: ImageLoader,
    F: Fn(StylePlane, NodeId, &Vec<(NodeId, u64)>) -> StylePlane,
    M: Fn(&StylePlane, NodeId) -> Option<ComputedStyle>,
    C: Fn(&StylePlane, &BoxTree) -> Vec<Layout>,
>(
    dom: &Dom,
    stylesheets: Seq<&str>,
    loader: &L,
    recalc: &F,
    marker: &M,
    compute: &C,
    laid: LaidOut,
) -> bool {
    &&& styles_are(dom, stylesheets, recalc, marker, laid.styles)
    &&& image_decode::shows_urls(
        laid.images@,
        image_decode::subtree(dom, dom.root()),
        |id: NodeId| image_decode::img_src(dom, id),
        loader,
    )
    &&& laid.backgrounds.shows(dom, &laid.styles, loader)
    &&& box_tree::layout_is(dom, &laid.styles, &laid.images, compute, laid.fragments, laid.tree)
}

/// Lays out a styled document.
pub fn layout<C: Fn(&StylePlane, &BoxTree) -> Vec<Layout>>(
    dom: &Dom,
    styles: &StylePlane,
    images: &ImagePlane,
    compute: &C,
) -> (r: (FragmentPlane, BoxTree))
    requires
        dom.wf(),
        forall|t: &BoxTree| #[trigger] call_requires(*compute, (styles, t)),
        box_tree::lays_out_every_box(compute, styles),
    ensures
        box_tree::layout_is(dom, styles, images, compute, r.0, r.1),
{
    layout_via_box_tree(dom, styles, images, compute)
}

/// Styles a document, decodes its images and lays it out.
pub fn lay_out_document<
    L: ImageLoader,
    F: Fn(StylePlane, NodeId, &Vec<(NodeId, u64)>) -> StylePlane,
    M: Fn(&StylePlane, NodeId) -> Option<ComputedStyle>,
    C: Fn(&StylePlane, &BoxTree) -> Vec<Layout>,
>(
    dom: &Dom,
    stylesheets: &[&str],
    loader: &L,
    recalc: &F,
    marker: &M,
    compute: &C,
) -> (r: LaidOut)
    requires
        dom.wf(),
        forall|p: StylePlane, n: NodeId, c: &Vec<(NodeId, u64)>| #[trigger]
            call_requires(*recalc, (p, n, c)),
        forall|p: &StylePlane, n: NodeId| #[trigger] call_requires(*marker, (p, n)),
        forall|p: &StylePlane, t: &BoxTree| #[trigger] call_requires(*compute, (p, t)),
        forall|p: &StylePlane| #[trigger] box_tree::lays_out_every_box(compute, p),
    ensures
        is_laid_out(dom, stylesheets@, loader, recalc, marker, compute, r),
{
    let styles = style_from_nothing(dom, stylesheets, recalc, marker);
    let images = ImagePlane::decode_from_dom_with_loader(dom, loader);
    let backgrounds = BackgroundImagePlane::decode_from_cascade(dom, &styles, loader);
    assert(box_tree::lays_out_every_box(compute, &styles));
    let (fragments, tree) = layout(dom, &styles, &images, compute);
    LaidOut { styles, images, backgrounds, fragments, tree }
}

/// Whether `r` is what `emit` paints of a document.
pub open spec fn is_painted<
    P,
    L: ImageLoader,
    F: Fn(StylePlane, NodeId, &Vec<(NodeId, u64)>) -> StylePlane,
    M: Fn(&StylePlane, NodeId) -> Option<ComputedStyle>,
    C: Fn(&StylePlane, &BoxTree) -> Vec<Layout>,
    E: Fn(&LaidOut) -> P,
>(
    dom: &Dom,
    stylesheets: Seq<&str>,
    loader: &L,
    recalc: &F,
    marker: &M,
    compute: &C,
    emit: &E,
    r: P,
) -> bool {
    exists|laid: LaidOut|
        is_laid_out(dom, stylesheets, loader, recalc, marker, compute, laid) && #[trigger]
            call_ensures(*emit, (&laid,), r)
}

/// Styles a document, decodes its images, lays it out and has it painted.
pub fn paint_list_from_layout_dom<
    P,
    L: ImageLoader,
    F: Fn(StylePlane, NodeId, &Vec<(NodeId, u64)>) -> StylePlane,
    M: Fn(&StylePlane, NodeId) -> Option<ComputedStyle>,
    C: Fn(&StylePlane, &BoxTree) -> Vec<Layout>,
    E: Fn(&LaidOut) -> P,
>(
    dom: &Dom,
    stylesheets: &[&str],
    loader: &L,
    recalc: &F,
    marker: &M,
    compute: &C,
    emit: &E,
) -> (r: P)
    requires
        dom.wf(),
        forall|p: StylePlane, n: NodeId, c: &Vec<(NodeId, u64)>| #[trigger]
            call_requires(*recalc, (p, n, c)),
        forall|p: &StylePlane, n: NodeId| #[trigger] call_requires(*marker, (p, n)),
        forall|p: &StylePlane, t: &BoxTree| #[trigger] call_requires(*compute, (p, t)),
        forall|p: &StylePlane| #[trigger] box_tree::lays_out_every_box(compute, p),
        forall|l: &LaidOut| #[trigger] call_requires(*emit, (l,)),
    ensures
        is_painted(dom, stylesheets@, loader, recalc, marker, compute, emit, r),
{
    let laid = lay_out_document(dom, stylesheets, loader, recalc, marker, compute);
    emit(&laid)
}

/// Whether `fragments` are those of a document that is styled and laid out
/// without images.
pub open spec fn is_rendered<
    F: Fn(StylePlane, NodeId, &Vec<(NodeId, u64)>) -> StylePlane,
    M: Fn(&StylePlane, NodeId) -> Option<ComputedStyle>,
    C: Fn(&StylePlane, &BoxTree) -> Vec<Layout>,
>(
    dom: &Dom,
    stylesheets: Seq<&str>,
    recalc: &F,
    marker: &M,
    compute: &C,
    fragments: FragmentPlane,
) -> bool {
    exists|styles: StylePlane, images: ImagePlane, tree: BoxTree|
        {
            &&& styles_are(dom, stylesheets, recalc, marker, styles)
            &&& images@ == Map::<NodeId, DecodedImage>::empty()
            &&& #[trigger] box_tree::layout_is(dom, &styles, &images, compute, fragments, tree)
        }
}

/// Styles a document and lays it out, without images.
pub fn render<
    F: Fn(StylePlane, NodeId, &Vec<(NodeId, u64)>) -> StylePlane,
    M: Fn(&StylePlane, NodeId) -> Option<ComputedStyle>,
    C: Fn(&StylePlane, &BoxTree) -> Vec<Layout>,
>(dom: &Dom, stylesheets: &[&str], recalc: &F, marker: &M, compute: &C) -> (r: FragmentPlane)
    requires
        dom.wf(),
        forall|p: StylePlane, n: NodeId, c: &Vec<(NodeId, u64)>| #[trigger]
            call_requires(*recalc, (p, n, c)),
        forall|p: &StylePlane, n: NodeId| #[trigger] call_requires(*marker, (p, n)),
        forall|p: &StylePlane, t: &BoxTree| #[trigger] call_requires(*compute, (p, t)),
        forall|p: &StylePlane| #[trigger] box_tree::lays_out_every_box(compute, p),
    ensures
        is_rendered(dom, stylesheets@, recalc, marker, compute, r),
{
    let styles = style_from_nothing(dom, stylesheets, recalc, marker);
    let images = ImagePlane::new();
    assert(box_tree::lays_out_every_box(compute, &styles));
    let (fragments, tree) = layout(dom, &styles, &images, compute);
    assert(box_tree::layout_is(dom, &styles, &images, compute, fragments, tree));
    fragments
}

} // verus!
