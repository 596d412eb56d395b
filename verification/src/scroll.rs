//! Scrolling: how far content reaches, and where an input moves it.
//!
//! Offsets are in 64ths of a pixel.
use vstd::prelude::*;
use crate::dom::{Dom, NodeId};
use crate::fragment::FragmentPlane;
use crate::matching;
use crate::matching::first_element_child;
use crate::node_map::NodeMap;
use crate::style_plane::{ComputedStyle, Overflow, Position, StylePlane};

verus! {

/// How far an arrow key scrolls: forty pixels.
pub const LINE: i64 = 2560;

// ---------------------------------------------------------------------------
// The document
// ---------------------------------------------------------------------------
/// The window onto a document: its size in pixels, the axes that it scrolls on,
/// and how far it is scrolled.
#[derive(Clone, Copy, Debug, PartialEq, Eq)]
pub struct Viewport {
    pub width: i32,
    pub height: i32,
    pub scrolls_x: bool,
    pub scrolls_y: bool,
    pub scroll: (i64, i64),
}

/// A scrolling key.
#[derive(Clone, Copy, Debug, PartialEq, Eq, Structural)]
pub enum ScrollKey {
    Up,
    Down,
    Left,
    Right,
    PageUp,
    PageDown,
    Home,
    End,
}

/// An offset held between nothing and `limit`.
pub open spec fn held(v: int, limit: int) -> int {
    if v < 0 || limit < 0 {
        0
    } else if v > limit {
        limit
    } else {
        v
    }
}

/// An offset on an axis: it stays at zero on one that does not scroll.
pub open spec fn on_axis(scrolls: bool, v: int, limit: int) -> int {
    if scrolls {
        held(v, limit)
    } else {
        0
    }
}

fn hold(v: i128, limit: i64) -> (r: i64)
    ensures
        r == held(v as int, limit as int),
{
    if v < 0 || limit < 0 {
        0
    } else if v > limit as i128 {
        limit
    } else {
        v as i64
    }
}

/// Whether content that overflows is hidden, and not reached by scrolling.
pub open spec fn hides(overflow: Overflow) -> bool {
    overflow == Overflow::Hidden || overflow == Overflow::Clip
}

/// The computed values of the element at the root of a document.
pub open spec fn root_style(dom: &Dom, styles: &StylePlane) -> Option<ComputedStyle> {
    match matching::element_from(dom, dom.children_at(dom.root()), 0) {
        Some(root) => styles.primary_at(root),
        None => None,
    }
}

/// The window of a size onto a document, at its start: the overflow of the root
/// element is that of the window, so an axis on which the root hides it does not
/// scroll.
pub open spec fn document_viewport(dom: &Dom, styles: &StylePlane, width: i32, height: i32) -> Viewport {
    Viewport {
        width,
        height,
        scrolls_x: match root_style(dom, styles) {
            Some(s) => !hides(s.overflow_x),
            None => true,
        },
        scrolls_y: match root_style(dom, styles) {
            Some(s) => !hides(s.overflow_y),
            None => true,
        },
        scroll: (0, 0),
    }
}

impl Viewport {
    /// The window of a size onto a document, at its start.
    pub fn for_document(dom: &Dom, styles: &StylePlane, width: i32, height: i32) -> (r: Viewport)
        requires
            dom.wf(),
        ensures
            r == document_viewport(dom, styles, width, height),
    {
        let style = match first_element_child(dom, dom.document()) {
            Some(root) => styles.primary(root),
            None => None,
        };
        let (scrolls_x, scrolls_y) = match style {
            Some(s) => (
                s.overflow_x != Overflow::Hidden && s.overflow_x != Overflow::Clip,
                s.overflow_y != Overflow::Hidden && s.overflow_y != Overflow::Clip,
            ),
            None => (true, true),
        };
        Viewport { width, height, scrolls_x, scrolls_y, scroll: (0, 0) }
    }

    /// The offset that a wanted one comes to, given how far the document
    /// scrolls.
    pub open spec fn clamped(&self, want: (int, int), range: (i64, i64)) -> (int, int) {
        (
            on_axis(self.scrolls_x, want.0, range.0 as int),
            on_axis(self.scrolls_y, want.1, range.1 as int),
        )
    }

    /// The offset that a wanted one comes to.
    pub fn clamp_scroll(&self, want: (i128, i128), range: (i64, i64)) -> (r: (i64, i64))
        ensures
            (r.0 as int, r.1 as int) == self.clamped((want.0 as int, want.1 as int), range),
    {
        let x: i64 = if self.scrolls_x {
            hold(want.0, range.0)
        } else {
            0
        };
        let y: i64 = if self.scrolls_y {
            hold(want.1, range.1)
        } else {
            0
        };
        (x, y)
    }

    /// Whether `after` is this window scrolled to `want`.
    pub open spec fn scrolled_to(&self, want: (int, int), range: (i64, i64), after: Viewport) -> bool {
        &&& after == (Viewport { scroll: after.scroll, ..*self })
        &&& (after.scroll.0 as int, after.scroll.1 as int) == self.clamped(want, range)
    }

    /// Scrolls the document to an offset, as far as it goes.
    pub fn set_viewport_scroll(&mut self, want: (i128, i128), range: (i64, i64))
        ensures
            old(self).scrolled_to((want.0 as int, want.1 as int), range, *final(self)),
    {
        self.scroll = self.clamp_scroll(want, range);
    }

    /// Scrolls the document by a distance, as far as it goes.
    pub fn scroll_by(&mut self, dx: i64, dy: i64, range: (i64, i64)) -> (r: (i64, i64))
        ensures
            old(self).scrolled_to(
                (old(self).scroll.0 + dx, old(self).scroll.1 + dy),
                range,
                *final(self),
            ),
            r == final(self).scroll,
    {
        let x: i128 = self.scroll.0 as i128 + dx as i128;
        let y: i128 = self.scroll.1 as i128 + dy as i128;
        self.set_viewport_scroll((x, y), range);
        self.scroll
    }

    /// How far a page key scrolls: the height of the window less a line, and a
    /// line at least.
    pub open spec fn page(&self) -> int {
        if self.height * 64 - LINE > LINE {
            self.height * 64 - LINE
        } else {
            LINE as int
        }
    }

    /// Where a key wants the document scrolled to.
    pub open spec fn wanted_by(&self, key: ScrollKey, range: (i64, i64)) -> (int, int) {
        let (x, y) = (self.scroll.0 as int, self.scroll.1 as int);
        match key {
            ScrollKey::Up => (x, y - LINE),
            ScrollKey::Down => (x, y + LINE),
            ScrollKey::Left => (x - LINE, y),
            ScrollKey::Right => (x + LINE, y),
            ScrollKey::PageUp => (x, y - self.page()),
            ScrollKey::PageDown => (x, y + self.page()),
            ScrollKey::Home => (x, 0),
            ScrollKey::End => (x, range.1 as int),
        }
    }

    /// Scrolls the document for a key, and says whether it moved.
    pub fn scroll_for_key(&mut self, key: ScrollKey, range: (i64, i64)) -> (r: bool)
        ensures
            old(self).scrolled_to(old(self).wanted_by(key, range), range, *final(self)),
            r == (final(self).scroll != old(self).scroll),
    {
        let before = self.scroll;
        let x: i128 = before.0 as i128;
        let y: i128 = before.1 as i128;
        let line: i128 = LINE as i128;
        let tall: i128 = self.height as i128 * 64 - line;
        let page: i128 = if tall > line {
            tall
        } else {
            line
        };
        let want: (i128, i128) = match key {
            ScrollKey::Up => (x, y - line),
            ScrollKey::Down => (x, y + line),
            ScrollKey::Left => (x - line, y),
            ScrollKey::Right => (x + line, y),
            ScrollKey::PageUp => (x, y - page),
            ScrollKey::PageDown => (x, y + page),
            ScrollKey::Home => (x, 0),
            ScrollKey::End => (x, range.1 as i128),
        };
        self.set_viewport_scroll(want, range);
        self.scroll.0 != before.0 || self.scroll.1 != before.1
    }
}

/// A root element that hides its overflow on an axis keeps the document at its start
/// there, wherever it is scrolled to.
pub proof fn a_hiding_root_pins_the_document(
    dom: &Dom,
    styles: &StylePlane,
    width: i32,
    height: i32,
    want: (int, int),
    range: (i64, i64),
    after: Viewport,
)
    requires
        document_viewport(dom, styles, width, height).scrolled_to(want, range, after),
    ensures
        match root_style(dom, styles) {
            Some(s) => {
                &&& hides(s.overflow_x) ==> after.scroll.0 == 0
                &&& hides(s.overflow_y) ==> after.scroll.1 == 0
            },
            None => true,
        },
{
}

/// The offset on one axis that brings what lies from `start` to `end` into a
/// window of a size, moving as little as it can: what lies before the window
/// comes to its start, what reaches past it comes to its end, and what does not
/// fit shows its start.
pub open spec fn nearest(offset: int, size: int, start: int, end: int) -> int {
    if start < offset {
        start
    } else if end > offset + size {
        if end - size < start {
            end - size
        } else {
            start
        }
    } else {
        offset
    }
}

/// The offset on one axis that brings a range into view.
pub fn nearest_offset(offset: i128, size: i128, start: i128, end: i128) -> (r: i128)
    requires
        -0x1_0000_0000_0000_0000_0000_0000_0000 <= offset <= 0x1_0000_0000_0000_0000_0000_0000_0000,
        0 <= size <= 0x1_0000_0000_0000_0000_0000_0000_0000,
        -0x1_0000_0000_0000_0000_0000_0000_0000 <= start <= 0x1_0000_0000_0000_0000_0000_0000_0000,
        -0x1_0000_0000_0000_0000_0000_0000_0000 <= end <= 0x1_0000_0000_0000_0000_0000_0000_0000,
    ensures
        r == nearest(offset as int, size as int, start as int, end as int),
{
    if start < offset {
        start
    } else if end > offset + size {
        if end - size < start {
            end - size
        } else {
            start
        }
    } else {
        offset
    }
}

/// What lies in the window does not move it; after a move, what fits lies in
/// the window, and of what does not the start does.
pub proof fn nearest_brings_into_view(offset: int, size: int, start: int, end: int)
    requires
        start <= end,
        0 <= size,
    ensures
        offset <= start && end <= offset + size ==> nearest(offset, size, start, end) == offset,
        end - start <= size ==> nearest(offset, size, start, end) <= start && end <= nearest(
            offset,
            size,
            start,
            end,
        ) + size,
        end - start > size ==> nearest(offset, size, start, end) == start,
{
}

/// A scrolled document stays within what it scrolls, and on an axis that does
/// not scroll it stays at its start.
pub proof fn a_scroll_stays_in_range(
    before: Viewport,
    want: (int, int),
    range: (i64, i64),
    after: Viewport,
)
    requires
        before.scrolled_to(want, range, after),
        0 <= range.0,
        0 <= range.1,
    ensures
        0 <= after.scroll.0 <= range.0,
        0 <= after.scroll.1 <= range.1,
        !before.scrolls_x ==> after.scroll.0 == 0,
        !before.scrolls_y ==> after.scroll.1 == 0,
        after.scrolled_to((after.scroll.0 as int, after.scroll.1 as int), range, after),
{
}

// ---------------------------------------------------------------------------
// Nested containers
// ---------------------------------------------------------------------------
/// Whether an element is fixed to the window.
pub open spec fn is_fixed(style: Option<ComputedStyle>) -> bool {
    style matches Some(s) && s.position == Position::Fixed
}

/// Whether an element cuts off what overflows it.
pub open spec fn clips_overflow(style: Option<ComputedStyle>) -> bool {
    style matches Some(s) && (s.overflow_x != Overflow::Visible || s.overflow_y
        != Overflow::Visible)
}

/// Whether an `overflow` lets the user scroll.
pub open spec fn scrolls(o: Overflow) -> bool {
    o == Overflow::Scroll || o == Overflow::Auto
}

/// The further of two edges, per axis.
pub open spec fn further(a: (int, int), b: (int, int)) -> (int, int) {
    (
        if b.0 > a.0 {
            b.0
        } else {
            a.0
        },
        if b.1 > a.1 {
            b.1
        } else {
            a.1
        },
    )
}

/// How far an element and what is in it reach, from `extent` on, where its
/// parent starts at `base`. What is fixed to the window does not count, and
/// what cuts off its overflow counts by its own box.
pub open spec fn far_edge(
    dom: &Dom,
    styles: &StylePlane,
    fragments: &FragmentPlane,
    id: NodeId,
    base: (int, int),
    extent: (int, int),
) -> (int, int)
    decreases usize::MAX - dom.depth_at(id), dom.children_at(id).len() + 1,
    when dom.wf() && dom.has(id)
{
    let style = styles.primary_at(id);
    if is_fixed(style) {
        extent
    } else {
        let at = if fragments.rects@.contains_key(id) {
            let l = fragments.rects@[id];
            (base.0 + l.x, base.1 + l.y)
        } else {
            base
        };
        let own = if fragments.rects@.contains_key(id) {
            let l = fragments.rects@[id];
            further(extent, (at.0 + l.width, at.1 + l.height))
        } else {
            extent
        };
        if clips_overflow(style) {
            own
        } else {
            far_edge_upto(dom, styles, fragments, id, at, own, dom.children_at(id).len())
        }
    }
}

/// How far the first `k` children of an element and what is in them reach.
pub open spec fn far_edge_upto(
    dom: &Dom,
    styles: &StylePlane,
    fragments: &FragmentPlane,
    id: NodeId,
    at: (int, int),
    extent: (int, int),
    k: nat,
) -> (int, int)
    decreases usize::MAX - dom.depth_at(id), k,
    when dom.wf() && dom.has(id) && k <= dom.children_at(id).len()
{
    if k == 0 {
        extent
    } else {
        far_edge(
            dom,
            styles,
            fragments,
            dom.children_at(id)[k - 1],
            at,
            far_edge_upto(dom, styles, fragments, id, at, extent, (k - 1) as nat),
        )
    }
}

/// How far the content of an element reaches from where the element starts.
pub open spec fn content_edge(
    dom: &Dom,
    styles: &StylePlane,
    fragments: &FragmentPlane,
    id: NodeId,
) -> (int, int) {
    far_edge_upto(
        dom,
        styles,
        fragments,
        id,
        (0int, 0int),
        (0int, 0int),
        dom.children_at(id).len(),
    )
}

/// A bound on the places below a node of a depth.
pub open spec fn span_of_depth(depth: int) -> int {
    (depth + 1) * 0x1_0000_0000
}

/// A bound on every place in a document.
pub open spec fn widest() -> int {
    0x1_0000_0000_0000_0000_0000_0000_0000int
}

fn accumulate_far_edge(
    dom: &Dom,
    styles: &StylePlane,
    fragments: &FragmentPlane,
    id: NodeId,
    base: (i128, i128),
    extent: (i128, i128),
) -> (r: (i128, i128))
    requires
        dom.wf(),
        dom.has(id),
        -span_of_depth(dom.depth_at(id) as int) <= base.0 <= span_of_depth(
            dom.depth_at(id) as int,
        ),
        -span_of_depth(dom.depth_at(id) as int) <= base.1 <= span_of_depth(
            dom.depth_at(id) as int,
        ),
        0 <= extent.0 <= widest(),
        0 <= extent.1 <= widest(),
    ensures
        (r.0 as int, r.1 as int) == far_edge(
            dom,
            styles,
            fragments,
            id,
            (base.0 as int, base.1 as int),
            (extent.0 as int, extent.1 as int),
        ),
        0 <= r.0 <= widest(),
        0 <= r.1 <= widest(),
    decreases usize::MAX - dom.depth_at(id),
{
    let style = styles.primary(id);
    let mut clips = false;
    if let Some(s) = style {
        if s.position == Position::Fixed {
            return extent;
        }
        clips = s.overflow_x != Overflow::Visible || s.overflow_y != Overflow::Visible;
    }
    let mut at: (i128, i128) = base;
    let mut reached: (i128, i128) = extent;
    if let Some(l) = fragments.rect_of(id) {
        let x: i128 = base.0 + l.x as i128;
        let y: i128 = base.1 + l.y as i128;
        at = (x, y);
        let right: i128 = x + l.width as i128;
        let bottom: i128 = y + l.height as i128;
        reached =
        (
            if right > extent.0 {
                right
            } else {
                extent.0
            },
            if bottom > extent.1 {
                bottom
            } else {
                extent.1
            },
        );
    }
    if clips {
        return reached;
    }
    let ghost own = reached;
    let children = dom.dom_children(id);
    let mut k: usize = 0;
    while k < children.len()
        invariant
            dom.wf(),
            dom.has(id),
            children@ == dom.children_at(id),
            k <= children@.len(),
            -span_of_depth(dom.depth_at(id) + 1) <= at.0 <= span_of_depth(dom.depth_at(id) + 1),
            -span_of_depth(dom.depth_at(id) + 1) <= at.1 <= span_of_depth(dom.depth_at(id) + 1),
            0 <= reached.0 <= widest(),
            0 <= reached.1 <= widest(),
            (reached.0 as int, reached.1 as int) == far_edge_upto(
                dom,
                styles,
                fragments,
                id,
                (at.0 as int, at.1 as int),
                (own.0 as int, own.1 as int),
                k as nat,
            ),
        decreases children.len() - k,
    {
        let child = children[k];
        assert(dom.has(dom.children_at(id)[k as int]));
        assert(dom.parent_at(dom.children_at(id)[k as int]) == Some(id));
        reached = accumulate_far_edge(dom, styles, fragments, child, at, reached);
        k += 1;
    }
    reached
}

/// How far the content of an element reaches from where the element starts.
pub fn content_far_edge(
    dom: &Dom,
    styles: &StylePlane,
    fragments: &FragmentPlane,
    id: NodeId,
) -> (r: (i128, i128))
    requires
        dom.wf(),
        dom.has(id),
    ensures
        (r.0 as int, r.1 as int) == content_edge(dom, styles, fragments, id),
        0 <= r.0 <= widest(),
        0 <= r.1 <= widest(),
{
    let children = dom.dom_children(id);
    let mut reached: (i128, i128) = (0, 0);
    let mut k: usize = 0;
    while k < children.len()
        invariant
            dom.wf(),
            dom.has(id),
            children@ == dom.children_at(id),
            k <= children@.len(),
            0 <= reached.0 <= widest(),
            0 <= reached.1 <= widest(),
            (reached.0 as int, reached.1 as int) == far_edge_upto(
                dom,
                styles,
                fragments,
                id,
                (0int, 0int),
                (0int, 0int),
                k as nat,
            ),
        decreases children.len() - k,
    {
        let child = children[k];
        assert(dom.has(dom.children_at(id)[k as int]));
        reached = accumulate_far_edge(dom, styles, fragments, child, (0, 0), reached);
        k += 1;
    }
    reached
}

/// How far a container scrolls, in units: until the far edge of its content and
/// its end padding reach the inner side of its border. No further than an offset
/// can hold.
pub open spec fn extent_of(edge: int, padding: int, size: int, border: int) -> int {
    let over = edge + padding - (size - border);
    if over <= 0 {
        0
    } else if over * 64 > i64::MAX {
        i64::MAX as int
    } else {
        over * 64
    }
}

/// How far a container scrolls on both axes; not at all where it was not laid
/// out.
pub open spec fn scroll_limit(
    dom: &Dom,
    styles: &StylePlane,
    fragments: &FragmentPlane,
    id: NodeId,
) -> (int, int) {
    if fragments.rects@.contains_key(id) {
        let l = fragments.rects@[id];
        let edge = content_edge(dom, styles, fragments, id);
        (
            extent_of(edge.0, l.padding.right as int, l.width as int, l.border.right as int),
            extent_of(edge.1, l.padding.bottom as int, l.height as int, l.border.bottom as int),
        )
    } else {
        (0, 0)
    }
}

fn extent_units(edge: i128, padding: i32, size: i32, border: i32) -> (r: i64)
    requires
        0 <= edge <= widest(),
    ensures
        r == extent_of(edge as int, padding as int, size as int, border as int),
{
    let over: i128 = edge + padding as i128 - (size as i128 - border as i128);
    if over <= 0 {
        0
    } else if over * 64 > i64::MAX as i128 {
        i64::MAX
    } else {
        (over * 64) as i64
    }
}

/// How far a document scrolls in a window, in units: as far as its content
/// reaches beyond the window on each axis. No further than an offset can hold.
pub open spec fn document_range(
    dom: &Dom,
    styles: &StylePlane,
    fragments: &FragmentPlane,
    width: int,
    height: int,
) -> (int, int) {
    let edge = content_edge(dom, styles, fragments, dom.root());
    (extent_of(edge.0, 0, width, 0), extent_of(edge.1, 0, height, 0))
}

/// How far a document scrolls in a window on both axes.
pub fn document_scroll_range(
    dom: &Dom,
    styles: &StylePlane,
    fragments: &FragmentPlane,
    width: i32,
    height: i32,
) -> (r: (i64, i64))
    requires
        dom.wf(),
    ensures
        (r.0 as int, r.1 as int) == document_range(
            dom,
            styles,
            fragments,
            width as int,
            height as int,
        ),
        0 <= r.0,
        0 <= r.1,
{
    let edge = content_far_edge(dom, styles, fragments, dom.document());
    (extent_units(edge.0, 0, width, 0), extent_units(edge.1, 0, height, 0))
}

/// How far a container scrolls on both axes.
pub fn scroll_extent(dom: &Dom, styles: &StylePlane, fragments: &FragmentPlane, id: NodeId) -> (r: (
    i64,
    i64,
))
    requires
        dom.wf(),
        dom.has(id),
    ensures
        (r.0 as int, r.1 as int) == scroll_limit(dom, styles, fragments, id),
{
    match fragments.rect_of(id) {
        Some(l) => {
            let edge = content_far_edge(dom, styles, fragments, id);
            (
                extent_units(edge.0, l.padding.right, l.width, l.border.right),
                extent_units(edge.1, l.padding.bottom, l.height, l.border.bottom),
            )
        },
        None => (0, 0),
    }
}

/// The offset of a container that some offsets may hold.
pub open spec fn offset_at(offsets: Map<NodeId, (i64, i64)>, id: NodeId) -> (i64, i64) {
    if offsets.contains_key(id) {
        offsets[id]
    } else {
        (0, 0)
    }
}

/// Where a distance moves one axis of a container: nowhere where the axis does
/// not scroll.
pub open spec fn stepped(o: Overflow, cur: int, d: int, limit: int) -> int {
    if scrolls(o) {
        held(cur + d, limit)
    } else {
        cur
    }
}

/// The offset that a distance moves a container to. `None` where it scrolls on
/// no axis, or does not move.
pub open spec fn step(
    dom: &Dom,
    styles: &StylePlane,
    fragments: &FragmentPlane,
    offsets: Map<NodeId, (i64, i64)>,
    id: NodeId,
    d: (i64, i64),
) -> Option<(int, int)> {
    match styles.primary_at(id) {
        Some(s) => {
            let cur = offset_at(offsets, id);
            let limit = scroll_limit(dom, styles, fragments, id);
            let next = (
                stepped(s.overflow_x, cur.0 as int, d.0 as int, limit.0),
                stepped(s.overflow_y, cur.1 as int, d.1 as int, limit.1),
            );
            if (!scrolls(s.overflow_x) && !scrolls(s.overflow_y)) || next == (
                cur.0 as int,
                cur.1 as int,
            ) {
                None
            } else {
                Some(next)
            }
        },
        None => None,
    }
}

/// The offset that a distance moves a container to.
pub fn scroll_step(
    dom: &Dom,
    styles: &StylePlane,
    fragments: &FragmentPlane,
    offsets: &NodeMap<(i64, i64)>,
    id: NodeId,
    dx: i64,
    dy: i64,
) -> (r: Option<(i64, i64)>)
    requires
        dom.wf(),
        dom.has(id),
    ensures
        step(dom, styles, fragments, offsets@, id, (dx, dy)) == (match r {
            Some(o) => Some((o.0 as int, o.1 as int)),
            None => None,
        }),
{
    let style = match styles.primary(id) {
        Some(s) => s,
        None => return None,
    };
    let sx = style.overflow_x == Overflow::Scroll || style.overflow_x == Overflow::Auto;
    let sy = style.overflow_y == Overflow::Scroll || style.overflow_y == Overflow::Auto;
    if !sx && !sy {
        return None;
    }
    let limit = scroll_extent(dom, styles, fragments, id);
    let cur: (i64, i64) = match offsets.get(id) {
        Some(o) => *o,
        None => (0, 0),
    };
    let nx: i64 = if sx {
        hold(cur.0 as i128 + dx as i128, limit.0)
    } else {
        cur.0
    };
    let ny: i64 = if sy {
        hold(cur.1 as i128 + dy as i128, limit.1)
    } else {
        cur.1
    };
    if nx == cur.0 && ny == cur.1 {
        None
    } else {
        Some((nx, ny))
    }
}

/// The container that a distance moves, from a node up: the nearest that moves,
/// with the offset that it moves to.
pub open spec fn mover(
    dom: &Dom,
    styles: &StylePlane,
    fragments: &FragmentPlane,
    offsets: Map<NodeId, (i64, i64)>,
    from: Option<NodeId>,
    d: (i64, i64),
) -> Option<(NodeId, (int, int))>
    decreases
            match from {
                Some(id) => dom.depth_at(id) + 1,
                None => 0,
            },
    when dom.wf() && (from matches Some(id) ==> dom.has(id))
{
    match from {
        Some(id) => match step(dom, styles, fragments, offsets, id, d) {
            Some(next) => Some((id, next)),
            None => mover(dom, styles, fragments, offsets, dom.parent_at(id), d),
        },
        None => None,
    }
}

/// Whether `offsets` and `viewport` are what a distance leaves: the container
/// that moves is at its new offset, or else the document is scrolled. `moved`
/// says whether anything did.
pub open spec fn scrolled_at(
    moves: Option<(NodeId, (int, int))>,
    offsets_before: Map<NodeId, (i64, i64)>,
    viewport_before: Viewport,
    range: (i64, i64),
    d: (i64, i64),
    offsets: Map<NodeId, (i64, i64)>,
    viewport: Viewport,
    moved: bool,
) -> bool {
    match moves {
        Some((id, next)) => {
            &&& moved
            &&& viewport == viewport_before
            &&& offsets.dom() == offsets_before.dom().insert(id)
            &&& (offsets[id].0 as int, offsets[id].1 as int) == next
            &&& forall|k: NodeId|
                k != id && offsets_before.contains_key(k) ==> #[trigger] offsets[k]
                    == offsets_before[k]
        },
        None => {
            &&& offsets == offsets_before
            &&& viewport_before.scrolled_to(
                (viewport_before.scroll.0 + d.0, viewport_before.scroll.1 + d.1),
                range,
                viewport,
            )
            &&& moved == (viewport.scroll != viewport_before.scroll)
        },
    }
}

/// Scrolls by a distance for an input over a node: the nearest container from
/// the node up that moves, else the document. Says whether anything moved.
pub fn scroll_from(
    dom: &Dom,
    styles: &StylePlane,
    fragments: &FragmentPlane,
    offsets: &mut NodeMap<(i64, i64)>,
    viewport: &mut Viewport,
    range: (i64, i64),
    hit: Option<NodeId>,
    dx: i64,
    dy: i64,
) -> (r: bool)
    requires
        dom.wf(),
        hit matches Some(id) ==> dom.has(id),
    ensures
        scrolled_at(
            mover(dom, styles, fragments, old(offsets)@, hit, (dx, dy)),
            old(offsets)@,
            *old(viewport),
            range,
            (dx, dy),
            final(offsets)@,
            *final(viewport),
            r,
        ),
{
    let mut node: Option<NodeId> = hit;
    while node.is_some()
        invariant
            dom.wf(),
            node matches Some(id) ==> dom.has(id),
            offsets@ == old(offsets)@,
            *viewport == *old(viewport),
            mover(dom, styles, fragments, offsets@, node, (dx, dy)) == mover(
                dom,
                styles,
                fragments,
                old(offsets)@,
                hit,
                (dx, dy),
            ),
        decreases
                match node {
                    Some(id) => dom.depth_at(id) + 1,
                    None => 0,
                },
    {
        let id: NodeId = node.unwrap();
        if let Some(next) = scroll_step(dom, styles, fragments, offsets, id, dx, dy) {
            offsets.insert(id, next);
            return true;
        }
        node = dom.parent(id);
    }
    let before = viewport.scroll;
    viewport.scroll_by(dx, dy, range);
    viewport.scroll.0 != before.0 || viewport.scroll.1 != before.1
}

/// A container at its limit passes the distance on: it is moved only where its
/// offset changes, and then it scrolls on some axis.
pub proof fn what_moves_scrolls(
    dom: &Dom,
    styles: &StylePlane,
    fragments: &FragmentPlane,
    offsets: Map<NodeId, (i64, i64)>,
    from: Option<NodeId>,
    d: (i64, i64),
)
    requires
        dom.wf(),
        from matches Some(id) ==> dom.has(id),
    ensures
        mover(dom, styles, fragments, offsets, from, d) matches Some((id, next)) ==> {
            &&& next != (offset_at(offsets, id).0 as int, offset_at(offsets, id).1 as int)
            &&& styles.primary_at(id) matches Some(s) && (scrolls(s.overflow_x) || scrolls(
                s.overflow_y,
            ))
        },
    decreases
            match from {
                Some(id) => dom.depth_at(id) + 1,
                None => 0,
            },
{
    if let Some(id) = from {
        what_moves_scrolls(dom, styles, fragments, offsets, dom.parent_at(id), d);
    }
}

/// The offsets of both maps; where both hold one, that of the host.
pub fn merged_scroll(own: &NodeMap<(i64, i64)>, host: &NodeMap<(i64, i64)>) -> (r: NodeMap<
    (i64, i64),
>)
    ensures
        r@ == own@.union_prefer_right(host@),
{
    let mut merged: NodeMap<(i64, i64)> = NodeMap::new();
    copy_offsets(own, &mut merged);
    copy_offsets(host, &mut merged);
    assert(merged@ =~= own@.union_prefer_right(host@));
    merged
}

fn copy_offsets(from: &NodeMap<(i64, i64)>, to: &mut NodeMap<(i64, i64)>)
    ensures
        final(to)@ == old(to)@.union_prefer_right(from@),
{
    let keys = from.keys();
    let ghost before = to@;
    let mut i: usize = 0;
    while i < keys.len()
        invariant
            i <= keys@.len(),
            forall|k: NodeId| #[trigger] keys@.contains(k) <==> from@.contains_key(k),
            forall|k: NodeId| #[trigger]
                to@.contains_key(k) <==> before.contains_key(k) || keys@.take(i as int).contains(k),
            forall|k: NodeId|
                to@.contains_key(k) ==> #[trigger] to@[k] == if keys@.take(i as int).contains(k) {
                    from@[k]
                } else {
                    before[k]
                },
        decreases keys.len() - i,
    {
        let id = keys[i];
        assert(keys@.contains(keys@[i as int]));
        let ghost now = to@;
        if let Some(o) = from.get(id) {
            to.insert(id, *o);
        }
        assert forall|k: NodeId| #[trigger]
            keys@.take(i + 1).contains(k) <==> keys@.take(i as int).contains(k) || k == id by {
            let a = keys@.take(i as int);
            let b = keys@.take(i + 1);
            assert(b =~= a.push(id));
            if a.contains(k) {
                let j = a.index_of(k);
                assert(b[j] == k);
            }
            if b.contains(k) {
                let j = b.index_of(k);
                if j < i {
                    assert(a[j] == k);
                }
            }
            assert(b[i as int] == id);
        }
        assert forall|k: NodeId| #[trigger]
            to@.contains_key(k) <==> before.contains_key(k) || keys@.take(i + 1).contains(k) by {
            assert(now.contains_key(k) <==> before.contains_key(k) || keys@.take(i as int).contains(
                k,
            ));
        }
        assert forall|k: NodeId| to@.contains_key(k) implies #[trigger] to@[k] == if keys@.take(
            i + 1,
        ).contains(k) {
            from@[k]
        } else {
            before[k]
        } by {
            assert(now.contains_key(k) || k == id);
            assert(k != id ==> now[k] == to@[k]);
        }
        i += 1;
    }
    assert(keys@.take(i as int) =~= keys@);
    assert(to@ =~= before.union_prefer_right(from@));
}

// ---------------------------------------------------------------------------
// Laws
// ---------------------------------------------------------------------------
/// A scroll goes where it is wanted, as far as the document goes, on each axis that
/// scrolls; the window's size and axes stay.
pub proof fn a_scroll_goes_where_it_is_wanted(
    before: Viewport,
    want: (int, int),
    range: (i64, i64),
    after: Viewport,
)
    requires
        before.scrolled_to(want, range, after),
        0 <= range.0,
        0 <= range.1,
    ensures
        after.width == before.width,
        after.height == before.height,
        after.scrolls_x == before.scrolls_x,
        after.scrolls_y == before.scrolls_y,
        before.scrolls_x && 0 <= want.0 <= range.0 ==> after.scroll.0 == want.0,
        before.scrolls_x && want.0 < 0 ==> after.scroll.0 == 0,
        before.scrolls_x && range.0 < want.0 ==> after.scroll.0 == range.0,
        before.scrolls_y && 0 <= want.1 <= range.1 ==> after.scroll.1 == want.1,
        before.scrolls_y && want.1 < 0 ==> after.scroll.1 == 0,
        before.scrolls_y && range.1 < want.1 ==> after.scroll.1 == range.1,
        !before.scrolls_x ==> after.scroll.0 == 0,
        !before.scrolls_y ==> after.scroll.1 == 0,
{
}

/// An arrow key scrolls by forty pixels in its direction, a page key by the height
/// of the window less forty pixels and by forty at least, and the home and end keys
/// to the start and the end of the document. The other axis stays. Nothing scrolls
/// past an end.
pub proof fn a_key_scrolls_the_document(
    before: Viewport,
    key: ScrollKey,
    range: (i64, i64),
    after: Viewport,
)
    requires
        before.scrolled_to(before.wanted_by(key, range), range, after),
        before.scrolls_x,
        before.scrolls_y,
        0 <= before.scroll.0 <= range.0,
        0 <= before.scroll.1 <= range.1,
    ensures
        ({
            let (x, y) = (before.scroll.0 as int, before.scroll.1 as int);
            let (nx, ny) = (after.scroll.0 as int, after.scroll.1 as int);
            let line = 2560int;
            let page = if before.height > 80 {
                (before.height - 40) * 64
            } else {
                2560int
            };
            match key {
                ScrollKey::Up => nx == x && ny == (if y < line {
                    0
                } else {
                    y - line
                }),
                ScrollKey::Down => nx == x && ny == (if range.1 - y < line {
                    range.1 as int
                } else {
                    y + line
                }),
                ScrollKey::Left => ny == y && nx == (if x < line {
                    0
                } else {
                    x - line
                }),
                ScrollKey::Right => ny == y && nx == (if range.0 - x < line {
                    range.0 as int
                } else {
                    x + line
                }),
                ScrollKey::PageUp => nx == x && ny == (if y < page {
                    0
                } else {
                    y - page
                }),
                ScrollKey::PageDown => nx == x && ny == (if range.1 - y < page {
                    range.1 as int
                } else {
                    y + page
                }),
                ScrollKey::Home => nx == x && ny == 0,
                ScrollKey::End => nx == x && ny == range.1,
            }
        }),
{
}

/// A document scrolls on an axis unless its root element hides what overflows it
/// there; one without a styled root scrolls on both.
pub proof fn a_document_scrolls_unless_its_root_hides(
    dom: &Dom,
    styles: &StylePlane,
    width: i32,
    height: i32,
)
    ensures
        ({
            let v = document_viewport(dom, styles, width, height);
            &&& v.width == width && v.height == height
            &&& v.scroll == (0i64, 0i64)
            &&& match root_style(dom, styles) {
                Some(s) => {
                    &&& v.scrolls_x <==> s.overflow_x == Overflow::Visible || s.overflow_x
                        == Overflow::Scroll || s.overflow_x == Overflow::Auto
                    &&& v.scrolls_y <==> s.overflow_y == Overflow::Visible || s.overflow_y
                        == Overflow::Scroll || s.overflow_y == Overflow::Auto
                },
                None => v.scrolls_x && v.scrolls_y,
            }
        }),
{
}

proof fn lemma_further_out(
    dom: &Dom,
    styles: &StylePlane,
    fragments: &FragmentPlane,
    id: NodeId,
    base: (int, int),
    a: (int, int),
    b: (int, int),
)
    requires
        dom.wf(),
        dom.has(id),
    ensures
        far_edge(dom, styles, fragments, id, base, further(a, b)) == further(
            a,
            far_edge(dom, styles, fragments, id, base, b),
        ),
    decreases usize::MAX - dom.depth_at(id), dom.children_at(id).len() + 1,
{
    let style = styles.primary_at(id);
    if !is_fixed(style) {
        let l = fragments.rects@[id];
        let boxed = fragments.rects@.contains_key(id);
        let at = if boxed {
            (base.0 + l.x, base.1 + l.y)
        } else {
            base
        };
        let edge = (at.0 + l.width, at.1 + l.height);
        let own = if boxed {
            further(b, edge)
        } else {
            b
        };
        assert(further(further(a, b), edge) == further(a, further(b, edge)));
        if !clips_overflow(style) {
            lemma_further_out_upto(
                dom,
                styles,
                fragments,
                id,
                at,
                a,
                own,
                dom.children_at(id).len(),
            );
        }
    }
}

proof fn lemma_further_out_upto(
    dom: &Dom,
    styles: &StylePlane,
    fragments: &FragmentPlane,
    id: NodeId,
    at: (int, int),
    a: (int, int),
    b: (int, int),
    k: nat,
)
    requires
        dom.wf(),
        dom.has(id),
        k <= dom.children_at(id).len(),
    ensures
        far_edge_upto(dom, styles, fragments, id, at, further(a, b), k) == further(
            a,
            far_edge_upto(dom, styles, fragments, id, at, b, k),
        ),
    decreases usize::MAX - dom.depth_at(id), k,
{
    if k > 0 {
        let child = dom.children_at(id)[k - 1];
        assert(dom.has(child) && dom.parent_at(child) == Some(id));
        let m = (k - 1) as nat;
        lemma_further_out_upto(dom, styles, fragments, id, at, a, b, m);
        lemma_further_out(
            dom,
            styles,
            fragments,
            child,
            at,
            a,
            far_edge_upto(dom, styles, fragments, id, at, b, m),
        );
    }
}

/// Whether `edge` is as far as any of some reaches on both axes, and no further.
pub open spec fn is_the_furthest(edge: (int, int), reaches: Seq<(int, int)>) -> bool {
    &&& forall|i: int|
        0 <= i < reaches.len() ==> (#[trigger] reaches[i]).0 <= edge.0 && reaches[i].1 <= edge.1
    &&& exists|i: int| 0 <= i < reaches.len() && (#[trigger] reaches[i]).0 == edge.0
    &&& exists|i: int| 0 <= i < reaches.len() && (#[trigger] reaches[i]).1 == edge.1
}

/// How far each of an element's children reaches, and how far was reached before
/// them.
pub open spec fn reaches_below(
    dom: &Dom,
    styles: &StylePlane,
    fragments: &FragmentPlane,
    id: NodeId,
    at: (int, int),
    extent: (int, int),
) -> Seq<(int, int)> {
    seq![extent] + dom.children_at(id).map_values(
        |c: NodeId| far_edge(dom, styles, fragments, c, at, extent),
    )
}

proof fn lemma_far_edge_upto_is_the_furthest(
    dom: &Dom,
    styles: &StylePlane,
    fragments: &FragmentPlane,
    id: NodeId,
    at: (int, int),
    extent: (int, int),
    k: nat,
)
    requires
        dom.wf(),
        dom.has(id),
        k <= dom.children_at(id).len(),
    ensures
        is_the_furthest(
            far_edge_upto(dom, styles, fragments, id, at, extent, k),
            reaches_below(dom, styles, fragments, id, at, extent).take(k as int + 1),
        ),
    decreases k,
{
    let all = reaches_below(dom, styles, fragments, id, at, extent);
    let some = all.take(k as int + 1);
    let edge = far_edge_upto(dom, styles, fragments, id, at, extent, k);
    if k == 0 {
        assert(some =~= seq![extent]);
        assert(some[0] == edge);
    } else {
        let m = (k - 1) as nat;
        let child = dom.children_at(id)[k - 1];
        assert(dom.has(child) && dom.parent_at(child) == Some(id));
        lemma_far_edge_upto_is_the_furthest(dom, styles, fragments, id, at, extent, m);
        let fewer = all.take(m as int + 1);
        let before = far_edge_upto(dom, styles, fragments, id, at, extent, m);
        let own = far_edge(dom, styles, fragments, child, at, extent);
        assert(fewer[0] == extent);
        assert(further(before, extent) == before);
        lemma_further_out(dom, styles, fragments, child, at, before, extent);
        assert(edge == further(before, own));
        assert(some[k as int] == own);
        assert forall|i: int| 0 <= i < some.len() implies (#[trigger] some[i]).0 <= edge.0
            && some[i].1 <= edge.1 by {
            if i < fewer.len() {
                assert(some[i] == fewer[i]);
            }
        }
        let i = choose|i: int| 0 <= i < fewer.len() && (#[trigger] fewer[i]).0 == before.0;
        assert(some[i] == fewer[i]);
        let j = choose|j: int| 0 <= j < fewer.len() && (#[trigger] fewer[j]).1 == before.1;
        assert(some[j] == fewer[j]);
    }
}

/// An element that is fixed to the window does not count. Any other reaches as far
/// as its box, and one that does not cut off its overflow as far as the furthest of
/// its children too, each of them measured from where the element starts.
pub proof fn an_element_reaches_as_far_as_what_is_in_it(
    dom: &Dom,
    styles: &StylePlane,
    fragments: &FragmentPlane,
    id: NodeId,
    base: (int, int),
    extent: (int, int),
)
    requires
        dom.wf(),
        dom.has(id),
    ensures
        ({
            let edge = far_edge(dom, styles, fragments, id, base, extent);
            let l = fragments.rects@[id];
            let boxed = fragments.rects@.contains_key(id);
            let at = if boxed {
                (base.0 + l.x, base.1 + l.y)
            } else {
                base
            };
            let own = if boxed {
                further(extent, (at.0 + l.width, at.1 + l.height))
            } else {
                extent
            };
            let cuts = styles.primary_at(id) matches Some(s) && (s.overflow_x != Overflow::Visible
                || s.overflow_y != Overflow::Visible);
            if styles.primary_at(id) matches Some(s) && s.position == Position::Fixed {
                edge == extent
            } else if cuts {
                edge == own
            } else {
                is_the_furthest(edge, reaches_below(dom, styles, fragments, id, at, own))
            }
        }),
{
    let style = styles.primary_at(id);
    if !is_fixed(style) && !clips_overflow(style) {
        let l = fragments.rects@[id];
        let boxed = fragments.rects@.contains_key(id);
        let at = if boxed {
            (base.0 + l.x, base.1 + l.y)
        } else {
            base
        };
        let own = if boxed {
            further(extent, (at.0 + l.width, at.1 + l.height))
        } else {
            extent
        };
        let n = dom.children_at(id).len();
        lemma_far_edge_upto_is_the_furthest(dom, styles, fragments, id, at, own, n);
        let all = reaches_below(dom, styles, fragments, id, at, own);
        assert(all.take(n as int + 1) =~= all);
    }
}

/// A container scrolls as far as the furthest of what is in it, and its padding at
/// the end, reaches past the inner side of its border, and not at all where
/// everything fits; a document as far as the furthest of what is in it reaches past
/// the window. A pixel is 64 units, and no offset is greater than one can hold.
pub proof fn content_scrolls_until_its_end_shows(
    dom: &Dom,
    styles: &StylePlane,
    fragments: &FragmentPlane,
    id: NodeId,
    width: int,
    height: int,
)
    requires
        dom.wf(),
        dom.has(id),
    ensures
        ({
            let edge = content_edge(dom, styles, fragments, id);
            let l = fragments.rects@[id];
            let limit = scroll_limit(dom, styles, fragments, id);
            let over_x = edge.0 + l.padding.right + l.border.right - l.width;
            let over_y = edge.1 + l.padding.bottom + l.border.bottom - l.height;
            &&& is_the_furthest(
                edge,
                reaches_below(dom, styles, fragments, id, (0int, 0int), (0int, 0int)),
            )
            &&& !fragments.rects@.contains_key(id) ==> limit == (0int, 0int)
            &&& fragments.rects@.contains_key(id) ==> {
                &&& over_x <= 0 ==> limit.0 == 0
                &&& 0 < over_x && over_x * 64 <= i64::MAX ==> limit.0 == over_x * 64
                &&& over_y <= 0 ==> limit.1 == 0
                &&& 0 < over_y && over_y * 64 <= i64::MAX ==> limit.1 == over_y * 64
            }
        }),
        ({
            let edge = content_edge(dom, styles, fragments, dom.root());
            let range = document_range(dom, styles, fragments, width, height);
            &&& edge.0 <= width ==> range.0 == 0
            &&& width < edge.0 && (edge.0 - width) * 64 <= i64::MAX ==> range.0 == (edge.0 - width)
                * 64
            &&& edge.1 <= height ==> range.1 == 0
            &&& height < edge.1 && (edge.1 - height) * 64 <= i64::MAX ==> range.1 == (edge.1
                - height) * 64
        }),
{
    let n = dom.children_at(id).len();
    lemma_far_edge_upto_is_the_furthest(
        dom,
        styles,
        fragments,
        id,
        (0int, 0int),
        (0int, 0int),
        n,
    );
    let all = reaches_below(dom, styles, fragments, id, (0int, 0int), (0int, 0int));
    assert(all.take(n as int + 1) =~= all);
}

/// A distance moves a container on each axis whose overflow is scrolled, as far as
/// its content goes, and leaves the others where they were. It moves nothing where
/// that changes no offset.
pub proof fn a_distance_moves_the_axes_that_scroll(
    dom: &Dom,
    styles: &StylePlane,
    fragments: &FragmentPlane,
    offsets: Map<NodeId, (i64, i64)>,
    id: NodeId,
    d: (i64, i64),
)
    ensures
        ({
            let cur = if offsets.contains_key(id) {
                offsets[id]
            } else {
                (0i64, 0i64)
            };
            let limit = scroll_limit(dom, styles, fragments, id);
            let next = step(dom, styles, fragments, offsets, id, d);
            match styles.primary_at(id) {
                Some(s) => {
                    let sx = s.overflow_x == Overflow::Scroll || s.overflow_x == Overflow::Auto;
                    let sy = s.overflow_y == Overflow::Scroll || s.overflow_y == Overflow::Auto;
                    let x = if !sx {
                        cur.0 as int
                    } else if cur.0 + d.0 < 0 || limit.0 < 0 {
                        0
                    } else if cur.0 + d.0 > limit.0 {
                        limit.0
                    } else {
                        cur.0 + d.0
                    };
                    let y = if !sy {
                        cur.1 as int
                    } else if cur.1 + d.1 < 0 || limit.1 < 0 {
                        0
                    } else if cur.1 + d.1 > limit.1 {
                        limit.1
                    } else {
                        cur.1 + d.1
                    };
                    if x == cur.0 && y == cur.1 {
                        next is None
                    } else {
                        next == Some((x, y))
                    }
                },
                None => next is None,
            }
        }),
{
}

/// What a distance over a node moves is the first container from the node up that
/// it moves at all; each on the way stays. Where there is none, the document is
/// scrolled.
pub proof fn the_nearest_container_that_moves_is_moved(
    dom: &Dom,
    styles: &StylePlane,
    fragments: &FragmentPlane,
    offsets: Map<NodeId, (i64, i64)>,
    from: NodeId,
    d: (i64, i64),
)
    requires
        dom.wf(),
        dom.has(from),
    ensures
        ({
            let moves = |id: NodeId| step(dom, styles, fragments, offsets, id, d) is Some;
            match mover(dom, styles, fragments, offsets, Some(from), d) {
                Some((id, next)) => {
                    &&& step(dom, styles, fragments, offsets, id, d) == Some(next)
                    &&& exists|k: nat| #[trigger] dom.is_first_above(from, moves, id, k)
                },
                None => forall|k: nat|
                    (#[trigger] dom.rise(from, k)) matches Some(b) ==> !moves(b),
            }
        }),
{
    let moves = |id: NodeId| step(dom, styles, fragments, offsets, id, d) is Some;
    lemma_mover_is_nearest(dom, styles, fragments, offsets, from, d);
    dom.the_nearest_is_the_first_above(from, moves);
}

proof fn lemma_mover_is_nearest(
    dom: &Dom,
    styles: &StylePlane,
    fragments: &FragmentPlane,
    offsets: Map<NodeId, (i64, i64)>,
    from: NodeId,
    d: (i64, i64),
)
    requires
        dom.wf(),
        dom.has(from),
    ensures
        mover(dom, styles, fragments, offsets, Some(from), d) == (match dom.nearest(
            from,
            |id: NodeId| step(dom, styles, fragments, offsets, id, d) is Some,
        ) {
            Some(id) => Some((id, step(dom, styles, fragments, offsets, id, d)->0)),
            None => None,
        }),
    decreases dom.depth_at(from),
{
    if let Some(p) = dom.parent_at(from) {
        assert(dom.has(p));
        lemma_mover_is_nearest(dom, styles, fragments, offsets, p, d);
    } else {
        reveal_with_fuel(mover, 2);
    }
}

/// A distance moves one container, or else the document: no offset but the
/// container's changes, and the document's only where no container moves. It says
/// that something moved exactly where something did.
pub proof fn a_distance_moves_one_thing(
    moves: Option<(NodeId, (int, int))>,
    offsets_before: Map<NodeId, (i64, i64)>,
    viewport_before: Viewport,
    range: (i64, i64),
    d: (i64, i64),
    offsets: Map<NodeId, (i64, i64)>,
    viewport: Viewport,
    moved: bool,
    k: NodeId,
)
    requires
        scrolled_at(
            moves,
            offsets_before,
            viewport_before,
            range,
            d,
            offsets,
            viewport,
            moved,
        ),
        0 <= range.0,
        0 <= range.1,
    ensures
        moves matches Some((id, next)) ==> {
            &&& moved && viewport == viewport_before
            &&& offsets.contains_key(id) && offsets[id].0 == next.0 && offsets[id].1 == next.1
            &&& k != id ==> (offsets.contains_key(k) <==> offsets_before.contains_key(k))
            &&& k != id && offsets_before.contains_key(k) ==> offsets[k] == offsets_before[k]
        },
        moves is None ==> {
            &&& offsets == offsets_before
            &&& moved <==> viewport.scroll.0 != viewport_before.scroll.0 || viewport.scroll.1
                != viewport_before.scroll.1
            &&& viewport_before.scrolls_x && 0 <= viewport_before.scroll.0 + d.0 <= range.0
                ==> viewport.scroll.0 - viewport_before.scroll.0 == d.0
            &&& viewport_before.scrolls_y && 0 <= viewport_before.scroll.1 + d.1 <= range.1
                ==> viewport.scroll.1 - viewport_before.scroll.1 == d.1
            &&& viewport_before.scrolls_x && viewport_before.scroll.0 + d.0 < 0
                ==> viewport.scroll.0 == 0
            &&& viewport_before.scrolls_y && viewport_before.scroll.1 + d.1 < 0
                ==> viewport.scroll.1 == 0
            &&& viewport_before.scrolls_x && viewport_before.scroll.0 + d.0 > range.0
                ==> viewport.scroll.0 == range.0
            &&& viewport_before.scrolls_y && viewport_before.scroll.1 + d.1 > range.1
                ==> viewport.scroll.1 == range.1
        },
{
    if let Some((id, next)) = moves {
        assert(offsets.dom().contains(id));
        if k != id {
            assert(offsets.dom().contains(k) <==> offsets_before.dom().contains(k));
        }
    }
}

} // verus!
