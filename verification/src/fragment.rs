//! Where layout has put every node.
use vstd::prelude::*;
use crate::dom::{Dom, NodeId};
use crate::float_bits::Bits;
use crate::node_map;
use crate::node_map::NodeMap;

verus! {

/// The widths of the four edges of a box, in pixels.
#[derive(Clone, Copy, Debug, PartialEq, Eq, Structural)]
pub struct Edges {
    pub left: i32,
    pub top: i32,
    pub right: i32,
    pub bottom: i32,
}

/// A laid out box: its corner relative to its parent, its size, and the widths
/// of its border and padding. Layout rounds these to whole pixels. The margins
/// above and below are as they were computed.
#[derive(Clone, Copy, Debug, PartialEq, Eq, Structural)]
pub struct Layout {
    pub x: i32,
    pub y: i32,
    pub width: i32,
    pub height: i32,
    pub border: Edges,
    pub padding: Edges,
    pub margin_top: Bits,
    pub margin_bottom: Bits,
}

/// A rectangle in the document, in pixels: its corners.
#[derive(Clone, Copy, Debug, PartialEq, Eq, Structural)]
pub struct Rect {
    pub x0: i128,
    pub y0: i128,
    pub x1: i128,
    pub y1: i128,
}

/// The laid out boxes, by node.
pub struct FragmentPlane {
    pub rects: NodeMap<Layout>,
    /// The absolute corners of the boxes whose containing block is not their
    /// parent's. A walk that adds up corners takes this one as it stands.
    pub hoisted_origins: NodeMap<(i32, i32)>,
}

impl FragmentPlane {
    /// An empty plane.
    pub fn new() -> (r: FragmentPlane)
        ensures
            r.rects@ == Map::<NodeId, Layout>::empty(),
            r.hoisted_origins@ == Map::<NodeId, (i32, i32)>::empty(),
    {
        FragmentPlane { rects: NodeMap::new(), hoisted_origins: NodeMap::new() }
    }

    /// Stores the box of a node, in place of the one before.
    pub fn insert(&mut self, id: NodeId, layout: Layout)
        ensures
            final(self).rects@ == old(self).rects@.insert(id, layout),
            final(self).hoisted_origins == old(self).hoisted_origins,
    {
        self.rects.insert(id, layout);
    }

    /// The absolute corner of a box that left the flow of its parent, `None`
    /// for every other.
    pub fn hoisted_origin(&self, id: NodeId) -> (r: Option<(i32, i32)>)
        ensures
            r == (if self.hoisted_origins@.contains_key(id) {
                Some(self.hoisted_origins@[id])
            } else {
                None
            }),
    {
        match self.hoisted_origins.get(id) {
            Some(o) => Some(*o),
            None => None,
        }
    }

    /// The box of a node, where layout reached it.
    pub fn rect_of(&self, id: NodeId) -> (r: Option<&Layout>)
        ensures
            r == (if self.rects@.contains_key(id) {
                Some(&self.rects@[id])
            } else {
                None
            }),
    {
        self.rects.get(id)
    }

    /// The nodes that have a box, each once with it, in no stated order.
    pub fn iter(&self) -> (r: Vec<(NodeId, &Layout)>)
        ensures
            node_map::lists(r@, self.rects@),
    {
        self.rects.iter()
    }

    /// How many nodes have a box.
    pub fn len(&self) -> (r: usize)
        ensures
            r == self.rects@.dom().len(),
    {
        self.rects.len()
    }

    /// Whether no node has a box.
    pub fn is_empty(&self) -> (r: bool)
        ensures
            r == (self.rects@.dom().len() == 0),
    {
        self.rects.len() == 0
    }
}

// ---------------------------------------------------------------------------
// Absolute places
// ---------------------------------------------------------------------------
/// Where a node's box starts in the document: its corner from where its parent
/// starts, or the corner that stands for itself. A node without a box starts
/// where its parent does.
pub open spec fn origin(dom: &Dom, fragments: &FragmentPlane, id: NodeId) -> (int, int)
    decreases dom.depth_at(id),
    when dom.wf() && dom.has(id)
{
    if fragments.hoisted_origins@.contains_key(id) {
        let o = fragments.hoisted_origins@[id];
        (o.0 as int, o.1 as int)
    } else {
        let base = match dom.parent_at(id) {
            Some(p) => origin(dom, fragments, p),
            None => (0int, 0int),
        };
        if fragments.rects@.contains_key(id) {
            let l = fragments.rects@[id];
            (base.0 + l.x, base.1 + l.y)
        } else {
            base
        }
    }
}

/// The rectangle of a node's box in the document, `None` where it has none.
pub open spec fn rect_at(dom: &Dom, fragments: &FragmentPlane, id: NodeId) -> Option<
    (int, int, int, int),
> {
    if fragments.rects@.contains_key(id) {
        let o = origin(dom, fragments, id);
        let l = fragments.rects@[id];
        Some((o.0, o.1, o.0 + l.width, o.1 + l.height))
    } else {
        None
    }
}

/// Where the content of a laid out node starts in the document: inside its
/// border and padding.
pub open spec fn content_origin(dom: &Dom, fragments: &FragmentPlane, id: NodeId) -> (int, int) {
    let o = origin(dom, fragments, id);
    let l = fragments.rects@[id];
    (o.0 + l.border.left + l.padding.left, o.1 + l.border.top + l.padding.top)
}

/// A rectangle that may be missing, by its corners.
pub open spec fn corners(r: Option<Rect>) -> Option<(int, int, int, int)> {
    match r {
        Some(r) => Some((r.x0 as int, r.y0 as int, r.x1 as int, r.y1 as int)),
        None => None,
    }
}

/// No place in a document is further from its start than this.
pub open spec fn reach() -> int {
    0x8000_0000_0000_0000_0000_0000int
}

/// Where a node's box starts in the document.
pub fn origin_of(dom: &Dom, fragments: &FragmentPlane, id: NodeId) -> (r: (i128, i128))
    requires
        dom.wf(),
        dom.has(id),
    ensures
        (r.0 as int, r.1 as int) == origin(dom, fragments, id),
        -reach() <= r.0 <= reach(),
        -reach() <= r.1 <= reach(),
{
    let mut x: i128 = 0;
    let mut y: i128 = 0;
    let mut cur: Option<NodeId> = Some(id);
    let ghost mut steps: int = 0;
    while cur.is_some()
        invariant
            dom.wf(),
            dom.has(id),
            match cur {
                Some(c) => {
                    &&& dom.has(c)
                    &&& steps == dom.depth_at(id) - dom.depth_at(c)
                    &&& x + origin(dom, fragments, c).0 == origin(dom, fragments, id).0
                    &&& y + origin(dom, fragments, c).1 == origin(dom, fragments, id).1
                },
                None => (x as int, y as int) == origin(dom, fragments, id),
            },
            0 <= steps <= dom.depth_at(id) + 1,
            -(steps * 0x8000_0000) <= x <= steps * 0x8000_0000,
            -(steps * 0x8000_0000) <= y <= steps * 0x8000_0000,
        decreases
                match cur {
                    Some(c) => dom.depth_at(c) + 1,
                    None => 0,
                },
    {
        let c: NodeId = cur.unwrap();
        if let Some(o) = fragments.hoisted_origin(c) {
            return (x + o.0 as i128, y + o.1 as i128);
        }
        if let Some(l) = fragments.rect_of(c) {
            x = x + l.x as i128;
            y = y + l.y as i128;
        }
        cur = dom.parent(c);
        proof {
            steps = steps + 1;
            if let Some(p) = dom.parent_at(c) {
                assert(dom.has(p));
                assert(dom.depth_at(c) == dom.depth_at(p) + 1);
            }
        }
    }
    (x, y)
}

/// Where a node's box starts in the document, `None` where it has none.
pub fn absolute_origin(dom: &Dom, fragments: &FragmentPlane, id: NodeId) -> (r: Option<
    (i128, i128),
>)
    requires
        dom.wf(),
        dom.has(id),
    ensures
        match r {
            Some(o) => fragments.rects@.contains_key(id) && (o.0 as int, o.1 as int) == origin(
                dom,
                fragments,
                id,
            ) && -reach() <= o.0 <= reach() && -reach() <= o.1 <= reach(),
            None => !fragments.rects@.contains_key(id),
        },
{
    match fragments.rect_of(id) {
        Some(_) => Some(origin_of(dom, fragments, id)),
        None => None,
    }
}

/// Where a node's content starts in the document, `None` where it has no box.
pub fn content_corner(dom: &Dom, fragments: &FragmentPlane, id: NodeId) -> (r: Option<
    (i128, i128),
>)
    requires
        dom.wf(),
        dom.has(id),
    ensures
        match r {
            Some(o) => fragments.rects@.contains_key(id) && (o.0 as int, o.1 as int)
                == content_origin(dom, fragments, id),
            None => !fragments.rects@.contains_key(id),
        },
{
    match fragments.rect_of(id) {
        Some(l) => {
            let o = origin_of(dom, fragments, id);
            Some(
                (
                    o.0 + l.border.left as i128 + l.padding.left as i128,
                    o.1 + l.border.top as i128 + l.padding.top as i128,
                ),
            )
        },
        None => None,
    }
}

/// The rectangle of a node's box in the document, `None` where it has none.
pub fn document_rect(dom: &Dom, fragments: &FragmentPlane, id: NodeId) -> (r: Option<Rect>)
    requires
        dom.wf(),
        dom.has(id),
    ensures
        corners(r) == rect_at(dom, fragments, id),
{
    match fragments.rect_of(id) {
        Some(l) => {
            let o = origin_of(dom, fragments, id);
            Some(
                Rect {
                    x0: o.0,
                    y0: o.1,
                    x1: o.0 + l.width as i128,
                    y1: o.1 + l.height as i128,
                },
            )
        },
        None => None,
    }
}

/// A box stands as far from its parent's corner as its own corner says, or at the
/// corner that was kept for it; a node without a box starts where its parent does,
/// and a document at zero. The box reaches as far from its corner as it is wide and
/// high, and its content starts inside its border and padding.
pub proof fn a_box_stands_from_its_parents_corner(
    dom: &Dom,
    fragments: &FragmentPlane,
    id: NodeId,
    x: int,
    y: int,
)
    requires
        dom.wf(),
        dom.has(id),
        match dom.parent_at(id) {
            Some(p) => origin(dom, fragments, p) == (x, y),
            None => x == 0 && y == 0,
        },
    ensures
        fragments.hoisted_origins@.contains_key(id) ==> {
            &&& origin(dom, fragments, id).0 == fragments.hoisted_origins@[id].0
            &&& origin(dom, fragments, id).1 == fragments.hoisted_origins@[id].1
        },
        !fragments.hoisted_origins@.contains_key(id) && fragments.rects@.contains_key(id) ==> {
            &&& origin(dom, fragments, id).0 - x == fragments.rects@[id].x
            &&& origin(dom, fragments, id).1 - y == fragments.rects@[id].y
        },
        !fragments.hoisted_origins@.contains_key(id) && !fragments.rects@.contains_key(id)
            ==> origin(dom, fragments, id) == (x, y),
        rect_at(dom, fragments, id) is Some <==> fragments.rects@.contains_key(id),
        rect_at(dom, fragments, id) matches Some(b) ==> {
            &&& origin(dom, fragments, id) == (b.0, b.1)
            &&& b.2 - b.0 == fragments.rects@[id].width
            &&& b.3 - b.1 == fragments.rects@[id].height
            &&& content_origin(dom, fragments, id).0 - b.0 == fragments.rects@[id].border.left
                + fragments.rects@[id].padding.left
            &&& content_origin(dom, fragments, id).1 - b.1 == fragments.rects@[id].border.top
                + fragments.rects@[id].padding.top
        },
{
}

} // verus!
