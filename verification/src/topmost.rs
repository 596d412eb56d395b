//! Which box lies on top under a point of the window.
//!
//! Points and offsets are in 64ths of a pixel.
use vstd::prelude::*;
use crate::dom::{Dom, NodeId};
use crate::fragment;
use crate::fragment::{document_rect, FragmentPlane};
use crate::node_map::NodeMap;
use crate::scroll;
use crate::style_plane::{Overflow, Position, StylePlane};

verus! {

/// A number, held to what an offset can be.
pub open spec fn as_offset(v: int) -> int {
    if v < i64::MIN {
        i64::MIN as int
    } else if v > i64::MAX {
        i64::MAX as int
    } else {
        v
    }
}

/// Whether an element stays where it is when the document scrolls.
pub open spec fn is_fixed(styles: &StylePlane, id: NodeId) -> bool {
    styles.primary_at(id) matches Some(s) && s.position == Position::Fixed
}

/// How far a node is scrolled: by every container around it and by the document, as
/// far as an element that is fixed.
pub open spec fn shift(
    dom: &Dom,
    styles: &StylePlane,
    offsets: Map<NodeId, (i64, i64)>,
    scroll: (i64, i64),
    id: NodeId,
) -> (int, int)
    decreases dom.depth_at(id),
    when dom.wf() && dom.has(id)
{
    if is_fixed(styles, id) {
        (0, 0)
    } else {
        match dom.parent_at(id) {
            Some(p) => {
                let above = shift(dom, styles, offsets, scroll, p);
                let own = scroll::offset_at(offsets, p);
                (as_offset(above.0 + own.0), as_offset(above.1 + own.1))
            },
            None => (scroll.0 as int, scroll.1 as int),
        }
    }
}

fn to_offset(v: i128) -> (r: i64)
    ensures
        r == as_offset(v as int),
{
    if v < i64::MIN as i128 {
        i64::MIN
    } else if v > i64::MAX as i128 {
        i64::MAX
    } else {
        v as i64
    }
}

/// How far a node is scrolled.
pub fn scroll_shift(
    dom: &Dom,
    styles: &StylePlane,
    offsets: &NodeMap<(i64, i64)>,
    scroll: (i64, i64),
    id: NodeId,
) -> (r: (i64, i64))
    requires
        dom.wf(),
        dom.has(id),
    ensures
        (r.0 as int, r.1 as int) == shift(dom, styles, offsets@, scroll, id),
    decreases dom.depth_at(id),
{
    if let Some(s) = styles.primary(id) {
        if s.position == Position::Fixed {
            return (0, 0);
        }
    }
    match dom.parent(id) {
        Some(p) => {
            let above = scroll_shift(dom, styles, offsets, scroll, p);
            let own: (i64, i64) = match offsets.get(p) {
                Some(o) => *o,
                None => (0, 0),
            };
            (
                to_offset(above.0 as i128 + own.0 as i128),
                to_offset(above.1 as i128 + own.1 as i128),
            )
        },
        None => scroll,
    }
}

/// What a walk for the box under a point reads.
pub struct Scene<'a> {
    pub dom: &'a Dom,
    pub styles: &'a StylePlane,
    pub fragments: &'a FragmentPlane,
    /// How far nested containers are scrolled.
    pub offsets: &'a NodeMap<(i64, i64)>,
    /// How far the document is scrolled.
    pub scroll: (i64, i64),
}

/// Whether a number of 64ths lies from one pixel up to another.
pub open spec fn is_between(v: int, from: int, to: int) -> bool {
    from * 64 <= v < to * 64
}

fn lies_between(v: i128, from: i128, to: i128) -> (r: bool)
    requires
        -0x1_0000_0000_0000_0000_0000 <= v <= 0x1_0000_0000_0000_0000_0000,
    ensures
        r == is_between(v as int, from as int, to as int),
{
    let pixel: i128 = if v >= 0 {
        v / 64
    } else {
        -((63 - v) / 64)
    };
    assert(pixel * 64 <= v < pixel * 64 + 64);
    from <= pixel && pixel < to
}

impl<'a> Scene<'a> {
    /// Whether a point of the window lies on a node's box, as it is scrolled.
    pub open spec fn lies_on(&self, id: NodeId, x: i64, y: i64) -> bool {
        let s = shift(self.dom, self.styles, self.offsets@, self.scroll, id);
        match fragment::rect_at(self.dom, self.fragments, id) {
            Some(r) => is_between(x + s.0, r.0, r.2) && is_between(y + s.1, r.1, r.3),
            None => false,
        }
    }

    /// Whether a node has a box that cuts off what overflows it.
    pub open spec fn clips(&self, id: NodeId) -> bool {
        scroll::clips_overflow(self.styles.primary_at(id)) && self.fragments.rects@.contains_key(id)
    }

    /// Whether a node is shown at a point as far as `top` and those around it go: the
    /// point lies on each of them that cuts off what overflows it.
    pub open spec fn shown_within(&self, top: NodeId, x: i64, y: i64) -> bool
        decreases self.dom.depth_at(top),
        when self.dom.wf() && self.dom.has(top)
    {
        &&& self.clips(top) ==> self.lies_on(top, x, y)
        &&& match self.dom.parent_at(top) {
            Some(p) => self.shown_within(p, x, y),
            None => true,
        }
    }

    /// Whether a box can be hit at a point: it lets no pointer through, the point lies
    /// on it, and no container around it cuts it off there.
    pub open spec fn can_be_hit(&self, id: NodeId, x: i64, y: i64) -> bool {
        &&& !(self.styles.primary_at(id) matches Some(s) && s.pointer_events_none)
        &&& self.lies_on(id, x, y)
        &&& match self.dom.parent_at(id) {
            Some(p) => self.shown_within(p, x, y),
            None => true,
        }
    }

    /// Whether a node stands over those in the flow: it is positioned, or stands in
    /// what is.
    pub open spec fn is_raised(&self, id: NodeId) -> bool
        decreases self.dom.depth_at(id),
        when self.dom.wf() && self.dom.has(id)
    {
        ||| self.styles.primary_at(id) matches Some(s) && s.position != Position::Static
        ||| match self.dom.parent_at(id) {
            Some(p) => self.is_raised(p),
            None => false,
        }
    }

    /// Whether node number `i` of a list stands over node number `j`: it is raised and
    /// the other is not, or both are or neither is and it comes later.
    pub open spec fn stands_over(&self, order: Seq<NodeId>, i: int, j: int) -> bool {
        let (a, b) = (self.is_raised(order[i]), self.is_raised(order[j]));
        (a && !b) || (a == b && i >= j)
    }

    /// Whether node number `i` is on top at a point among the first `n` of a list: it
    /// can be hit there, and stands over all others that can.
    pub open spec fn is_topmost(&self, order: Seq<NodeId>, n: int, i: int, x: i64, y: i64) -> bool {
        &&& 0 <= i < n
        &&& self.can_be_hit(order[i], x, y)
        &&& forall|j: int|
            0 <= j < n && self.can_be_hit(#[trigger] order[j], x, y) ==> self.stands_over(
                order,
                i,
                j,
            )
    }

    /// Whether `r` is the node on top at a point among the first `n` of a list; `None`
    /// where none of them can be hit there.
    pub open spec fn tops(&self, order: Seq<NodeId>, n: int, x: i64, y: i64, r: Option<NodeId>) -> bool {
        match r {
            Some(id) => exists|i: int| #[trigger]
                self.is_topmost(order, n, i, x, y) && order[i] == id,
            None => forall|j: int| 0 <= j < n ==> !self.can_be_hit(#[trigger] order[j], x, y),
        }
    }

    /// One node at most is on top at a point.
    pub proof fn one_node_is_on_top(
        &self,
        order: Seq<NodeId>,
        n: int,
        x: i64,
        y: i64,
        a: Option<NodeId>,
        b: Option<NodeId>,
    )
        requires
            self.tops(order, n, x, y, a),
            self.tops(order, n, x, y, b),
        ensures
            a == b,
    {
    }

    fn check_lies_on(&self, id: NodeId, x: i64, y: i64) -> (r: bool)
        requires
            self.dom.wf(),
            self.dom.has(id),
        ensures
            r == self.lies_on(id, x, y),
    {
        match document_rect(self.dom, self.fragments, id) {
            Some(b) => {
                let s = scroll_shift(self.dom, self.styles, self.offsets, self.scroll, id);
                lies_between(x as i128 + s.0 as i128, b.x0, b.x1) && lies_between(
                    y as i128 + s.1 as i128,
                    b.y0,
                    b.y1,
                )
            },
            None => false,
        }
    }

    fn check_shown_within(&self, top: NodeId, x: i64, y: i64) -> (r: bool)
        requires
            self.dom.wf(),
            self.dom.has(top),
        ensures
            r == self.shown_within(top, x, y),
        decreases self.dom.depth_at(top),
    {
        let clips = match self.styles.primary(top) {
            Some(s) => (s.overflow_x != Overflow::Visible || s.overflow_y != Overflow::Visible)
                && self.fragments.rect_of(top).is_some(),
            None => false,
        };
        if clips && !self.check_lies_on(top, x, y) {
            return false;
        }
        match self.dom.parent(top) {
            Some(p) => self.check_shown_within(p, x, y),
            None => true,
        }
    }

    fn check_can_be_hit(&self, id: NodeId, x: i64, y: i64) -> (r: bool)
        requires
            self.dom.wf(),
            self.dom.has(id),
        ensures
            r == self.can_be_hit(id, x, y),
    {
        if let Some(s) = self.styles.primary(id) {
            if s.pointer_events_none {
                return false;
            }
        }
        if !self.check_lies_on(id, x, y) {
            return false;
        }
        match self.dom.parent(id) {
            Some(p) => self.check_shown_within(p, x, y),
            None => true,
        }
    }

    fn check_is_raised(&self, id: NodeId) -> (r: bool)
        requires
            self.dom.wf(),
            self.dom.has(id),
        ensures
            r == self.is_raised(id),
        decreases self.dom.depth_at(id),
    {
        if let Some(s) = self.styles.primary(id) {
            if s.position != Position::Static {
                return true;
            }
        }
        match self.dom.parent(id) {
            Some(p) => self.check_is_raised(p),
            None => false,
        }
    }

    /// The node whose box is on top at a point of the window. Positioned boxes stand
    /// over those in the flow, and later ones over earlier ones.
    pub fn topmost_box(&self, x: i64, y: i64) -> (r: Option<NodeId>)
        requires
            self.dom.wf(),
        ensures
            self.tops(
                self.dom.order(self.dom.root()),
                self.dom.order(self.dom.root()).len() as int,
                x,
                y,
                r,
            ),
            r matches Some(id) ==> self.dom.has(id),
    {
        let order = self.dom.document_order(self.dom.document());
        let mut top: Option<(usize, bool)> = None;
        let mut n: usize = 0;
        while n < order.len()
            invariant
                self.dom.wf(),
                order@ == self.dom.order(self.dom.root()),
                n <= order@.len(),
                match top {
                    Some((i, raised)) => self.is_topmost(order@, n as int, i as int, x, y) && raised
                        == self.is_raised(order@[i as int]),
                    None => forall|j: int|
                        0 <= j < n ==> !self.can_be_hit(#[trigger] order@[j], x, y),
                },
            decreases order.len() - n,
        {
            let id = order[n];
            proof {
                self.dom.walks_meet_exactly_the_subtree(id, self.dom.root());
                assert(order@.contains(order@[n as int]));
            }
            if self.check_can_be_hit(id, x, y) {
                let raised = self.check_is_raised(id);
                let keeps = match top {
                    Some((_, above)) => above && !raised,
                    None => false,
                };
                if !keeps {
                    top = Some((n, raised));
                }
            }
            n += 1;
        }
        match top {
            Some((i, _)) => {
                proof {
                    self.dom.walks_meet_exactly_the_subtree(order@[i as int], self.dom.root());
                    assert(order@.contains(order@[i as int]));
                }
                Some(order[i])
            },
            None => None,
        }
    }
}

// ---------------------------------------------------------------------------
// Laws
// ---------------------------------------------------------------------------
/// A node that is fixed does not scroll. Any other is scrolled with its parent and by
/// how far its parent is, and what has no parent by how far the document is.
pub proof fn a_node_scrolls_with_its_parent(
    dom: &Dom,
    styles: &StylePlane,
    offsets: Map<NodeId, (i64, i64)>,
    scroll: (i64, i64),
    id: NodeId,
)
    requires
        dom.wf(),
        dom.has(id),
    ensures
        ({
            let s = shift(dom, styles, offsets, scroll, id);
            if styles.primary_at(id) matches Some(style) && style.position == Position::Fixed {
                s == (0int, 0int)
            } else {
                match dom.parent_at(id) {
                    Some(p) => {
                        let above = shift(dom, styles, offsets, scroll, p);
                        let own = if offsets.contains_key(p) {
                            offsets[p]
                        } else {
                            (0i64, 0i64)
                        };
                        &&& i64::MIN <= above.0 + own.0 <= i64::MAX ==> s.0 == above.0 + own.0
                        &&& i64::MIN <= above.1 + own.1 <= i64::MAX ==> s.1 == above.1 + own.1
                    },
                    None => s == (scroll.0 as int, scroll.1 as int),
                }
            }
        }),
{
}

impl<'a> Scene<'a> {
    /// A node is raised where it, or something that it stands in, is positioned.
    pub proof fn what_is_in_something_positioned_is_raised(&self, id: NodeId)
        requires
            self.dom.wf(),
            self.dom.has(id),
        ensures
            self.is_raised(id) <==> exists|k: nat|
                (#[trigger] self.dom.rise(id, k)) matches Some(a) && (self.styles.primary_at(
                    a,
                ) matches Some(s) && s.position != Position::Static),
        decreases self.dom.depth_at(id),
    {
        assert(self.dom.rise(id, 0) == Some(id));
        if let Some(p) = self.dom.parent_at(id) {
            assert(self.dom.has(p));
            self.what_is_in_something_positioned_is_raised(p);
            if self.is_raised(p) {
                let k = choose|k: nat|
                    (#[trigger] self.dom.rise(p, k)) matches Some(a) && (self.styles.primary_at(
                        a,
                    ) matches Some(s) && s.position != Position::Static);
                self.dom.lemma_rise_from_parent(id, k);
                assert(self.dom.rise(id, k + 1) == self.dom.rise(p, k));
            }
            assert forall|k: nat|
                (#[trigger] self.dom.rise(id, k)) matches Some(a) && (self.styles.primary_at(
                    a,
                ) matches Some(s) && s.position != Position::Static) implies self.is_raised(id) by {
                if k > 0 {
                    self.dom.lemma_rise_from_parent(id, (k - 1) as nat);
                    assert(self.dom.rise(p, (k - 1) as nat) == self.dom.rise(id, k));
                }
            }
        } else {
            assert forall|k: nat| k > 0 implies (#[trigger] self.dom.rise(id, k)) is None by {
                self.dom.lemma_rise_from_parent(id, (k - 1) as nat);
            }
        }
    }

    /// A point is shown within a node where it lies on that node and on everything
    /// around it, as far as they cut off what overflows them.
    pub proof fn a_point_is_shown_where_nothing_cuts_it_off(&self, top: NodeId, x: i64, y: i64)
        requires
            self.dom.wf(),
            self.dom.has(top),
        ensures
            self.shown_within(top, x, y) <==> forall|k: nat|
                (#[trigger] self.dom.rise(top, k)) matches Some(a) ==> {
                    self.fragments.rects@.contains_key(a) && (self.styles.primary_at(a) matches Some(
                        s,
                    ) && (s.overflow_x != Overflow::Visible || s.overflow_y != Overflow::Visible))
                        ==> self.lies_on(a, x, y)
                },
        decreases self.dom.depth_at(top),
    {
        assert(self.dom.rise(top, 0) == Some(top));
        if let Some(p) = self.dom.parent_at(top) {
            assert(self.dom.has(p));
            self.a_point_is_shown_where_nothing_cuts_it_off(p, x, y);
            assert forall|k: nat| #[trigger] self.dom.rise(top, k) == (if k == 0 {
                Some(top)
            } else {
                self.dom.rise(p, (k - 1) as nat)
            }) by {
                if k > 0 {
                    self.dom.lemma_rise_from_parent(top, (k - 1) as nat);
                }
            }
            assert forall|k: nat| (#[trigger] self.dom.rise(p, k)) == self.dom.rise(
                top,
                k + 1,
            ) by {
                self.dom.lemma_rise_from_parent(top, k);
            }
        } else {
            assert forall|k: nat| k > 0 implies (#[trigger] self.dom.rise(top, k)) is None by {
                self.dom.lemma_rise_from_parent(top, (k - 1) as nat);
            }
        }
    }

    /// A point lies on a box where it does once the box is scrolled: on its left and
    /// upper edge, and not on its right and lower one.
    pub proof fn a_point_lies_on_a_box_up_to_its_edges(&self, id: NodeId, x: i64, y: i64)
        ensures
            ({
                let s = shift(self.dom, self.styles, self.offsets@, self.scroll, id);
                let o = fragment::origin(self.dom, self.fragments, id);
                let l = self.fragments.rects@[id];
                self.lies_on(id, x, y) <==> {
                    &&& self.fragments.rects@.contains_key(id)
                    &&& o.0 * 64 <= x + s.0 < (o.0 + l.width) * 64
                    &&& o.1 * 64 <= y + s.1 < (o.1 + l.height) * 64
                }
            }),
    {
    }
}

} // verus!
