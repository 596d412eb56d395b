//! Overlays: content of its own that is painted over a page, where one of the
//! page's nodes is.
use vstd::prelude::*;
use crate::dom::{Dom, NodeId};
use crate::fragment;
use crate::fragment::{absolute_origin, FragmentPlane};

verus! {

/// An overlay: a node of the page, and content with its corner at the origin.
pub struct OverlaySlot<C> {
    pub anchor: NodeId,
    pub content: C,
}

impl<C> OverlaySlot<C> {
    /// Where the overlay's corner is in the document: at that of its anchor, as
    /// it is laid out now. `None` where the anchor has no box.
    pub fn place(&self, dom: &Dom, fragments: &FragmentPlane) -> (r: Option<(i128, i128)>)
        requires
            dom.wf(),
            dom.has(self.anchor),
        ensures
            match r {
                Some(o) => fragments.rects@.contains_key(self.anchor) && (o.0 as int, o.1 as int)
                    == fragment::origin(dom, fragments, self.anchor),
                None => !fragments.rects@.contains_key(self.anchor),
            },
    {
        absolute_origin(dom, fragments, self.anchor)
    }
}

} // verus!
