//! A handle on a node of a document.
use vstd::prelude::*;
use crate::dom::{Dom, NodeId, NodeKind};
use crate::scan;

verus! {

/// A node of a document.
pub struct NodeRef<'a> {
    pub dom: &'a Dom,
    pub id: NodeId,
}

/// The child of the same parent right after a node, `None` for the last one and
/// for what has no parent.
pub open spec fn next_of(dom: &Dom, id: NodeId) -> Option<NodeId> {
    match dom.parent_at(id) {
        Some(p) => match scan::first_index(dom.children_at(p), id) {
            Some(i) => if i + 1 < dom.children_at(p).len() {
                Some(dom.children_at(p)[(i + 1) as int])
            } else {
                None
            },
            None => None,
        },
        None => None,
    }
}

/// The child of the same parent right before a node, `None` for the first one
/// and for what has no parent.
pub open spec fn prev_of(dom: &Dom, id: NodeId) -> Option<NodeId> {
    match dom.parent_at(id) {
        Some(p) => match scan::first_index(dom.children_at(p), id) {
            Some(i) => if i > 0 {
                Some(dom.children_at(p)[i - 1])
            } else {
                None
            },
            None => None,
        },
        None => None,
    }
}

proof fn lemma_place_at(children: Seq<NodeId>, i: int)
    requires
        children.no_duplicates(),
        0 <= i < children.len(),
    ensures
        scan::first_index(children, children[i]) == Some(i as nat),
{
    scan::lemma_first_index_fits(children, children[i]);
    assert(children.contains(children[i]));
}

fn find_child(children: &Vec<NodeId>, id: NodeId) -> (r: Option<usize>)
    requires
        children@.no_duplicates(),
    ensures
        scan::first_index(children@, id) == (match r {
            Some(i) => Some(i as nat),
            None => None,
        }),
{
    let mut i: usize = 0;
    while i < children.len()
        invariant
            children@.no_duplicates(),
            i <= children@.len(),
            forall|j: int| 0 <= j < i ==> #[trigger] children@[j] != id,
        decreases children.len() - i,
    {
        if children[i] == id {
            proof {
                lemma_place_at(children@, i as int);
            }
            return Some(i);
        }
        i += 1;
    }
    proof {
        scan::lemma_first_index_fits(children@, id);
    }
    None
}

/// The child of the same parent right after a node.
pub fn next_sibling(dom: &Dom, id: NodeId) -> (r: Option<NodeId>)
    requires
        dom.wf(),
        dom.has(id),
    ensures
        r == next_of(dom, id),
        r matches Some(n) ==> dom.has(n) && dom.parent_at(n) == dom.parent_at(id),
{
    let p: NodeId = match dom.parent(id) {
        Some(p) => p,
        None => return None,
    };
    let children = dom.dom_children(p);
    let count: usize = children.len();
    match find_child(children, id) {
        Some(i) => {
            proof {
                scan::lemma_first_index_fits(children@, id);
            }
            if i + 1 < count {
                assert(dom.has(dom.children_at(p)[i + 1]));
                Some(children[i + 1])
            } else {
                None
            }
        },
        None => None,
    }
}

/// The child of the same parent right before a node.
pub fn prev_sibling(dom: &Dom, id: NodeId) -> (r: Option<NodeId>)
    requires
        dom.wf(),
        dom.has(id),
    ensures
        r == prev_of(dom, id),
        r matches Some(n) ==> dom.has(n) && dom.parent_at(n) == dom.parent_at(id),
{
    let p: NodeId = match dom.parent(id) {
        Some(p) => p,
        None => return None,
    };
    let children = dom.dom_children(p);
    match find_child(children, id) {
        Some(i) => {
            proof {
                scan::lemma_first_index_fits(children@, id);
            }
            if i > 0 {
                assert(dom.has(dom.children_at(p)[i - 1]));
                Some(children[i - 1])
            } else {
                None
            }
        },
        None => None,
    }
}

impl<'a> NodeRef<'a> {
    /// Whether the handle is on a node that is there, of a sound document.
    pub open spec fn wf(&self) -> bool {
        self.dom.wf() && self.dom.has(self.id)
    }

    /// Whether a handle may be missing, or is on the node of the same document
    /// that is given.
    pub open spec fn is_on(&self, r: Option<NodeRef<'a>>, id: Option<NodeId>) -> bool {
        match (r, id) {
            (Some(n), Some(i)) => n.dom == self.dom && n.id == i,
            (None, None) => true,
            _ => false,
        }
    }

    /// A handle on a node.
    pub fn new(dom: &'a Dom, id: NodeId) -> (r: NodeRef<'a>)
        ensures
            r.dom == dom,
            r.id == id,
    {
        NodeRef { dom, id }
    }

    /// A handle on the document.
    pub fn document(dom: &'a Dom) -> (r: NodeRef<'a>)
        ensures
            r.dom == dom,
            r.id == dom.root(),
    {
        NodeRef { dom, id: dom.document() }
    }

    /// The document that the node is of.
    pub fn dom(&self) -> (r: &'a Dom)
        ensures
            r == self.dom,
    {
        self.dom
    }

    /// The node.
    pub fn id(&self) -> (r: NodeId)
        ensures
            r == self.id,
    {
        self.id
    }

    /// A handle on another node of the same document.
    pub fn with_id(&self, id: NodeId) -> (r: NodeRef<'a>)
        ensures
            r.dom == self.dom,
            r.id == id,
    {
        NodeRef { dom: self.dom, id }
    }

    /// The parent; `None` for the document.
    pub fn parent(&self) -> (r: Option<NodeRef<'a>>)
        requires
            self.wf(),
        ensures
            self.is_on(r, self.dom.parent_at(self.id)),
            r matches Some(n) ==> n.wf(),
    {
        match self.dom.parent(self.id) {
            Some(p) => Some(self.with_id(p)),
            None => None,
        }
    }

    /// The child of the same parent right before this one.
    pub fn prev_sibling(&self) -> (r: Option<NodeRef<'a>>)
        requires
            self.wf(),
        ensures
            self.is_on(r, prev_of(self.dom, self.id)),
            r matches Some(n) ==> n.wf(),
    {
        match prev_sibling(self.dom, self.id) {
            Some(s) => Some(self.with_id(s)),
            None => None,
        }
    }

    /// The child of the same parent right after this one.
    pub fn next_sibling(&self) -> (r: Option<NodeRef<'a>>)
        requires
            self.wf(),
        ensures
            self.is_on(r, next_of(self.dom, self.id)),
            r matches Some(n) ==> n.wf(),
    {
        match next_sibling(self.dom, self.id) {
            Some(s) => Some(self.with_id(s)),
            None => None,
        }
    }

    /// The children, in document order.
    pub fn dom_children(&self) -> (r: Vec<NodeRef<'a>>)
        requires
            self.wf(),
        ensures
            r@.len() == self.dom.children_at(self.id).len(),
            forall|i: int|
                0 <= i < r@.len() ==> (#[trigger] r@[i]).dom == self.dom && r@[i].id
                    == self.dom.children_at(self.id)[i] && r@[i].wf(),
    {
        let children = self.dom.dom_children(self.id);
        let mut out: Vec<NodeRef<'a>> = Vec::new();
        let mut i: usize = 0;
        while i < children.len()
            invariant
                self.wf(),
                children@ == self.dom.children_at(self.id),
                i <= children@.len(),
                out@.len() == i,
                forall|j: int|
                    0 <= j < i ==> (#[trigger] out@[j]).dom == self.dom && out@[j].id
                        == children@[j] && out@[j].wf(),
            decreases children.len() - i,
        {
            assert(self.dom.has(self.dom.children_at(self.id)[i as int]));
            out.push(self.with_id(children[i]));
            i += 1;
        }
        out
    }

    /// The children that layout goes by. There are no shadow trees, so they are
    /// the children.
    pub fn flat_children(&self) -> (r: Vec<NodeRef<'a>>)
        requires
            self.wf(),
        ensures
            r@.len() == self.dom.children_at(self.id).len(),
            forall|i: int|
                0 <= i < r@.len() ==> (#[trigger] r@[i]).dom == self.dom && r@[i].id
                    == self.dom.children_at(self.id)[i] && r@[i].wf(),
    {
        self.dom_children()
    }

    /// What the node is.
    pub fn kind(&self) -> (r: NodeKind)
        requires
            self.wf(),
        ensures
            r == self.dom.kind_at(self.id),
    {
        self.dom.kind(self.id)
    }
}

/// A child leads back to its parent, and one step over to the next child and
/// back leads to where it started.
pub proof fn steps_lead_back(dom: &Dom, p: NodeId, i: int)
    requires
        dom.wf(),
        dom.has(p),
        0 <= i < dom.children_at(p).len(),
    ensures
        dom.parent_at(dom.children_at(p)[i]) == Some(p),
        next_of(dom, dom.children_at(p)[i]) == (if i + 1 < dom.children_at(p).len() {
            Some(dom.children_at(p)[i + 1])
        } else {
            None
        }),
        prev_of(dom, dom.children_at(p)[i]) == (if i > 0 {
            Some(dom.children_at(p)[i - 1])
        } else {
            None
        }),
        next_of(dom, dom.children_at(p)[i]) matches Some(n) ==> prev_of(dom, n) == Some(
            dom.children_at(p)[i],
        ),
{
    let children = dom.children_at(p);
    lemma_place_at(children, i);
    assert(dom.parent_at(children[i]) == Some(p));
    if i + 1 < children.len() {
        lemma_place_at(children, i + 1);
        assert(dom.parent_at(children[i + 1]) == Some(p));
    }
}

} // verus!
