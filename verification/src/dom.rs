//! The document tree that layout reads: an arena of nodes, each with its kind,
//! name, attributes, text, parent and children.
use vstd::prelude::*;
use crate::text;
use crate::text::str_eq;

verus! {

/// A node's place in the arena of its [`Dom`].
pub type NodeId = usize;

/// What a node is.
#[derive(Clone, Copy, Debug, PartialEq, Eq, Structural)]
pub enum NodeKind {
    Document,
    Doctype,
    Element,
    Text,
    Comment,
    ProcessingInstruction,
}

/// An element's name: its namespace and its local name.
pub struct QualName {
    pub ns: String,
    pub local: String,
}

/// An attribute. `number` holds the bits of the value read as a single
/// precision number, where it reads as one.
pub struct Attribute {
    pub ns: String,
    pub local: String,
    pub value: String,
    pub number: Option<u32>,
}

struct NodeData {
    kind: NodeKind,
    name: Option<QualName>,
    attributes: Vec<Attribute>,
    text: Option<String>,
    parent: Option<NodeId>,
    children: Vec<NodeId>,
    depth: usize,
}

/// How far a document is laid out as browsers did before there was a standard.
#[derive(Clone, Copy, Debug, PartialEq, Eq, Structural)]
pub enum QuirksMode {
    NoQuirks,
    LimitedQuirks,
    Quirks,
}

/// A document tree.
pub struct Dom {
    nodes: Vec<NodeData>,
    document: NodeId,
    quirks: QuirksMode,
}

impl Dom {
    // -- the model ---------------------------------------------------------
    /// How many nodes the arena holds.
    pub closed spec fn size(&self) -> nat {
        self.nodes@.len()
    }

    /// The quirks mode of the document.
    pub closed spec fn quirks(&self) -> QuirksMode {
        self.quirks
    }

    /// Whether `id` is a node of this tree.
    pub open spec fn has(&self, id: NodeId) -> bool {
        id < self.size()
    }

    /// The document node.
    pub closed spec fn root(&self) -> NodeId {
        self.document
    }

    /// What `id` is.
    pub closed spec fn kind_at(&self, id: NodeId) -> NodeKind {
        self.nodes@[id as int].kind
    }

    /// The namespace of the element `id`, `None` where `id` has no name.
    pub closed spec fn ns_at(&self, id: NodeId) -> Option<Seq<char>> {
        match self.nodes@[id as int].name {
            Some(q) => Some(q.ns@),
            None => None,
        }
    }

    /// The local name of the element `id`, `None` where `id` has no name.
    pub closed spec fn local_at(&self, id: NodeId) -> Option<Seq<char>> {
        match self.nodes@[id as int].name {
            Some(q) => Some(q.local@),
            None => None,
        }
    }

    /// Whether `id` is an element with the local name `local`.
    pub open spec fn is_named(&self, id: NodeId, local: Seq<char>) -> bool {
        self.local_at(id) == Some(local)
    }

    /// The attributes of `id`.
    pub closed spec fn attributes_at(&self, id: NodeId) -> Seq<Attribute> {
        self.nodes@[id as int].attributes@
    }

    /// The value of the attribute of `id` with the given name, `None` where
    /// there is none.
    pub open spec fn attr_at(&self, id: NodeId, ns: Seq<char>, local: Seq<char>) -> Option<
        Seq<char>,
    > {
        match found_attr(self.attributes_at(id), ns, local) {
            Some(a) => Some(a.value@),
            None => None,
        }
    }

    /// The value of the attribute of `id` with the given local name in no
    /// namespace.
    pub open spec fn plain_attr(&self, id: NodeId, local: Seq<char>) -> Option<Seq<char>> {
        self.attr_at(id, Seq::empty(), local)
    }

    /// The character data of `id`.
    pub closed spec fn text_at(&self, id: NodeId) -> Option<Seq<char>> {
        match self.nodes@[id as int].text {
            Some(t) => Some(t@),
            None => None,
        }
    }

    /// The parent of `id`.
    pub closed spec fn parent_at(&self, id: NodeId) -> Option<NodeId> {
        self.nodes@[id as int].parent
    }

    /// The children of `id`, first to last.
    pub closed spec fn children_at(&self, id: NodeId) -> Seq<NodeId> {
        self.nodes@[id as int].children@
    }

    /// How far `id` is below the top of its tree.
    pub closed spec fn depth_at(&self, id: NodeId) -> usize {
        self.nodes@[id as int].depth
    }

    /// Parents and children agree, no node is a child twice, and depth grows
    /// by one from a parent to its children, so that there is no cycle.
    pub open spec fn wf(&self) -> bool {
        &&& self.has(self.root())
        &&& forall|i: NodeId| #![trigger self.parent_at(i)]
            self.has(i) ==> (self.parent_at(i) matches Some(p) ==> {
                &&& self.has(p)
                &&& self.depth_at(i) == self.depth_at(p) + 1
                &&& self.children_at(p).contains(i)
            })
        &&& forall|p: NodeId, k: int| #![trigger self.children_at(p)[k]]
            self.has(p) && 0 <= k < self.children_at(p).len() ==> {
                &&& self.has(self.children_at(p)[k])
                &&& self.parent_at(self.children_at(p)[k]) == Some(p)
            }
        &&& forall|p: NodeId| #![trigger self.children_at(p)]
            self.has(p) ==> self.children_at(p).no_duplicates()
    }

    /// `id` and its descendants in document order.
    pub open spec fn order(&self, id: NodeId) -> Seq<NodeId>
        decreases usize::MAX - self.depth_at(id), self.children_at(id).len() + 1,
        when self.wf() && self.has(id)
    {
        seq![id] + self.order_from(id, 0)
    }

    /// The descendants of `id` by way of its children from number `k` on, in
    /// document order.
    pub open spec fn order_from(&self, id: NodeId, k: nat) -> Seq<NodeId>
        decreases usize::MAX - self.depth_at(id), self.children_at(id).len() - k,
        when self.wf() && self.has(id)
    {
        if k >= self.children_at(id).len() {
            Seq::empty()
        } else {
            self.order(self.children_at(id)[k as int]) + self.order_from(id, k + 1)
        }
    }

    /// `id` and its descendants, a node before its children and the children
    /// last to first: the order in which a walk with a stack meets them.
    pub open spec fn stack_order(&self, id: NodeId) -> Seq<NodeId>
        decreases usize::MAX - self.depth_at(id), self.children_at(id).len() + 1,
        when self.wf() && self.has(id)
    {
        seq![id] + self.stack_order_upto(id, self.children_at(id).len())
    }

    /// The descendants of `id` by way of its first `k` children, the children
    /// last to first.
    pub open spec fn stack_order_upto(&self, id: NodeId, k: nat) -> Seq<NodeId>
        decreases usize::MAX - self.depth_at(id), k,
        when self.wf() && self.has(id) && k <= self.children_at(id).len()
    {
        if k == 0 {
            Seq::empty()
        } else {
            self.stack_order(self.children_at(id)[k - 1]) + self.stack_order_upto(
                id,
                (k - 1) as nat,
            )
        }
    }

    /// `id` and its ancestors, nearest first.
    pub open spec fn chain(&self, id: NodeId) -> Seq<NodeId>
        decreases self.depth_at(id),
        when self.wf() && self.has(id)
    {
        match self.parent_at(id) {
            Some(p) => seq![id] + self.chain(p),
            None => seq![id],
        }
    }

    /// The nearest of `id` and its ancestors that `p` holds of.
    pub open spec fn nearest(&self, id: NodeId, p: spec_fn(NodeId) -> bool) -> Option<NodeId>
        decreases self.depth_at(id),
        when self.wf() && self.has(id)
    {
        if p(id) {
            Some(id)
        } else {
            match self.parent_at(id) {
                Some(parent) => self.nearest(parent, p),
                None => None,
            }
        }
    }

    // -- reading -----------------------------------------------------------
    /// The document node.
    pub fn document(&self) -> (r: NodeId)
        ensures
            r == self.root(),
    {
        self.document
    }

    /// The quirks mode of the document.
    pub fn quirks_mode(&self) -> (r: QuirksMode)
        ensures
            r == self.quirks(),
    {
        self.quirks
    }

    /// How many nodes the arena holds.
    pub fn len(&self) -> (r: usize)
        ensures
            r == self.size(),
    {
        self.nodes.len()
    }

    /// What `id` is.
    pub fn kind(&self, id: NodeId) -> (r: NodeKind)
        requires
            self.has(id),
        ensures
            r == self.kind_at(id),
    {
        self.nodes[id].kind
    }

    /// The name of the element `id`.
    pub fn element_name(&self, id: NodeId) -> (r: Option<&QualName>)
        requires
            self.has(id),
        ensures
            match r {
                Some(q) => self.ns_at(id) == Some(q.ns@) && self.local_at(id) == Some(q.local@),
                None => self.ns_at(id) is None && self.local_at(id) is None,
            },
    {
        match &self.nodes[id].name {
            Some(q) => Some(q),
            None => None,
        }
    }

    /// Whether `id` is an element with the local name `local`.
    pub fn named(&self, id: NodeId, local: &str) -> (r: bool)
        requires
            self.has(id),
        ensures
            r == self.is_named(id, local@),
    {
        match &self.nodes[id].name {
            Some(q) => str_eq(q.local.as_str(), local),
            None => false,
        }
    }

    /// The attribute of `id` with the given name.
    pub fn find_attribute(&self, id: NodeId, ns: &str, local: &str) -> (r: Option<&Attribute>)
        requires
            self.has(id),
        ensures
            match r {
                Some(a) => found_attr(self.attributes_at(id), ns@, local@) == Some(*a),
                None => found_attr(self.attributes_at(id), ns@, local@) is None,
            },
    {
        let attributes = &self.nodes[id].attributes;
        let mut i: usize = 0;
        assert(attributes@.skip(0) =~= attributes@);
        while i < attributes.len()
            invariant
                i <= attributes@.len(),
                attributes@ == self.attributes_at(id),
                found_attr(attributes@, ns@, local@) == found_attr(
                    attributes@.skip(i as int),
                    ns@,
                    local@,
                ),
            decreases attributes.len() - i,
        {
            let a = &attributes[i];
            if str_eq(a.ns.as_str(), ns) && str_eq(a.local.as_str(), local) {
                return Some(a);
            }
            assert(attributes@.skip(i as int).skip(1) =~= attributes@.skip(i + 1));
            i += 1;
        }
        None
    }

    /// The attributes of `id`, in their order.
    pub fn attributes(&self, id: NodeId) -> (r: &Vec<Attribute>)
        requires
            self.has(id),
        ensures
            r@ == self.attributes_at(id),
    {
        &self.nodes[id].attributes
    }

    /// The value of the attribute of `id` with the given name.
    pub fn attribute(&self, id: NodeId, ns: &str, local: &str) -> (r: Option<&str>)
        requires
            self.has(id),
        ensures
            match r {
                Some(v) => self.attr_at(id, ns@, local@) == Some(v@),
                None => self.attr_at(id, ns@, local@) is None,
            },
    {
        match self.find_attribute(id, ns, local) {
            Some(a) => Some(a.value.as_str()),
            None => None,
        }
    }

    /// The value of the attribute of `id` with the given local name in no
    /// namespace.
    pub fn plain_attribute(&self, id: NodeId, local: &str) -> (r: Option<&str>)
        requires
            self.has(id),
        ensures
            match r {
                Some(v) => self.plain_attr(id, local@) == Some(v@),
                None => self.plain_attr(id, local@) is None,
            },
    {
        proof {
            reveal_strlit("");
            assert(""@ =~= Seq::<char>::empty());
        }
        self.attribute(id, "", local)
    }

    /// The character data of `id`.
    pub fn text(&self, id: NodeId) -> (r: Option<&str>)
        requires
            self.has(id),
        ensures
            match r {
                Some(t) => self.text_at(id) == Some(t@),
                None => self.text_at(id) is None,
            },
    {
        match &self.nodes[id].text {
            Some(t) => Some(t.as_str()),
            None => None,
        }
    }

    /// The parent of `id`.
    pub fn parent(&self, id: NodeId) -> (r: Option<NodeId>)
        requires
            self.has(id),
        ensures
            r == self.parent_at(id),
    {
        self.nodes[id].parent
    }

    /// The children of `id`, first to last.
    pub fn dom_children(&self, id: NodeId) -> (r: &Vec<NodeId>)
        requires
            self.has(id),
        ensures
            r@ == self.children_at(id),
    {
        &self.nodes[id].children
    }

    fn push_order(&self, id: NodeId, out: &mut Vec<NodeId>)
        requires
            self.wf(),
            self.has(id),
        ensures
            final(out)@ == old(out)@ + self.order(id),
        decreases usize::MAX - self.depth_at(id),
    {
        out.push(id);
        let children = self.dom_children(id);
        let mut k: usize = 0;
        assert(out@ + self.order_from(id, 0) =~= old(out)@ + self.order(id));
        while k < children.len()
            invariant
                self.wf(),
                self.has(id),
                children@ == self.children_at(id),
                k <= children@.len(),
                out@ + self.order_from(id, k as nat) == old(out)@ + self.order(id),
            decreases children.len() - k,
        {
            let ghost before = out@;
            assert(self.has(self.children_at(id)[k as int]));
            assert(self.parent_at(self.children_at(id)[k as int]) == Some(id));
            self.push_order(children[k], out);
            assert(out@ + self.order_from(id, (k + 1) as nat) =~= before + self.order_from(
                id,
                k as nat,
            ));
            k += 1;
        }
        assert(out@ + self.order_from(id, k as nat) =~= out@);
    }

    /// `id` and its descendants in document order.
    pub fn document_order(&self, id: NodeId) -> (r: Vec<NodeId>)
        requires
            self.wf(),
            self.has(id),
        ensures
            r@ == self.order(id),
    {
        let mut out: Vec<NodeId> = Vec::new();
        self.push_order(id, &mut out);
        assert(out@ =~= self.order(id));
        out
    }

    fn push_stack_order(&self, id: NodeId, out: &mut Vec<NodeId>)
        requires
            self.wf(),
            self.has(id),
        ensures
            final(out)@ == old(out)@ + self.stack_order(id),
        decreases usize::MAX - self.depth_at(id),
    {
        out.push(id);
        let children = self.dom_children(id);
        let mut k: usize = children.len();
        assert(out@ + self.stack_order_upto(id, k as nat) =~= old(out)@ + self.stack_order(id));
        while k > 0
            invariant
                self.wf(),
                self.has(id),
                children@ == self.children_at(id),
                k <= children@.len(),
                out@ + self.stack_order_upto(id, k as nat) == old(out)@ + self.stack_order(id),
            decreases k,
        {
            let ghost before = out@;
            assert(self.has(self.children_at(id)[k - 1]));
            assert(self.parent_at(self.children_at(id)[k - 1]) == Some(id));
            self.push_stack_order(children[k - 1], out);
            assert(out@ + self.stack_order_upto(id, (k - 1) as nat) =~= before
                + self.stack_order_upto(id, k as nat));
            k -= 1;
        }
        assert(out@ + self.stack_order_upto(id, 0) =~= out@);
    }

    /// `id` and its descendants in the order of a walk with a stack.
    pub fn walk_with_stack(&self, id: NodeId) -> (r: Vec<NodeId>)
        requires
            self.wf(),
            self.has(id),
        ensures
            r@ == self.stack_order(id),
    {
        let mut out: Vec<NodeId> = Vec::new();
        self.push_stack_order(id, &mut out);
        assert(out@ =~= self.stack_order(id));
        out
    }

    /// `id` and its ancestors, nearest first.
    pub fn ancestors(&self, id: NodeId) -> (r: Vec<NodeId>)
        requires
            self.wf(),
            self.has(id),
        ensures
            r@ == self.chain(id),
    {
        let mut out: Vec<NodeId> = Vec::new();
        let mut cur: NodeId = id;
        out.push(cur);
        let mut next: Option<NodeId> = self.parent(cur);
        while next.is_some()
            invariant
                self.wf(),
                self.has(cur),
                next == self.parent_at(cur),
                out@.len() > 0,
                out@.drop_last() + self.chain(cur) == self.chain(id),
                out@.last() == cur,
            decreases self.depth_at(cur),
        {
            let ghost before = out@;
            let p: NodeId = next.unwrap();
            out.push(p);
            assert(out@.drop_last() + self.chain(p) =~= before.drop_last() + self.chain(cur));
            cur = p;
            next = self.parent(cur);
        }
        assert(out@ =~= out@.drop_last() + self.chain(cur));
        out
    }

    // -- building ----------------------------------------------------------
    /// A tree that holds the document node only, of a document without quirks.
    pub fn new() -> (r: Dom)
        ensures
            r.wf(),
            r.quirks() == QuirksMode::NoQuirks,
            r.size() == 1,
            r.root() == 0,
            r.kind_at(0) == NodeKind::Document,
            r.local_at(0) is None,
            r.ns_at(0) is None,
            r.attributes_at(0) == Seq::<Attribute>::empty(),
            r.text_at(0) is None,
            r.parent_at(0) is None,
            r.children_at(0) == Seq::<NodeId>::empty(),
            r.depth_at(0) == 0,
    {
        let mut nodes: Vec<NodeData> = Vec::new();
        nodes.push(
            NodeData {
                kind: NodeKind::Document,
                name: None,
                attributes: Vec::new(),
                text: None,
                parent: None,
                children: Vec::new(),
                depth: 0,
            },
        );
        Dom { nodes, document: 0, quirks: QuirksMode::NoQuirks }
    }

    /// Whether `other` differs from this tree only by one more node, the last
    /// child of `parent`.
    pub open spec fn grown(&self, other: &Dom, parent: NodeId, id: NodeId) -> bool {
        &&& other.size() == self.size() + 1
        &&& id == self.size()
        &&& other.root() == self.root()
        &&& other.quirks() == self.quirks()
        &&& other.parent_at(id) == Some(parent)
        &&& other.children_at(id) == Seq::<NodeId>::empty()
        &&& other.children_at(parent) == self.children_at(parent).push(id)
        &&& forall|i: NodeId| #[trigger] self.has(i) ==> {
            &&& other.kind_at(i) == self.kind_at(i)
            &&& other.ns_at(i) == self.ns_at(i)
            &&& other.local_at(i) == self.local_at(i)
            &&& other.attributes_at(i) == self.attributes_at(i)
            &&& other.text_at(i) == self.text_at(i)
            &&& other.parent_at(i) == self.parent_at(i)
            &&& other.depth_at(i) == self.depth_at(i)
            &&& i != parent ==> other.children_at(i) == self.children_at(i)
        }
    }

    fn append(
        &mut self,
        parent: NodeId,
        kind: NodeKind,
        name: Option<QualName>,
        text: Option<String>,
    ) -> (id: NodeId)
        requires
            old(self).wf(),
            old(self).has(parent),
            old(self).depth_at(parent) < usize::MAX,
            old(self).size() < usize::MAX,
        ensures
            final(self).wf(),
            old(self).grown(final(self), parent, id),
            final(self).kind_at(id) == kind,
            final(self).local_at(id) == (match name {
                Some(q) => Some(q.local@),
                None => None,
            }),
            final(self).ns_at(id) == (match name {
                Some(q) => Some(q.ns@),
                None => None,
            }),
            final(self).text_at(id) == (match text {
                Some(t) => Some(t@),
                None => None,
            }),
            final(self).attributes_at(id) == Seq::<Attribute>::empty(),
            final(self).depth_at(id) == old(self).depth_at(parent) + 1,
    {
        let id: NodeId = self.nodes.len();
        let depth: usize = self.nodes[parent].depth + 1;
        self.nodes[parent].children.push(id);
        self.nodes.push(
            NodeData {
                kind,
                name,
                attributes: Vec::new(),
                text,
                parent: Some(parent),
                children: Vec::new(),
                depth,
            },
        );
        proof {
            assert(self.children_at(parent) =~= old(self).children_at(parent).push(id));
            assert(self.children_at(id) =~= Seq::<NodeId>::empty());
            assert forall|i: NodeId| #[trigger] old(self).has(i) && i != parent implies
                self.children_at(i) == old(self).children_at(i) by {}
            assert forall|i: NodeId| #![trigger self.parent_at(i)] self.has(i) implies (
            self.parent_at(i) matches Some(p) ==> {
                &&& self.has(p)
                &&& self.depth_at(i) == self.depth_at(p) + 1
                &&& self.children_at(p).contains(i)
            }) by {
                if i == id {
                    assert(self.children_at(parent).last() == id);
                    assert(self.children_at(parent).contains(id));
                } else {
                    assert(old(self).has(i));
                    assert(self.parent_at(i) == old(self).parent_at(i));
                    if let Some(p) = self.parent_at(i) {
                        assert(old(self).has(p));
                        assert(old(self).children_at(p).contains(i));
                        let k = choose|k: int| 0 <= k < old(self).children_at(p).len()
                            && old(self).children_at(p)[k] == i;
                        assert(self.children_at(p)[k] == i);
                    }
                }
            }
            assert forall|p: NodeId, k: int| #![trigger self.children_at(p)[k]]
                self.has(p) && 0 <= k < self.children_at(p).len() implies {
                &&& self.has(self.children_at(p)[k])
                &&& self.parent_at(self.children_at(p)[k]) == Some(p)
            } by {
                if p == parent && k == self.children_at(p).len() - 1 {
                } else if p != id {
                    assert(old(self).has(p));
                    assert(self.children_at(p)[k] == old(self).children_at(p)[k]);
                    let c = old(self).children_at(p)[k];
                    assert(old(self).has(c) && old(self).parent_at(c) == Some(p));
                    assert(self.parent_at(c) == old(self).parent_at(c));
                }
            }
            assert forall|p: NodeId| #![trigger self.children_at(p)] self.has(p) implies
                self.children_at(p).no_duplicates() by {
                if p == parent {
                    assert forall|k: int| 0 <= k < old(self).children_at(p).len() implies
                        old(self).children_at(p)[k] != id by {
                        assert(old(self).has(old(self).children_at(p)[k]));
                    }
                    assert(old(self).children_at(p).no_duplicates());
                } else if p != id {
                    assert(old(self).has(p));
                    assert(old(self).children_at(p).no_duplicates());
                }
            }
        }
        id
    }

    /// Adds an element as the last child of `parent`.
    pub fn append_element(&mut self, parent: NodeId, name: QualName) -> (id: NodeId)
        requires
            old(self).wf(),
            old(self).has(parent),
            old(self).depth_at(parent) < usize::MAX,
            old(self).size() < usize::MAX,
        ensures
            final(self).wf(),
            old(self).grown(final(self), parent, id),
            final(self).kind_at(id) == NodeKind::Element,
            final(self).ns_at(id) == Some(name.ns@),
            final(self).local_at(id) == Some(name.local@),
            final(self).text_at(id) is None,
            final(self).attributes_at(id) == Seq::<Attribute>::empty(),
            final(self).depth_at(id) == old(self).depth_at(parent) + 1,
    {
        self.append(parent, NodeKind::Element, Some(name), None)
    }

    /// Adds a text node as the last child of `parent`.
    pub fn append_text(&mut self, parent: NodeId, text: String) -> (id: NodeId)
        requires
            old(self).wf(),
            old(self).has(parent),
            old(self).depth_at(parent) < usize::MAX,
            old(self).size() < usize::MAX,
        ensures
            final(self).wf(),
            old(self).grown(final(self), parent, id),
            final(self).kind_at(id) == NodeKind::Text,
            final(self).ns_at(id) is None,
            final(self).local_at(id) is None,
            final(self).text_at(id) == Some(text@),
            final(self).attributes_at(id) == Seq::<Attribute>::empty(),
            final(self).depth_at(id) == old(self).depth_at(parent) + 1,
    {
        self.append(parent, NodeKind::Text, None, Some(text))
    }

    /// Adds a node that is neither an element nor text (a comment, a doctype,
    /// a processing instruction) as the last child of `parent`.
    pub fn append_other(&mut self, parent: NodeId, kind: NodeKind) -> (id: NodeId)
        requires
            old(self).wf(),
            old(self).has(parent),
            old(self).depth_at(parent) < usize::MAX,
            old(self).size() < usize::MAX,
        ensures
            final(self).wf(),
            old(self).grown(final(self), parent, id),
            final(self).kind_at(id) == kind,
            final(self).ns_at(id) is None,
            final(self).local_at(id) is None,
            final(self).text_at(id) is None,
            final(self).attributes_at(id) == Seq::<Attribute>::empty(),
            final(self).depth_at(id) == old(self).depth_at(parent) + 1,
    {
        self.append(parent, kind, None, None)
    }

    /// Sets the quirks mode of the document.
    pub fn set_quirks_mode(&mut self, mode: QuirksMode)
        requires
            old(self).wf(),
        ensures
            final(self).wf(),
            final(self).quirks() == mode,
            old(self).same_tree(final(self)),
    {
        self.quirks = mode;
        proof {
            old(self).lemma_same_links(self);
        }
    }

    proof fn lemma_same_links(&self, other: &Dom)
        requires
            self.wf(),
            other.size() == self.size(),
            other.root() == self.root(),
            forall|i: NodeId| #[trigger] self.has(i) ==> {
                &&& other.parent_at(i) == self.parent_at(i)
                &&& other.children_at(i) == self.children_at(i)
                &&& other.depth_at(i) == self.depth_at(i)
            },
        ensures
            other.wf(),
    {
        assert forall|i: NodeId| #![trigger other.parent_at(i)] other.has(i) implies (
        other.parent_at(i) matches Some(p) ==> {
            &&& other.has(p)
            &&& other.depth_at(i) == other.depth_at(p) + 1
            &&& other.children_at(p).contains(i)
        }) by {
            assert(self.has(i));
            if let Some(p) = self.parent_at(i) {
                assert(self.has(p));
            }
        }
        assert forall|p: NodeId, k: int| #![trigger other.children_at(p)[k]]
            other.has(p) && 0 <= k < other.children_at(p).len() implies {
            &&& other.has(other.children_at(p)[k])
            &&& other.parent_at(other.children_at(p)[k]) == Some(p)
        } by {
            assert(self.has(p));
            assert(self.has(self.children_at(p)[k]));
        }
        assert forall|p: NodeId| #![trigger other.children_at(p)] other.has(p) implies
            other.children_at(p).no_duplicates() by {
            assert(self.has(p));
        }
    }

    /// Whether `other` has the nodes of this tree.
    pub open spec fn same_tree(&self, other: &Dom) -> bool {
        &&& other.size() == self.size()
        &&& other.root() == self.root()
        &&& forall|i: NodeId| #[trigger]
            self.has(i) ==> {
                &&& other.kind_at(i) == self.kind_at(i)
                &&& other.ns_at(i) == self.ns_at(i)
                &&& other.local_at(i) == self.local_at(i)
                &&& other.attributes_at(i) == self.attributes_at(i)
                &&& other.text_at(i) == self.text_at(i)
                &&& other.parent_at(i) == self.parent_at(i)
                &&& other.children_at(i) == self.children_at(i)
                &&& other.depth_at(i) == self.depth_at(i)
            }
    }

    /// Adds an attribute to `id`, after those it has.
    pub fn add_attribute(&mut self, id: NodeId, attribute: Attribute)
        requires
            old(self).wf(),
            old(self).has(id),
        ensures
            final(self).wf(),
            final(self).attributes_at(id) == old(self).attributes_at(id).push(attribute),
            final(self).size() == old(self).size(),
            final(self).root() == old(self).root(),
            final(self).quirks() == old(self).quirks(),
            forall|i: NodeId| #[trigger] old(self).has(i) ==> {
                &&& final(self).kind_at(i) == old(self).kind_at(i)
                &&& final(self).ns_at(i) == old(self).ns_at(i)
                &&& final(self).local_at(i) == old(self).local_at(i)
                &&& final(self).text_at(i) == old(self).text_at(i)
                &&& final(self).parent_at(i) == old(self).parent_at(i)
                &&& final(self).children_at(i) == old(self).children_at(i)
                &&& final(self).depth_at(i) == old(self).depth_at(i)
                &&& i != id ==> final(self).attributes_at(i) == old(self).attributes_at(i)
            },
    {
        self.nodes[id].attributes.push(attribute);
        proof {
            old(self).lemma_same_links(self);
        }
    }
}

/// The first attribute with the given name.
pub open spec fn found_attr(attributes: Seq<Attribute>, ns: Seq<char>, local: Seq<char>) -> Option<
    Attribute,
>
    decreases attributes.len(),
{
    if attributes.len() == 0 {
        None
    } else if attributes[0].ns@ == ns && attributes[0].local@ == local {
        Some(attributes[0])
    } else {
        found_attr(attributes.skip(1), ns, local)
    }
}

// ---------------------------------------------------------------------------
// What the walks visit
// ---------------------------------------------------------------------------
impl Dom {
    /// The node `k` parent steps above `id`.
    pub open spec fn rise(&self, id: NodeId, k: nat) -> Option<NodeId>
        decreases k,
    {
        if k == 0 {
            Some(id)
        } else {
            match self.rise(id, (k - 1) as nat) {
                Some(p) => self.parent_at(p),
                None => None,
            }
        }
    }

    /// Whether `id` is `top` or one of its descendants.
    pub open spec fn is_within(&self, id: NodeId, top: NodeId) -> bool {
        &&& self.has(id)
        &&& self.depth_at(id) >= self.depth_at(top)
        &&& self.rise(id, (self.depth_at(id) - self.depth_at(top)) as nat) == Some(top)
    }

    proof fn lemma_rise_has(&self, id: NodeId, k: nat)
        requires
            self.wf(),
            self.has(id),
        ensures
            self.rise(id, k) matches Some(p) ==> self.has(p) && self.depth_at(p) + k
                == self.depth_at(id),
        decreases k,
    {
        if k > 0 {
            self.lemma_rise_has(id, (k - 1) as nat);
        }
    }

    /// What is within a child is within its parent.
    pub proof fn lemma_within_parent(&self, id: NodeId, child: NodeId, top: NodeId)
        requires
            self.wf(),
            self.has(child),
            self.parent_at(child) == Some(top),
            self.is_within(id, child),
        ensures
            self.is_within(id, top),
    {
        assert(self.depth_at(child) == self.depth_at(top) + 1);
        let k = (self.depth_at(id) - self.depth_at(child)) as nat;
        assert(self.rise(id, k + 1) == Some(top));
    }

    /// No node is within two children of one parent.
    pub proof fn lemma_within_one_child(&self, id: NodeId, a: NodeId, b: NodeId, top: NodeId)
        requires
            self.wf(),
            self.has(a),
            self.has(b),
            self.parent_at(a) == Some(top),
            self.parent_at(b) == Some(top),
            self.is_within(id, a),
            self.is_within(id, b),
        ensures
            a == b,
    {
        assert(self.depth_at(a) == self.depth_at(b));
    }

    /// A walk in document order meets `id` and what is within it, each node
    /// once.
    pub proof fn lemma_order_visits(&self, id: NodeId)
        requires
            self.wf(),
            self.has(id),
        ensures
            self.order(id).no_duplicates(),
            forall|x: NodeId| #[trigger] self.order(id).contains(x) ==> self.is_within(x, id),
        decreases usize::MAX - self.depth_at(id), self.children_at(id).len() + 1,
    {
        self.lemma_order_from_visits(id, 0);
        let rest = self.order_from(id, 0);
        assert forall|x: NodeId| #[trigger] self.order(id).contains(x) implies self.is_within(
            x,
            id,
        ) by {
            let i = choose|i: int| 0 <= i < self.order(id).len() && self.order(id)[i] == x;
            if i == 0 {
                assert(self.rise(id, 0) == Some(id));
            } else {
                assert(rest[i - 1] == x);
                assert(rest.contains(x));
            }
        }
        assert forall|i: int, j: int|
            0 <= i < j < self.order(id).len() implies self.order(id)[i] != self.order(id)[j] by {
            assert(self.order(id)[j] == rest[j - 1]);
            assert(rest.contains(rest[j - 1]));
            if i > 0 {
                assert(self.order(id)[i] == rest[i - 1]);
            }
        }
    }

    proof fn lemma_order_from_visits(&self, id: NodeId, k: nat)
        requires
            self.wf(),
            self.has(id),
            k <= self.children_at(id).len(),
        ensures
            self.order_from(id, k).no_duplicates(),
            forall|x: NodeId| #[trigger]
                self.order_from(id, k).contains(x) ==> {
                    &&& self.is_within(x, id)
                    &&& x != id
                    &&& exists|j: int|
                        k <= j < self.children_at(id).len() && self.is_within(
                            x,
                            #[trigger] self.children_at(id)[j],
                        )
                },
        decreases usize::MAX - self.depth_at(id), self.children_at(id).len() - k,
    {
        if k < self.children_at(id).len() {
            let child = self.children_at(id)[k as int];
            assert(self.has(child) && self.parent_at(child) == Some(id));
            self.lemma_order_visits(child);
            self.lemma_order_from_visits(id, k + 1);
            let a = self.order(child);
            let b = self.order_from(id, k + 1);
            let whole = self.order_from(id, k);
            assert(whole == a + b);
            assert forall|x: NodeId| #[trigger] whole.contains(x) implies {
                &&& self.is_within(x, id)
                &&& x != id
                &&& exists|j: int|
                    k <= j < self.children_at(id).len() && self.is_within(
                        x,
                        #[trigger] self.children_at(id)[j],
                    )
            } by {
                let i = choose|i: int| 0 <= i < whole.len() && whole[i] == x;
                if i < a.len() {
                    assert(a[i] == x);
                    assert(a.contains(x));
                    self.lemma_within_parent(x, child, id);
                } else {
                    assert(b[i - a.len()] == x);
                    assert(b.contains(x));
                }
            }
            assert forall|i: int, j: int| 0 <= i < j < whole.len() implies whole[i]
                != whole[j] by {
                if j < a.len() {
                    assert(a[i] != a[j]);
                } else if i >= a.len() {
                    assert(b[i - a.len()] != b[j - a.len()]);
                } else if whole[i] == whole[j] {
                    let x = whole[i];
                    assert(a[i] == x && a.contains(x));
                    assert(b[j - a.len()] == x && b.contains(x));
                    let m = choose|m: int|
                        k + 1 <= m < self.children_at(id).len() && self.is_within(
                            x,
                            #[trigger] self.children_at(id)[m],
                        );
                    let other = self.children_at(id)[m];
                    self.lemma_within_one_child(x, child, other, id);
                    assert(self.children_at(id).no_duplicates());
                }
            }
        }
    }

    /// A walk with a stack meets `id` and what is within it, each node once.
    pub proof fn lemma_stack_order_visits(&self, id: NodeId)
        requires
            self.wf(),
            self.has(id),
        ensures
            self.stack_order(id).no_duplicates(),
            forall|x: NodeId| #[trigger]
                self.stack_order(id).contains(x) ==> self.is_within(x, id),
        decreases usize::MAX - self.depth_at(id), self.children_at(id).len() + 1,
    {
        let n = self.children_at(id).len();
        self.lemma_stack_order_upto_visits(id, n);
        let rest = self.stack_order_upto(id, n);
        let whole = self.stack_order(id);
        assert forall|x: NodeId| #[trigger] whole.contains(x) implies self.is_within(x, id) by {
            let i = choose|i: int| 0 <= i < whole.len() && whole[i] == x;
            if i == 0 {
                assert(self.rise(id, 0) == Some(id));
            } else {
                assert(rest[i - 1] == x);
                assert(rest.contains(x));
            }
        }
        assert forall|i: int, j: int| 0 <= i < j < whole.len() implies whole[i] != whole[j] by {
            assert(whole[j] == rest[j - 1]);
            assert(rest.contains(rest[j - 1]));
            if i > 0 {
                assert(whole[i] == rest[i - 1]);
            }
        }
    }

    proof fn lemma_stack_order_upto_visits(&self, id: NodeId, k: nat)
        requires
            self.wf(),
            self.has(id),
            k <= self.children_at(id).len(),
        ensures
            self.stack_order_upto(id, k).no_duplicates(),
            forall|x: NodeId| #[trigger]
                self.stack_order_upto(id, k).contains(x) ==> {
                    &&& self.is_within(x, id)
                    &&& x != id
                    &&& exists|j: int|
                        0 <= j < k && self.is_within(x, #[trigger] self.children_at(id)[j])
                },
        decreases usize::MAX - self.depth_at(id), k,
    {
        if k > 0 {
            let child = self.children_at(id)[k - 1];
            assert(self.has(child) && self.parent_at(child) == Some(id));
            self.lemma_stack_order_visits(child);
            self.lemma_stack_order_upto_visits(id, (k - 1) as nat);
            let a = self.stack_order(child);
            let b = self.stack_order_upto(id, (k - 1) as nat);
            let whole = self.stack_order_upto(id, k);
            assert(whole == a + b);
            assert forall|x: NodeId| #[trigger] whole.contains(x) implies {
                &&& self.is_within(x, id)
                &&& x != id
                &&& exists|j: int|
                    0 <= j < k && self.is_within(x, #[trigger] self.children_at(id)[j])
            } by {
                let i = choose|i: int| 0 <= i < whole.len() && whole[i] == x;
                if i < a.len() {
                    assert(a[i] == x);
                    assert(a.contains(x));
                    self.lemma_within_parent(x, child, id);
                } else {
                    assert(b[i - a.len()] == x);
                    assert(b.contains(x));
                }
            }
            assert forall|i: int, j: int| 0 <= i < j < whole.len() implies whole[i]
                != whole[j] by {
                if j < a.len() {
                    assert(a[i] != a[j]);
                } else if i >= a.len() {
                    assert(b[i - a.len()] != b[j - a.len()]);
                } else if whole[i] == whole[j] {
                    let x = whole[i];
                    assert(a[i] == x && a.contains(x));
                    assert(b[j - a.len()] == x && b.contains(x));
                    let m = choose|m: int|
                        0 <= m < k - 1 && self.is_within(x, #[trigger] self.children_at(id)[m]);
                    let other = self.children_at(id)[m];
                    self.lemma_within_one_child(x, child, other, id);
                    assert(self.children_at(id).no_duplicates());
                }
            }
        }
    }

    /// What is below `top` is within one of its children.
    pub proof fn lemma_child_toward(&self, x: NodeId, top: NodeId) -> (j: int)
        requires
            self.wf(),
            self.has(top),
            self.is_within(x, top),
            x != top,
        ensures
            0 <= j < self.children_at(top).len(),
            self.is_within(x, self.children_at(top)[j]),
    {
        let k = (self.depth_at(x) - self.depth_at(top)) as nat;
        assert(k > 0) by {
            if k == 0 {
                assert(self.rise(x, 0) == Some(x));
            }
        }
        let c = self.rise(x, (k - 1) as nat)->0;
        self.lemma_rise_has(x, (k - 1) as nat);
        assert(self.parent_at(c) == Some(top));
        assert(self.children_at(top).contains(c));
        let j = choose|j: int| 0 <= j < self.children_at(top).len() && self.children_at(top)[j] == c;
        j
    }

    /// Steps up add up.
    proof fn lemma_rise_add(&self, id: NodeId, j: nat, k: nat)
        requires
            self.rise(id, j) is Some,
        ensures
            self.rise(id, j + k) == self.rise(self.rise(id, j)->0, k),
        decreases k,
    {
        if k > 0 {
            self.lemma_rise_add(id, j, (k - 1) as nat);
        }
    }

    /// A node is within whatever is some steps above it.
    pub proof fn lemma_rise_is_within(&self, id: NodeId, k: nat)
        requires
            self.wf(),
            self.has(id),
        ensures
            self.rise(id, k) matches Some(a) ==> self.has(a) && self.is_within(id, a),
    {
        self.lemma_rise_has(id, k);
    }

    /// What is within a node is within whatever that node is within.
    pub proof fn within_is_transitive(&self, x: NodeId, mid: NodeId, top: NodeId)
        requires
            self.wf(),
            self.has(mid),
            self.is_within(x, mid),
            self.is_within(mid, top),
        ensures
            self.is_within(x, top),
    {
        let j = (self.depth_at(x) - self.depth_at(mid)) as nat;
        let k = (self.depth_at(mid) - self.depth_at(top)) as nat;
        self.lemma_rise_add(x, j, k);
    }

    /// The parent of what is below a node is within that node.
    pub proof fn lemma_parent_is_within(&self, x: NodeId, top: NodeId)
        requires
            self.wf(),
            self.has(top),
            self.is_within(x, top),
            x != top,
        ensures
            self.parent_at(x) is Some,
            self.is_within(self.parent_at(x)->0, top),
        decreases usize::MAX - self.depth_at(top),
    {
        let j = self.lemma_child_toward(x, top);
        let c = self.children_at(top)[j];
        assert(self.has(c) && self.parent_at(c) == Some(top));
        if x == c {
            assert(self.rise(top, 0) == Some(top));
        } else {
            self.lemma_parent_is_within(x, c);
            self.lemma_within_parent(self.parent_at(x)->0, c, top);
        }
    }

    proof fn lemma_order_from_splits(&self, id: NodeId, k: nat, j: nat)
        requires
            self.wf(),
            self.has(id),
            k <= j < self.children_at(id).len(),
        ensures
            forall|x: NodeId| #[trigger]
                self.order(self.children_at(id)[j as int]).contains(x) ==> self.order_from(
                    id,
                    k,
                ).contains(x),
        decreases j - k,
    {
        let child = self.children_at(id)[k as int];
        assert(self.has(child));
        let a = self.order(child);
        let b = self.order_from(id, k + 1);
        assert(self.order_from(id, k) == a + b);
        if k < j {
            self.lemma_order_from_splits(id, k + 1, j);
        }
        assert forall|x: NodeId| #[trigger]
            self.order(self.children_at(id)[j as int]).contains(x) implies self.order_from(
            id,
            k,
        ).contains(x) by {
            if k == j {
                let i = choose|i: int| 0 <= i < a.len() && a[i] == x;
                assert((a + b)[i] == x);
            } else {
                let i = choose|i: int| 0 <= i < b.len() && b[i] == x;
                assert((a + b)[a.len() + i] == x);
            }
        }
    }

    proof fn lemma_stack_order_upto_splits(&self, id: NodeId, k: nat, j: nat)
        requires
            self.wf(),
            self.has(id),
            j < k <= self.children_at(id).len(),
        ensures
            forall|x: NodeId| #[trigger]
                self.stack_order(self.children_at(id)[j as int]).contains(x)
                    ==> self.stack_order_upto(id, k).contains(x),
        decreases k,
    {
        let child = self.children_at(id)[k - 1];
        assert(self.has(child));
        let a = self.stack_order(child);
        let b = self.stack_order_upto(id, (k - 1) as nat);
        assert(self.stack_order_upto(id, k) == a + b);
        if j < k - 1 {
            self.lemma_stack_order_upto_splits(id, (k - 1) as nat, j);
        }
        assert forall|x: NodeId| #[trigger]
            self.stack_order(self.children_at(id)[j as int]).contains(
                x,
            ) implies self.stack_order_upto(id, k).contains(x) by {
            if j == k - 1 {
                let i = choose|i: int| 0 <= i < a.len() && a[i] == x;
                assert((a + b)[i] == x);
            } else {
                let i = choose|i: int| 0 <= i < b.len() && b[i] == x;
                assert((a + b)[a.len() + i] == x);
            }
        }
    }

    /// The two walks from `top` meet the same nodes: `top` and its descendants.
    pub proof fn walks_meet_exactly_the_subtree(&self, x: NodeId, top: NodeId)
        requires
            self.wf(),
            self.has(top),
        ensures
            self.order(top).contains(x) <==> self.is_within(x, top),
            self.stack_order(top).contains(x) <==> self.is_within(x, top),
        decreases usize::MAX - self.depth_at(top),
    {
        self.lemma_order_visits(top);
        self.lemma_stack_order_visits(top);
        if self.is_within(x, top) {
            if x == top {
                assert(self.order(top)[0] == x);
                assert(self.stack_order(top)[0] == x);
            } else {
                let j = self.lemma_child_toward(x, top);
                let c = self.children_at(top)[j];
                assert(self.has(c) && self.parent_at(c) == Some(top));
                self.walks_meet_exactly_the_subtree(x, c);
                self.lemma_order_from_splits(top, 0, j as nat);
                let rest = self.order_from(top, 0);
                let i = choose|i: int| 0 <= i < rest.len() && rest[i] == x;
                assert(self.order(top)[i + 1] == x);
                self.lemma_stack_order_upto_splits(top, self.children_at(top).len(), j as nat);
                let srest = self.stack_order_upto(top, self.children_at(top).len());
                let m = choose|m: int| 0 <= m < srest.len() && srest[m] == x;
                assert(self.stack_order(top)[m + 1] == x);
            }
        }
    }
}

// ---------------------------------------------------------------------------
// What the tree says of its nodes
// ---------------------------------------------------------------------------
impl Dom {
    /// Whether `a` is the first node from `id` up that `p` holds of, `k` steps
    /// above it.
    pub open spec fn is_first_above(
        &self,
        id: NodeId,
        p: spec_fn(NodeId) -> bool,
        a: NodeId,
        k: nat,
    ) -> bool {
        &&& self.rise(id, k) == Some(a)
        &&& p(a)
        &&& forall|j: nat| j < k ==> ((#[trigger] self.rise(id, j)) matches Some(b) && !p(b))
    }

    /// A step up and some more are as many from the parent.
    pub proof fn lemma_rise_from_parent(&self, id: NodeId, k: nat)
        ensures
            match self.parent_at(id) {
                Some(p) => self.rise(id, k + 1) == self.rise(p, k),
                None => self.rise(id, k + 1) is None,
            },
        decreases k,
    {
        if k > 0 {
            self.lemma_rise_from_parent(id, (k - 1) as nat);
        } else {
            reveal_with_fuel(Dom::rise, 2);
        }
    }

    /// The nearest node that a condition holds of is the first from the node up:
    /// it holds of none on the way. There is none where it holds of neither the
    /// node nor anything above it.
    pub proof fn the_nearest_is_the_first_above(&self, id: NodeId, p: spec_fn(NodeId) -> bool)
        requires
            self.wf(),
            self.has(id),
        ensures
            match self.nearest(id, p) {
                Some(a) => self.has(a) && exists|k: nat| #[trigger]
                    self.is_first_above(id, p, a, k),
                None => forall|k: nat| (#[trigger] self.rise(id, k)) matches Some(b) ==> !p(b),
            },
        decreases self.depth_at(id),
    {
        assert(self.rise(id, 0) == Some(id));
        if p(id) {
            assert(self.is_first_above(id, p, id, 0));
        } else {
            if let Some(up) = self.parent_at(id) {
                assert(self.has(up));
                self.the_nearest_is_the_first_above(up, p);
                match self.nearest(up, p) {
                    Some(a) => {
                        let k = choose|k: nat| #[trigger] self.is_first_above(up, p, a, k);
                        self.lemma_rise_from_parent(id, k);
                        assert forall|j: nat| j < k + 1 implies ((#[trigger] self.rise(
                            id,
                            j,
                        )) matches Some(b) && !p(b)) by {
                            if j > 0 {
                                self.lemma_rise_from_parent(id, (j - 1) as nat);
                                assert(self.rise(up, (j - 1) as nat) == self.rise(id, j));
                            }
                        }
                        assert(self.is_first_above(id, p, a, k + 1));
                    },
                    None => {
                        assert forall|k: nat| (#[trigger] self.rise(id, k)) matches Some(
                            b,
                        ) implies !p(self.rise(id, k)->0) by {
                            if k > 0 {
                                self.lemma_rise_from_parent(id, (k - 1) as nat);
                                assert(self.rise(up, (k - 1) as nat) == self.rise(id, k));
                            }
                        }
                    },
                }
            } else {
                assert forall|k: nat| (#[trigger] self.rise(id, k)) matches Some(b) implies !p(
                    self.rise(id, k)->0,
                ) by {
                    if k > 0 {
                        self.lemma_rise_from_parent(id, (k - 1) as nat);
                    }
                }
            }
        }
    }

    /// The nodes of a chain are the node and what it is within, one step up at a
    /// time.
    pub proof fn a_chain_goes_up_step_by_step(&self, id: NodeId, k: nat)
        requires
            self.wf(),
            self.has(id),
        ensures
            self.rise(id, k) == (if k < self.chain(id).len() {
                Some(self.chain(id)[k as int])
            } else {
                None
            }),
        decreases k,
    {
        if k > 0 {
            self.lemma_rise_from_parent(id, (k - 1) as nat);
            if let Some(p) = self.parent_at(id) {
                assert(self.has(p));
                self.a_chain_goes_up_step_by_step(p, (k - 1) as nat);
            }
        }
    }

    /// An attribute has the value of the first one of its name, and none where no
    /// attribute has the name.
    pub proof fn the_first_attribute_of_a_name_counts(
        &self,
        id: NodeId,
        ns: Seq<char>,
        local: Seq<char>,
    )
        ensures
            ({
                let all = self.attributes_at(id);
                match self.attr_at(id, ns, local) {
                    Some(v) => exists|i: int|
                        0 <= i < all.len() && (#[trigger] all[i]).value@ == v && all[i].ns@ == ns
                            && all[i].local@ == local && forall|j: int|
                            0 <= j < i ==> !((#[trigger] all[j]).ns@ == ns && all[j].local@ == local),
                    None => forall|i: int|
                        0 <= i < all.len() ==> !((#[trigger] all[i]).ns@ == ns && all[i].local@
                            == local),
                }
            }),
    {
        lemma_found_attr(self.attributes_at(id), ns, local);
    }

    /// In document order a node comes first, and what is within one of its
    /// children comes before what is within a later one.
    pub proof fn earlier_children_come_first(
        &self,
        id: NodeId,
        a: int,
        b: int,
        i: int,
        j: int,
    )
        requires
            self.wf(),
            self.has(id),
            0 <= a < b < self.children_at(id).len(),
            0 <= i < self.order(id).len(),
            0 <= j < self.order(id).len(),
            self.is_within(self.order(id)[i], self.children_at(id)[a]),
            self.is_within(self.order(id)[j], self.children_at(id)[b]),
        ensures
            self.order(id)[0] == id,
            0 < i < j,
    {
        let all = self.order(id);
        let rest = self.order_from(id, 0);
        let ca = self.children_at(id)[a];
        let cb = self.children_at(id)[b];
        assert(self.has(ca) && self.parent_at(ca) == Some(id));
        assert(self.has(cb) && self.parent_at(cb) == Some(id));
        assert(self.depth_at(ca) == self.depth_at(id) + 1);
        assert(self.depth_at(cb) == self.depth_at(id) + 1);
        assert(all[i] == rest[i - 1]);
        assert(all[j] == rest[j - 1]);
        self.lemma_order_from_sorted(id, 0, a, b, i - 1, j - 1);
    }

    proof fn lemma_order_from_sorted(&self, id: NodeId, k: nat, a: int, b: int, i: int, j: int)
        requires
            self.wf(),
            self.has(id),
            k <= a < b < self.children_at(id).len(),
            0 <= i < self.order_from(id, k).len(),
            0 <= j < self.order_from(id, k).len(),
            self.is_within(self.order_from(id, k)[i], self.children_at(id)[a]),
            self.is_within(self.order_from(id, k)[j], self.children_at(id)[b]),
        ensures
            i < j,
        decreases b - k,
    {
        let c = self.children_at(id)[k as int];
        let ca = self.children_at(id)[a];
        let cb = self.children_at(id)[b];
        assert(self.has(c) && self.parent_at(c) == Some(id));
        assert(self.has(ca) && self.parent_at(ca) == Some(id));
        assert(self.has(cb) && self.parent_at(cb) == Some(id));
        assert(self.children_at(id).no_duplicates());
        let first = self.order(c);
        let rest = self.order_from(id, k + 1);
        let all = self.order_from(id, k);
        assert(all == first + rest);
        self.lemma_order_visits(c);
        assert(j >= first.len()) by {
            if j < first.len() {
                assert(first.contains(first[j]));
                self.lemma_within_one_child(all[j], c, cb, id);
            }
        }
        if i >= first.len() {
            if a == k {
                self.lemma_order_from_visits(id, k + 1);
                let x = rest[i - first.len()];
                assert(rest.contains(x));
                let m = choose|m: int|
                    k + 1 <= m < self.children_at(id).len() && self.is_within(
                        x,
                        #[trigger] self.children_at(id)[m],
                    );
                let other = self.children_at(id)[m];
                assert(self.has(other) && self.parent_at(other) == Some(id));
                self.lemma_within_one_child(x, ca, other, id);
            } else {
                self.lemma_order_from_sorted(
                    id,
                    k + 1,
                    a,
                    b,
                    i - first.len(),
                    j - first.len(),
                );
            }
        }
    }
}

proof fn lemma_found_attr(attributes: Seq<Attribute>, ns: Seq<char>, local: Seq<char>)
    ensures
        match found_attr(attributes, ns, local) {
            Some(a) => exists|i: int|
                0 <= i < attributes.len() && #[trigger] attributes[i] == a && a.ns@ == ns
                    && a.local@ == local && forall|j: int|
                    0 <= j < i ==> !((#[trigger] attributes[j]).ns@ == ns && attributes[j].local@
                        == local),
            None => forall|i: int|
                0 <= i < attributes.len() ==> !((#[trigger] attributes[i]).ns@ == ns
                    && attributes[i].local@ == local),
        },
    decreases attributes.len(),
{
    if attributes.len() > 0 && !(attributes[0].ns@ == ns && attributes[0].local@ == local) {
        let rest = attributes.skip(1);
        lemma_found_attr(rest, ns, local);
        match found_attr(rest, ns, local) {
            Some(a) => {
                let i = choose|i: int|
                    0 <= i < rest.len() && #[trigger] rest[i] == a && a.ns@ == ns && a.local@
                        == local && forall|j: int|
                        0 <= j < i ==> !((#[trigger] rest[j]).ns@ == ns && rest[j].local@ == local);
                assert(attributes[i + 1] == a);
                assert forall|j: int| 0 <= j < i + 1 implies !((#[trigger] attributes[j]).ns@ == ns
                    && attributes[j].local@ == local) by {
                    if j > 0 {
                        assert(attributes[j] == rest[j - 1]);
                    }
                }
            },
            None => {
                assert forall|i: int| 0 <= i < attributes.len() implies !((
                #[trigger] attributes[i]).ns@ == ns && attributes[i].local@ == local) by {
                    if i > 0 {
                        assert(attributes[i] == rest[i - 1]);
                    }
                }
            },
        }
    }
}

impl Dom {
    /// A node that is appended becomes the last child of its parent, without children
    /// of its own; every node that was there keeps its place under its parent.
    pub proof fn an_appended_node_is_the_last_child(
        &self,
        other: &Dom,
        parent: NodeId,
        id: NodeId,
        x: NodeId,
    )
        requires
            self.has(parent),
            self.has(x),
            self.grown(other, parent, id),
        ensures
            other.size() - self.size() == 1,
            other.children_at(parent).len() == self.children_at(parent).len() + 1,
            other.children_at(parent).last() == id,
            other.children_at(parent).drop_last() == self.children_at(parent),
            other.parent_at(id) == Some(parent),
            other.children_at(id).len() == 0,
            other.parent_at(x) == self.parent_at(x),
            x != parent ==> other.children_at(x) == self.children_at(x),
            other.kind_at(x) == self.kind_at(x),
            other.text_at(x) == self.text_at(x),
            other.attributes_at(x) == self.attributes_at(x),
    {
        assert(other.children_at(parent).drop_last() =~= self.children_at(parent));
    }
}

} // verus!
