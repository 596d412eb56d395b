//! The box tree: an arena of boxes built from the document and its styles,
//! children before parents, which the layout algorithms then run over.
use vstd::prelude::*;
use crate::construct;
use crate::construct::{establishes_inline_context, is_replaced, replaced_px_size, Extent};
use crate::dom::{Dom, NodeId, NodeKind};
use crate::fragment::{FragmentPlane, Layout};
use crate::image_decode::ImagePlane;
use crate::inline_content;
use crate::inline_content::{
    gather_inline_content, list_marker_content, list_marker_inline_run, list_marker_is_inside,
    inline_sources, run_for_element, InlineContent, InlineRun, SourceSpan,
};
use crate::layout_style;
use crate::layout_style::{box_display, BoxDisplay};
use crate::node_map::NodeMap;
use crate::style_plane::{ComputedStyle, DisplayInside, DisplayOutside, StylePlane};

verus! {

/// One box.
pub struct BoxNode {
    /// The element whose computed values style the box; `None` for the CSS
    /// initial values.
    pub style: Option<NodeId>,
    /// The boxes of the children, in document order.
    pub children: Vec<usize>,
    /// The content of a box that text is set in.
    pub inline_content: Option<InlineContent>,
    /// The marker that hangs beside a list item.
    pub marker: Option<InlineContent>,
    /// The size of a replaced box.
    pub replaced_size: Option<(Extent, Extent)>,
}

impl BoxNode {
    /// A box in the given style, with nothing in it.
    pub open spec fn is_blank(self, style: Option<NodeId>) -> bool {
        &&& self.style == style
        &&& self.children@.len() == 0
        &&& self.inline_content is None
        &&& self.marker is None
        &&& self.replaced_size is None
    }

    /// A box in the given style, with nothing in it.
    pub fn new(style: Option<NodeId>) -> (r: BoxNode)
        ensures
            r.is_blank(style),
    {
        BoxNode {
            style,
            children: Vec::new(),
            inline_content: None,
            marker: None,
            replaced_size: None,
        }
    }
}

/// The boxes of a document.
pub struct BoxTree {
    pub nodes: Vec<BoxNode>,
    pub root: usize,
    /// The box of each node that has one.
    pub node_map: NodeMap<usize>,
}

// ---------------------------------------------------------------------------
// The shape of the tree
// ---------------------------------------------------------------------------
/// Whether an element has one box for all it holds: replaced content, or lines
/// of text.
pub open spec fn is_leaf_box(dom: &Dom, styles: &StylePlane, elem: NodeId) -> bool {
    construct::replaced(dom, elem) || construct::lays_out_lines(dom, styles, elem)
}

/// The nodes of an element's subtree that have a box, in the order in which
/// their boxes stand: children before their parent.
pub open spec fn box_order(dom: &Dom, styles: &StylePlane, elem: NodeId) -> Seq<NodeId>
    decreases usize::MAX - dom.depth_at(elem), dom.children_at(elem).len() + 1,
    when dom.wf() && dom.has(elem)
{
    if is_leaf_box(dom, styles, elem) {
        seq![elem]
    } else {
        box_order_upto(dom, styles, elem, dom.children_at(elem).len()).push(elem)
    }
}

/// The nodes below the first `k` children of an element (and those children)
/// that have a box.
pub open spec fn box_order_upto(dom: &Dom, styles: &StylePlane, elem: NodeId, k: nat) -> Seq<NodeId>
    decreases usize::MAX - dom.depth_at(elem), k,
    when dom.wf() && dom.has(elem) && k <= dom.children_at(elem).len()
{
    if k == 0 {
        Seq::empty()
    } else {
        let before = box_order_upto(dom, styles, elem, (k - 1) as nat);
        let child = dom.children_at(elem)[k - 1];
        match dom.kind_at(child) {
            NodeKind::Element => before + box_order(dom, styles, child),
            NodeKind::Text => before.push(child),
            _ => before,
        }
    }
}

/// Where the boxes of the first `k` children of an element stand, if those of
/// the first one begin at `base`: each child's own box is the last of its
/// subtree's.
pub open spec fn child_boxes(
    dom: &Dom,
    styles: &StylePlane,
    elem: NodeId,
    base: int,
    k: nat,
) -> Seq<int>
    decreases k,
{
    if k == 0 {
        Seq::empty()
    } else {
        let before = child_boxes(dom, styles, elem, base, (k - 1) as nat);
        match dom.kind_at(dom.children_at(elem)[k - 1]) {
            NodeKind::Element | NodeKind::Text => before.push(
                base + box_order_upto(dom, styles, elem, k).len() - 1,
            ),
            _ => before,
        }
    }
}

/// Box numbers as plain numbers.
pub open spec fn as_ints(s: Seq<usize>) -> Seq<int> {
    s.map(|i: int, v: usize| v as int)
}

/// The style of an element's box.
pub open spec fn style_source(styles: &StylePlane, id: NodeId) -> Option<NodeId> {
    if styles.primary_at(id) is Some {
        Some(id)
    } else {
        None
    }
}

/// Whether some content is that of a box that an element's text is set in: the
/// element's content, after its marker where that flows inside.
pub open spec fn lines_are(
    content: InlineContent,
    dom: &Dom,
    styles: &StylePlane,
    images: &ImagePlane,
    elem: NodeId,
) -> bool {
    exists|own: InlineContent|
        {
            &&& #[trigger] inline_content::content_is(own, dom, styles, images, elem)
            &&& content.boxes@ == own.boxes@
            &&& inline_content::run_views(content.runs@) == (if inline_content::marker_inside(styles, elem) {
                match inline_content::flowing_marker(dom, styles, elem) {
                    Some(run) => seq![run] + inline_content::run_views(own.runs@),
                    None => inline_content::run_views(own.runs@),
                }
            } else {
                inline_content::run_views(own.runs@)
            })
        }
}

/// Whether a box is the own box of an element, the boxes of whose children
/// begin at `base`.
pub open spec fn own_box_is(
    node: BoxNode,
    base: int,
    dom: &Dom,
    styles: &StylePlane,
    images: &ImagePlane,
    elem: NodeId,
) -> bool {
    &&& node.style == style_source(styles, elem)
    &&& if construct::replaced(dom, elem) {
        &&& node.children@.len() == 0
        &&& node.inline_content is None
        &&& node.marker is None
        &&& node.replaced_size == Some(construct::replaced_size(dom, styles, images, elem))
    } else if construct::lays_out_lines(dom, styles, elem) {
        &&& node.children@.len() == 0
        &&& node.inline_content matches Some(c) && lines_are(c, dom, styles, images, elem)
        &&& if inline_content::marker_inside(styles, elem) {
            node.marker is None
        } else {
            inline_content::marker_content_is(node.marker, dom, styles, elem)
        }
        &&& node.replaced_size is None
    } else {
        &&& as_ints(node.children@) == child_boxes(
            dom,
            styles,
            elem,
            base,
            dom.children_at(elem).len(),
        )
        &&& node.inline_content is None
        &&& inline_content::marker_content_is(node.marker, dom, styles, elem)
        &&& node.replaced_size is None
    }
}

/// Whether a box is that of a text node in a container of blocks: one run of
/// the text as it stands, in the style of the container.
pub open spec fn text_box_is(
    node: BoxNode,
    dom: &Dom,
    styles: &StylePlane,
    container: NodeId,
    id: NodeId,
) -> bool {
    let text = match dom.text_at(id) {
        Some(t) => t,
        None => ""@,
    };
    &&& node.style is None
    &&& node.children@.len() == 0
    &&& node.marker is None
    &&& node.replaced_size is None
    &&& node.inline_content matches Some(c) && inline_content::run_views(c.runs@) == seq![
        inline_content::run_model(styles, container, text),
    ] && c.boxes@.len() == 0
}

/// Whether the boxes from `base` on are those of an element's subtree.
pub open spec fn boxes_are(
    nodes: Seq<BoxNode>,
    base: int,
    dom: &Dom,
    styles: &StylePlane,
    images: &ImagePlane,
    elem: NodeId,
) -> bool
    decreases usize::MAX - dom.depth_at(elem), dom.children_at(elem).len() + 1,
    when dom.wf() && dom.has(elem)
{
    let own = base + box_order(dom, styles, elem).len() - 1;
    &&& 0 <= base
    &&& own < nodes.len()
    &&& own_box_is(nodes[own], base, dom, styles, images, elem)
    &&& !is_leaf_box(dom, styles, elem) ==> child_boxes_are(
        nodes,
        base,
        dom,
        styles,
        images,
        elem,
        dom.children_at(elem).len(),
    )
}

/// Whether the boxes from `base` on are those of the subtrees of the first `k`
/// children of an element.
pub open spec fn child_boxes_are(
    nodes: Seq<BoxNode>,
    base: int,
    dom: &Dom,
    styles: &StylePlane,
    images: &ImagePlane,
    elem: NodeId,
    k: nat,
) -> bool
    decreases usize::MAX - dom.depth_at(elem), k,
    when dom.wf() && dom.has(elem) && k <= dom.children_at(elem).len()
{
    k > 0 ==> {
        let child = dom.children_at(elem)[k - 1];
        let at = base + box_order_upto(dom, styles, elem, (k - 1) as nat).len();
        &&& child_boxes_are(nodes, base, dom, styles, images, elem, (k - 1) as nat)
        &&& match dom.kind_at(child) {
            NodeKind::Element => boxes_are(nodes, at, dom, styles, images, child),
            NodeKind::Text => at < nodes.len() && text_box_is(
                nodes[at],
                dom,
                styles,
                elem,
                child,
            ),
            _ => true,
        }
    }
}

/// A map of nodes to boxes with some nodes added, whose boxes begin at `base`.
pub open spec fn mapped(m: Map<NodeId, usize>, order: Seq<NodeId>, base: int) -> Map<NodeId, usize>
    decreases order.len(),
{
    if order.len() == 0 {
        m
    } else {
        mapped(m, order.drop_last(), base).insert(
            order.last(),
            (base + order.len() - 1) as usize,
        )
    }
}

proof fn lemma_mapped_add(m: Map<NodeId, usize>, a: Seq<NodeId>, b: Seq<NodeId>, base: int)
    ensures
        mapped(m, a + b, base) == mapped(mapped(m, a, base), b, base + a.len()),
    decreases b.len(),
{
    if b.len() == 0 {
        assert(a + b =~= a);
    } else {
        assert((a + b).drop_last() =~= a + b.drop_last());
        assert((a + b).last() == b.last());
        lemma_mapped_add(m, a, b.drop_last(), base);
    }
}

proof fn lemma_mapped_push(m: Map<NodeId, usize>, a: Seq<NodeId>, id: NodeId, base: int)
    ensures
        mapped(m, a.push(id), base) == mapped(m, a, base).insert(id, (base + a.len()) as usize),
{
    assert(a.push(id).drop_last() =~= a);
}

/// Boxes that stay in place keep what they are.
proof fn lemma_boxes_stay(
    before: Seq<BoxNode>,
    after: Seq<BoxNode>,
    base: int,
    dom: &Dom,
    styles: &StylePlane,
    images: &ImagePlane,
    elem: NodeId,
)
    requires
        dom.wf(),
        dom.has(elem),
        boxes_are(before, base, dom, styles, images, elem),
        before.len() <= after.len(),
        forall|i: int| 0 <= i < before.len() ==> #[trigger] after[i] == before[i],
    ensures
        boxes_are(after, base, dom, styles, images, elem),
    decreases usize::MAX - dom.depth_at(elem), dom.children_at(elem).len() + 1,
{
    let own = base + box_order(dom, styles, elem).len() - 1;
    assert(box_order(dom, styles, elem).len() >= 1);
    assert(after[own] == before[own]);
    if !is_leaf_box(dom, styles, elem) {
        lemma_child_boxes_stay(
            before,
            after,
            base,
            dom,
            styles,
            images,
            elem,
            dom.children_at(elem).len(),
        );
    }
}

proof fn lemma_child_boxes_stay(
    before: Seq<BoxNode>,
    after: Seq<BoxNode>,
    base: int,
    dom: &Dom,
    styles: &StylePlane,
    images: &ImagePlane,
    elem: NodeId,
    k: nat,
)
    requires
        dom.wf(),
        dom.has(elem),
        0 <= base,
        k <= dom.children_at(elem).len(),
        child_boxes_are(before, base, dom, styles, images, elem, k),
        before.len() <= after.len(),
        forall|i: int| 0 <= i < before.len() ==> #[trigger] after[i] == before[i],
    ensures
        child_boxes_are(after, base, dom, styles, images, elem, k),
    decreases usize::MAX - dom.depth_at(elem), k,
{
    if k > 0 {
        let child = dom.children_at(elem)[k - 1];
        assert(dom.has(child) && dom.parent_at(child) == Some(elem));
        let at = base + box_order_upto(dom, styles, elem, (k - 1) as nat).len();
        lemma_child_boxes_stay(
            before,
            after,
            base,
            dom,
            styles,
            images,
            elem,
            (k - 1) as nat,
        );
        match dom.kind_at(child) {
            NodeKind::Element => {
                lemma_boxes_stay(before, after, at, dom, styles, images, child);
            },
            NodeKind::Text => {
                assert(after[at] == before[at]);
            },
            _ => {},
        }
    }
}

// ---------------------------------------------------------------------------
// Building
// ---------------------------------------------------------------------------
impl BoxTree {
    /// Whether `after` is this tree with the boxes of the nodes in `order`
    /// added.
    spec fn grows_to(self, after: BoxTree, order: Seq<NodeId>) -> bool {
        &&& after.nodes@.len() == self.nodes@.len() + order.len()
        &&& forall|i: int|
            0 <= i < self.nodes@.len() ==> #[trigger] after.nodes@[i] == self.nodes@[i]
        &&& after.node_map@ == mapped(self.node_map@, order, self.nodes@.len() as int)
    }

    /// Adds the box of a node.
    fn push(&mut self, id: NodeId, node: BoxNode) -> (r: usize)
        ensures
            r == old(self).nodes@.len(),
            final(self).nodes@ == old(self).nodes@.push(node),
            final(self).node_map@ == old(self).node_map@.insert(id, r),
            final(self).root == old(self).root,
    {
        let i: usize = self.nodes.len();
        self.nodes.push(node);
        self.node_map.insert(id, i);
        i
    }

    /// The inline content of a node's box.
    pub open spec fn content_at(&self, node: NodeId) -> Option<InlineContent> {
        let index = self.node_map@[node];
        if self.node_map@.contains_key(node) && index < self.nodes@.len() {
            self.nodes@[index as int].inline_content
        } else {
            None
        }
    }

    /// The elements that the text of a node's box came from, by the bytes of the
    /// text; `None` where the box has no text.
    pub open spec fn sources_at(&self, leaf: NodeId) -> Option<Seq<SourceSpan>> {
        match self.content_at(leaf) {
            Some(c) => Some(inline_content::sources_of(c)),
            None => None,
        }
    }

    /// The elements that the text of a node's box came from, by the bytes of the
    /// text; `None` where the box has no text.
    pub fn inline_sources(&self, leaf: NodeId) -> (r: Option<Vec<SourceSpan>>)
        ensures
            self.sources_at(leaf) == (match r {
                Some(spans) => Some(spans@),
                None => None,
            }),
    {
        let index: usize = match self.node_map.get(leaf) {
            Some(index) => *index,
            None => return None,
        };
        match self.get_node_context(index) {
            Some(content) => Some(inline_sources(content)),
            None => None,
        }
    }

    /// The inline content of a box.
    pub fn get_node_context(&self, index: usize) -> (r: Option<&InlineContent>)
        ensures
            match r {
                Some(c) => index < self.nodes@.len() && self.nodes@[index as int].inline_content
                    == Some(*c),
                None => index < self.nodes@.len() ==> self.nodes@[index as int].inline_content
                    is None,
            },
    {
        if index < self.nodes.len() {
            match &self.nodes[index].inline_content {
                Some(c) => Some(c),
                None => None,
            }
        } else {
            None
        }
    }
}

/// The style of an element's box.
fn style_of(styles: &StylePlane, id: NodeId) -> (r: Option<NodeId>)
    ensures
        r == style_source(styles, id),
{
    if styles.primary(id).is_some() {
        Some(id)
    } else {
        None
    }
}

/// The content of the box that an element's text is set in.
fn line_content(dom: &Dom, styles: &StylePlane, images: &ImagePlane, elem: NodeId) -> (r:
    InlineContent)
    requires
        dom.wf(),
        dom.has(elem),
    ensures
        lines_are(r, dom, styles, images, elem),
{
    let own = gather_inline_content(dom, styles, images, elem);
    let ghost before = own;
    let mut content = own;
    if list_marker_is_inside(styles, elem) {
        if let Some(run) = list_marker_inline_run(dom, styles, elem) {
            content.runs.insert(0, run);
            assert(inline_content::run_views(content.runs@) =~= seq![run@] + inline_content::run_views(
                before.runs@,
            ));
        }
    }
    content
}

/// Builds the boxes of an element's subtree and gives the element's own.
fn build_node(
    dom: &Dom,
    styles: &StylePlane,
    images: &ImagePlane,
    elem: NodeId,
    tree: &mut BoxTree,
) -> (r: usize)
    requires
        dom.wf(),
        dom.has(elem),
    ensures
        old(tree).grows_to(*final(tree), box_order(dom, styles, elem)),
        r == old(tree).nodes@.len() + box_order(dom, styles, elem).len() - 1,
        boxes_are(
            final(tree).nodes@,
            old(tree).nodes@.len() as int,
            dom,
            styles,
            images,
            elem,
        ),
        final(tree).root == old(tree).root,
    decreases usize::MAX - dom.depth_at(elem),
{
    let ghost start = *tree;
    let ghost base = tree.nodes@.len() as int;
    let ghost order = box_order(dom, styles, elem);
    let style = style_of(styles, elem);
    proof {
        reveal_with_fuel(mapped, 2);
    }
    if is_replaced(dom, elem) {
        let mut node = BoxNode::new(style);
        node.replaced_size = Some(replaced_px_size(dom, styles, images, elem));
        let i = tree.push(elem, node);
        assert(order =~= seq![elem]);
        assert(order.drop_last() =~= Seq::<NodeId>::empty());
        return i;
    }
    if establishes_inline_context(dom, styles, elem) {
        let mut node = BoxNode::new(style);
        let content = line_content(dom, styles, images, elem);
        if !list_marker_is_inside(styles, elem) {
            node.marker = list_marker_content(dom, styles, elem);
        }
        node.inline_content = Some(content);
        let i = tree.push(elem, node);
        assert(order =~= seq![elem]);
        assert(order.drop_last() =~= Seq::<NodeId>::empty());
        return i;
    }
    let mut children: Vec<usize> = Vec::new();
    let kids = dom.dom_children(elem);
    let mut k: usize = 0;
    while k < kids.len()
        invariant
            dom.wf(),
            dom.has(elem),
            kids@ == dom.children_at(elem),
            k <= kids@.len(),
            base == start.nodes@.len(),
            start.grows_to(*tree, box_order_upto(dom, styles, elem, k as nat)),
            as_ints(children@) == child_boxes(dom, styles, elem, base, k as nat),
            child_boxes_are(tree.nodes@, base, dom, styles, images, elem, k as nat),
            tree.root == start.root,
        decreases kids.len() - k,
    {
        assert(dom.has(dom.children_at(elem)[k as int]));
        assert(dom.parent_at(dom.children_at(elem)[k as int]) == Some(elem));
        let child = kids[k];
        let ghost mid = *tree;
        let ghost done = box_order_upto(dom, styles, elem, k as nat);
        match dom.kind(child) {
            NodeKind::Element => {
                let i = build_node(dom, styles, images, child, tree);
                let ghost sub = box_order(dom, styles, child);
                proof {
                    lemma_mapped_add(start.node_map@, done, sub, base);
                    lemma_child_boxes_stay(
                        mid.nodes@,
                        tree.nodes@,
                        base,
                        dom,
                        styles,
                        images,
                        elem,
                        k as nat,
                    );
                }
                children.push(i);
                assert(as_ints(children@) =~= child_boxes(
                    dom,
                    styles,
                    elem,
                    base,
                    (k + 1) as nat,
                ));
            },
            NodeKind::Text => {
                let text = match dom.text(child) {
                    Some(t) => t,
                    None => "",
                };
                let mut runs: Vec<InlineRun> = Vec::new();
                runs.push(run_for_element(styles, elem, text.to_owned()));
                let content = InlineContent { runs, boxes: Vec::new() };
                assert(inline_content::run_views(content.runs@) =~= seq![
                    inline_content::run_model(styles, elem, text@),
                ]);
                let mut node = BoxNode::new(None);
                node.inline_content = Some(content);
                let i = tree.push(child, node);
                proof {
                    lemma_mapped_push(start.node_map@, done, child, base);
                    lemma_child_boxes_stay(
                        mid.nodes@,
                        tree.nodes@,
                        base,
                        dom,
                        styles,
                        images,
                        elem,
                        k as nat,
                    );
                }
                children.push(i);
                assert(as_ints(children@) =~= child_boxes(
                    dom,
                    styles,
                    elem,
                    base,
                    (k + 1) as nat,
                ));
            },
            _ => {},
        }
        k += 1;
    }
    let ghost mid = *tree;
    let ghost done = box_order_upto(dom, styles, elem, k as nat);
    let mut node = BoxNode::new(style);
    node.children = children;
    node.marker = list_marker_content(dom, styles, elem);
    let i = tree.push(elem, node);
    proof {
        lemma_mapped_push(start.node_map@, done, elem, base);
        lemma_child_boxes_stay(
            mid.nodes@,
            tree.nodes@,
            base,
            dom,
            styles,
            images,
            elem,
            dom.children_at(elem).len(),
        );
    }
    i
}

/// The first element among the children of `id` from number `k` on.
pub open spec fn first_element(dom: &Dom, id: NodeId, k: nat) -> Option<NodeId>
    decreases dom.children_at(id).len() - k,
{
    if k >= dom.children_at(id).len() {
        None
    } else if dom.kind_at(dom.children_at(id)[k as int]) == NodeKind::Element {
        Some(dom.children_at(id)[k as int])
    } else {
        first_element(dom, id, k + 1)
    }
}

/// The element that the layout of a subtree starts at: the subtree's root where
/// it is an element, else its first child that is one.
pub open spec fn layout_root_of(dom: &Dom, top: NodeId) -> Option<NodeId> {
    if dom.kind_at(top) == NodeKind::Element {
        Some(top)
    } else {
        first_element(dom, top, 0)
    }
}

/// The element that the layout of a document starts at.
pub open spec fn layout_root(dom: &Dom) -> Option<NodeId> {
    layout_root_of(dom, dom.root())
}

fn find_layout_root(dom: &Dom, top: NodeId) -> (r: Option<NodeId>)
    requires
        dom.wf(),
        dom.has(top),
    ensures
        r == layout_root_of(dom, top),
        r matches Some(id) ==> dom.has(id),
{
    if dom.kind(top) == NodeKind::Element {
        return Some(top);
    }
    let kids = dom.dom_children(top);
    let mut k: usize = 0;
    while k < kids.len()
        invariant
            dom.wf(),
            dom.has(top),
            dom.kind_at(top) != NodeKind::Element,
            kids@ == dom.children_at(top),
            k <= kids@.len(),
            first_element(dom, top, 0) == first_element(dom, top, k as nat),
        decreases kids.len() - k,
    {
        assert(dom.has(dom.children_at(top)[k as int]));
        if dom.kind(kids[k]) == NodeKind::Element {
            return Some(kids[k]);
        }
        k += 1;
    }
    None
}

/// Whether a tree is the box tree of a subtree: the boxes of the element that
/// layout starts at and of those below it, or a single empty box where there
/// is no element.
pub open spec fn tree_of(
    tree: &BoxTree,
    dom: &Dom,
    top: NodeId,
    styles: &StylePlane,
    images: &ImagePlane,
) -> bool {
    let empty = Map::<NodeId, usize>::empty();
    match layout_root_of(dom, top) {
        Some(elem) => {
            let order = box_order(dom, styles, elem);
            &&& tree.nodes@.len() == order.len()
            &&& tree.root == order.len() - 1
            &&& tree.node_map@ == mapped(empty, order, 0)
            &&& boxes_are(tree.nodes@, 0, dom, styles, images, elem)
        },
        None => {
            &&& tree.nodes@.len() == 1
            &&& tree.nodes@[0].is_blank(None)
            &&& tree.root == 0
            &&& tree.node_map@ == empty
        },
    }
}

/// Whether a tree is the box tree of a document.
pub open spec fn tree_is(
    tree: &BoxTree,
    dom: &Dom,
    styles: &StylePlane,
    images: &ImagePlane,
) -> bool {
    tree_of(tree, dom, dom.root(), styles, images)
}

/// Builds the box tree of a document.
pub fn build_box_tree(dom: &Dom, styles: &StylePlane, images: &ImagePlane) -> (r: BoxTree)
    requires
        dom.wf(),
    ensures
        tree_is(&r, dom, styles, images),
{
    build_subtree(dom, styles, images, dom.document())
}

/// Builds the box tree of a subtree as if it were the whole document.
pub fn build_subtree(dom: &Dom, styles: &StylePlane, images: &ImagePlane, top: NodeId) -> (r:
    BoxTree)
    requires
        dom.wf(),
        dom.has(top),
    ensures
        tree_of(&r, dom, top, styles, images),
{
    let mut tree = BoxTree { nodes: Vec::new(), root: 0, node_map: NodeMap::new() };
    match find_layout_root(dom, top) {
        Some(elem) => {
            let root = build_node(dom, styles, images, elem, &mut tree);
            tree.root = root;
        },
        None => {
            tree.nodes.push(BoxNode::new(None));
        },
    }
    tree
}

// ---------------------------------------------------------------------------
// Laws
// ---------------------------------------------------------------------------
/// The nodes with a box are each within the element, each met once.
proof fn lemma_box_order_visits(dom: &Dom, styles: &StylePlane, elem: NodeId)
    requires
        dom.wf(),
        dom.has(elem),
    ensures
        box_order(dom, styles, elem).no_duplicates(),
        forall|x: NodeId| #[trigger]
            box_order(dom, styles, elem).contains(x) ==> dom.is_within(x, elem),
    decreases usize::MAX - dom.depth_at(elem), dom.children_at(elem).len() + 1,
{
    let order = box_order(dom, styles, elem);
    assert(dom.rise(elem, 0) == Some(elem));
    if is_leaf_box(dom, styles, elem) {
        assert(order =~= seq![elem]);
    } else {
        let n = dom.children_at(elem).len();
        lemma_box_order_upto_visits(dom, styles, elem, n);
        let below = box_order_upto(dom, styles, elem, n);
        assert(order == below.push(elem));
        assert forall|x: NodeId| #[trigger] order.contains(x) implies dom.is_within(x, elem) by {
            let i = choose|i: int| 0 <= i < order.len() && order[i] == x;
            if i < below.len() {
                assert(below[i] == x);
                assert(below.contains(x));
            }
        }
        assert forall|i: int, j: int| 0 <= i < j < order.len() implies order[i] != order[j] by {
            assert(below[i] == order[i]);
            assert(below.contains(below[i]));
            if j < below.len() {
                assert(below[j] == order[j]);
            }
        }
    }
}

proof fn lemma_box_order_upto_visits(dom: &Dom, styles: &StylePlane, elem: NodeId, k: nat)
    requires
        dom.wf(),
        dom.has(elem),
        k <= dom.children_at(elem).len(),
    ensures
        box_order_upto(dom, styles, elem, k).no_duplicates(),
        forall|x: NodeId| #[trigger]
            box_order_upto(dom, styles, elem, k).contains(x) ==> {
                &&& dom.is_within(x, elem)
                &&& x != elem
                &&& exists|j: int|
                    0 <= j < k && dom.is_within(x, #[trigger] dom.children_at(elem)[j])
            },
    decreases usize::MAX - dom.depth_at(elem), k,
{
    if k > 0 {
        let child = dom.children_at(elem)[k - 1];
        assert(dom.has(child) && dom.parent_at(child) == Some(elem));
        assert(dom.depth_at(child) == dom.depth_at(elem) + 1);
        assert(dom.rise(child, 0) == Some(child));
        assert(dom.is_within(child, child));
        lemma_box_order_upto_visits(dom, styles, elem, (k - 1) as nat);
        let a = box_order_upto(dom, styles, elem, (k - 1) as nat);
        let b = match dom.kind_at(child) {
            NodeKind::Element => box_order(dom, styles, child),
            NodeKind::Text => seq![child],
            _ => Seq::empty(),
        };
        if dom.kind_at(child) == NodeKind::Element {
            lemma_box_order_visits(dom, styles, child);
        }
        let whole = box_order_upto(dom, styles, elem, k);
        assert(whole =~= a + b);
        assert forall|x: NodeId| #[trigger] whole.contains(x) implies {
            &&& dom.is_within(x, elem)
            &&& x != elem
            &&& exists|j: int| 0 <= j < k && dom.is_within(x, #[trigger] dom.children_at(elem)[j])
        } by {
            let i = choose|i: int| 0 <= i < whole.len() && whole[i] == x;
            if i < a.len() {
                assert(a[i] == x);
                assert(a.contains(x));
            } else {
                assert(b[i - a.len()] == x);
                assert(b.contains(x));
                assert(dom.is_within(x, child));
                dom.lemma_within_parent(x, child, elem);
            }
        }
        assert forall|i: int, j: int| 0 <= i < j < whole.len() implies whole[i] != whole[j] by {
            if j < a.len() {
                assert(a[i] != a[j]);
            } else if i >= a.len() {
                assert(b[i - a.len()] != b[j - a.len()]);
            } else if whole[i] == whole[j] {
                let x = whole[i];
                assert(a[i] == x && a.contains(x));
                assert(b[j - a.len()] == x && b.contains(x));
                assert(dom.is_within(x, child));
                let m = choose|m: int|
                    0 <= m < k - 1 && dom.is_within(x, #[trigger] dom.children_at(elem)[m]);
                let other = dom.children_at(elem)[m];
                dom.lemma_within_one_child(x, child, other, elem);
                assert(dom.children_at(elem).no_duplicates());
            }
        }
    }
}

proof fn lemma_mapped_values(m: Map<NodeId, usize>, order: Seq<NodeId>, base: int)
    requires
        order.no_duplicates(),
        0 <= base,
        base + order.len() <= usize::MAX + 1,
    ensures
        forall|k: int|
            0 <= k < order.len() ==> mapped(m, order, base).contains_key(#[trigger] order[k])
                && mapped(m, order, base)[order[k]] == base + k,
        forall|id: NodeId|
            !order.contains(id) ==> (#[trigger] mapped(m, order, base).contains_key(id)
                <==> m.contains_key(id)),
    decreases order.len(),
{
    if order.len() > 0 {
        let before = order.drop_last();
        lemma_mapped_values(m, before, base);
        assert forall|k: int| 0 <= k < order.len() implies mapped(m, order, base).contains_key(
            #[trigger] order[k],
        ) && mapped(m, order, base)[order[k]] == base + k by {
            if k < before.len() {
                assert(before[k] == order[k]);
                assert(order[k] != order.last());
            }
        }
        assert forall|id: NodeId| !order.contains(id) implies (#[trigger] mapped(
            m,
            order,
            base,
        ).contains_key(id) <==> m.contains_key(id)) by {
            assert(order.contains(order.last()));
            if before.contains(id) {
                let i = choose|i: int| 0 <= i < before.len() && before[i] == id;
                assert(order[i] == id);
            }
            assert(mapped(m, before, base).contains_key(id) <==> m.contains_key(id));
        }
    }
}

/// The boxes of a document and the nodes that have one go with each other one
/// for one: each node in the tree's order has the box of the same number, and
/// no other node has a box.
pub proof fn each_box_is_of_one_node(
    tree: &BoxTree,
    dom: &Dom,
    styles: &StylePlane,
    images: &ImagePlane,
    elem: NodeId,
)
    requires
        dom.wf(),
        dom.has(elem),
        layout_root(dom) == Some(elem),
        tree_is(tree, dom, styles, images),
    ensures
        box_order(dom, styles, elem).len() == tree.nodes@.len(),
        forall|k: int|
            0 <= k < tree.nodes@.len() ==> tree.node_map@.contains_key(
                #[trigger] box_order(dom, styles, elem)[k],
            ) && tree.node_map@[box_order(dom, styles, elem)[k]] == k,
        forall|id: NodeId| #[trigger]
            tree.node_map@.contains_key(id) <==> box_order(dom, styles, elem).contains(id),
{
    let order = box_order(dom, styles, elem);
    lemma_box_order_visits(dom, styles, elem);
    assert(tree.root == order.len() - 1);
    lemma_mapped_values(Map::<NodeId, usize>::empty(), order, 0);
    assert forall|id: NodeId| #[trigger] tree.node_map@.contains_key(id) <==> order.contains(
        id,
    ) by {
        if order.contains(id) {
            let k = choose|k: int| 0 <= k < order.len() && order[k] == id;
            assert(tree.node_map@.contains_key(order[k]));
        }
    }
}

/// Whether the content of some boxes, from one number up to another, came from nodes
/// that are there.
spec fn contents_known(nodes: Seq<BoxNode>, from: int, to: int, dom: &Dom) -> bool {
    forall|i: int|
        from <= i < to ==> ((#[trigger] nodes[i]).inline_content matches Some(c)
            ==> inline_content::content_known(dom, c))
}

proof fn lemma_lines_known(
    content: InlineContent,
    dom: &Dom,
    styles: &StylePlane,
    images: &ImagePlane,
    elem: NodeId,
)
    requires
        dom.wf(),
        dom.has(elem),
        lines_are(content, dom, styles, images, elem),
    ensures
        inline_content::content_known(dom, content),
{
    let own = choose|own: InlineContent|
        {
            &&& #[trigger] inline_content::content_is(own, dom, styles, images, elem)
            &&& content.boxes@ == own.boxes@
            &&& inline_content::run_views(content.runs@) == (if inline_content::marker_inside(
                styles,
                elem,
            ) {
                match inline_content::flowing_marker(dom, styles, elem) {
                    Some(run) => seq![run] + inline_content::run_views(own.runs@),
                    None => inline_content::run_views(own.runs@),
                }
            } else {
                inline_content::run_views(own.runs@)
            })
        };
    inline_content::content_comes_from_the_document(own, dom, styles, images, elem);
    let all = inline_content::run_views(content.runs@);
    let rest = inline_content::run_views(own.runs@);
    assert forall|i: int| 0 <= i < content.runs@.len() implies dom.has(
        (#[trigger] content.runs@[i]).source,
    ) by {
        assert(all[i] == content.runs@[i]@);
        if all.len() == rest.len() {
            assert(rest[i] == own.runs@[i]@);
        } else if i > 0 {
            assert(all[i] == rest[i - 1]);
            assert(rest[i - 1] == own.runs@[i - 1]@);
        }
    }
}

proof fn lemma_boxes_known(
    nodes: Seq<BoxNode>,
    base: int,
    dom: &Dom,
    styles: &StylePlane,
    images: &ImagePlane,
    elem: NodeId,
)
    requires
        dom.wf(),
        dom.has(elem),
        boxes_are(nodes, base, dom, styles, images, elem),
    ensures
        contents_known(nodes, base, base + box_order(dom, styles, elem).len(), dom),
    decreases usize::MAX - dom.depth_at(elem), dom.children_at(elem).len() + 1,
{
    let own = base + box_order(dom, styles, elem).len() - 1;
    if is_leaf_box(dom, styles, elem) {
        if let Some(c) = nodes[own].inline_content {
            lemma_lines_known(c, dom, styles, images, elem);
        }
    } else {
        lemma_child_contents_known(
            nodes,
            base,
            dom,
            styles,
            images,
            elem,
            dom.children_at(elem).len(),
        );
    }
}

proof fn lemma_child_contents_known(
    nodes: Seq<BoxNode>,
    base: int,
    dom: &Dom,
    styles: &StylePlane,
    images: &ImagePlane,
    elem: NodeId,
    k: nat,
)
    requires
        dom.wf(),
        dom.has(elem),
        k <= dom.children_at(elem).len(),
        0 <= base,
        child_boxes_are(nodes, base, dom, styles, images, elem, k),
    ensures
        contents_known(nodes, base, base + box_order_upto(dom, styles, elem, k).len(), dom),
    decreases usize::MAX - dom.depth_at(elem), k,
{
    if k > 0 {
        let child = dom.children_at(elem)[k - 1];
        assert(dom.has(child) && dom.parent_at(child) == Some(elem));
        let at = base + box_order_upto(dom, styles, elem, (k - 1) as nat).len();
        lemma_child_contents_known(nodes, base, dom, styles, images, elem, (k - 1) as nat);
        match dom.kind_at(child) {
            NodeKind::Element => {
                lemma_boxes_known(nodes, at, dom, styles, images, child);
            },
            NodeKind::Text => {
                let c = nodes[at].inline_content->0;
                assert(c.runs@.len() == inline_content::run_views(c.runs@).len());
                assert(inline_content::run_views(c.runs@)[0] == c.runs@[0]@);
            },
            _ => {},
        }
    }
}

proof fn lemma_first_element_is_there(dom: &Dom, id: NodeId, k: nat)
    requires
        dom.wf(),
        dom.has(id),
    ensures
        first_element(dom, id, k) matches Some(elem) ==> dom.has(elem),
    decreases dom.children_at(id).len() - k,
{
    if k < dom.children_at(id).len() {
        assert(dom.has(dom.children_at(id)[k as int]));
        lemma_first_element_is_there(dom, id, k + 1);
    }
}

/// The text and the boxes in the lines of a tree came from nodes of the document that
/// it was built from.
pub proof fn a_tree_comes_from_its_document(
    tree: &BoxTree,
    dom: &Dom,
    top: NodeId,
    styles: &StylePlane,
    images: &ImagePlane,
)
    requires
        dom.wf(),
        dom.has(top),
        tree_of(tree, dom, top, styles, images),
    ensures
        forall|i: int|
            0 <= i < tree.nodes@.len() ==> ((#[trigger] tree.nodes@[i]).inline_content matches Some(
                c,
            ) ==> inline_content::content_known(dom, c)),
{
    if let Some(elem) = layout_root_of(dom, top) {
        lemma_first_element_is_there(dom, top, 0);
        lemma_boxes_known(tree.nodes@, 0, dom, styles, images, elem);
    }
}

proof fn lemma_child_boxes_below(
    dom: &Dom,
    styles: &StylePlane,
    elem: NodeId,
    base: int,
    k: nat,
)
    requires
        dom.wf(),
        dom.has(elem),
        k <= dom.children_at(elem).len(),
    ensures
        forall|j: int|
            0 <= j < child_boxes(dom, styles, elem, base, k).len() ==> base <= #[trigger] child_boxes(
                dom,
                styles,
                elem,
                base,
                k,
            )[j] < base + box_order_upto(dom, styles, elem, k).len(),
        forall|i: int, j: int|
            0 <= i < j < child_boxes(dom, styles, elem, base, k).len() ==> #[trigger] child_boxes(
                dom,
                styles,
                elem,
                base,
                k,
            )[i] < #[trigger] child_boxes(dom, styles, elem, base, k)[j],
    decreases k,
{
    if k > 0 {
        lemma_child_boxes_below(dom, styles, elem, base, (k - 1) as nat);
        let child = dom.children_at(elem)[k - 1];
        assert(dom.has(child));
        if dom.kind_at(child) == NodeKind::Element {
            assert(box_order(dom, styles, child).len() >= 1);
        }
        let before = child_boxes(dom, styles, elem, base, (k - 1) as nat);
        let now = child_boxes(dom, styles, elem, base, k);
        let fewer = box_order_upto(dom, styles, elem, (k - 1) as nat).len();
        let more = box_order_upto(dom, styles, elem, k).len();
        assert(fewer <= more);
        assert forall|j: int| 0 <= j < now.len() implies base <= #[trigger] now[j] < base + more by {
            if j < before.len() {
                assert(now[j] == before[j]);
            }
        }
        assert forall|i: int, j: int| 0 <= i < j < now.len() implies #[trigger] now[i]
            < #[trigger] now[j] by {
            assert(now[i] == before[i]);
            if j < before.len() {
                assert(now[j] == before[j]);
            }
        }
    }
}

/// The boxes of an element's children stand before its own, in the order of
/// the children, so the tree has no cycle.
pub proof fn children_stand_before_their_parent(
    node: BoxNode,
    base: int,
    dom: &Dom,
    styles: &StylePlane,
    images: &ImagePlane,
    elem: NodeId,
)
    requires
        dom.wf(),
        dom.has(elem),
        own_box_is(node, base, dom, styles, images, elem),
    ensures
        forall|j: int|
            0 <= j < node.children@.len() ==> base <= #[trigger] node.children@[j] < base
                + box_order(dom, styles, elem).len() - 1,
        forall|i: int, j: int|
            0 <= i < j < node.children@.len() ==> #[trigger] node.children@[i]
                < #[trigger] node.children@[j],
{
    if !is_leaf_box(dom, styles, elem) {
        let n = dom.children_at(elem).len();
        lemma_child_boxes_below(dom, styles, elem, base, n);
        let cs = child_boxes(dom, styles, elem, base, n);
        assert(as_ints(node.children@) == cs);
        assert forall|j: int| 0 <= j < node.children@.len() implies base
            <= #[trigger] node.children@[j] < base + box_order(dom, styles, elem).len() - 1 by {
            assert(as_ints(node.children@)[j] == cs[j]);
        }
        assert forall|i: int, j: int| 0 <= i < j < node.children@.len() implies #[trigger] node.children@[i]
            < #[trigger] node.children@[j] by {
            assert(as_ints(node.children@)[i] == cs[i]);
            assert(as_ints(node.children@)[j] == cs[j]);
        }
    }
}

/// Whether a box is the own box of the node that stands at its place in an order
/// of nodes, whose boxes begin at `base`, the boxes below it standing from `from`
/// on.
spec fn stands_from(
    node: BoxNode,
    from: int,
    base: int,
    dom: &Dom,
    styles: &StylePlane,
    images: &ImagePlane,
    order: Seq<NodeId>,
    i: int,
) -> bool {
    let x = order[i - base];
    &&& base <= from
    &&& own_box_is(node, from, dom, styles, images, x)
    &&& i == from + box_order(dom, styles, x).len() - 1
    &&& order.subrange(from - base, i + 1 - base) == box_order(dom, styles, x)
}

/// Whether a box is that of the node that stands at its place in an order.
spec fn stands(
    node: BoxNode,
    base: int,
    dom: &Dom,
    styles: &StylePlane,
    images: &ImagePlane,
    order: Seq<NodeId>,
    i: int,
) -> bool {
    let x = order[i - base];
    &&& dom.has(x)
    &&& match dom.kind_at(x) {
        NodeKind::Text => dom.parent_at(x) matches Some(p) && text_box_is(
            node,
            dom,
            styles,
            p,
            x,
        ),
        NodeKind::Element => exists|from: int| #[trigger]
            stands_from(node, from, base, dom, styles, images, order, i),
        _ => false,
    }
}

proof fn lemma_box_stands(
    nodes: Seq<BoxNode>,
    base: int,
    dom: &Dom,
    styles: &StylePlane,
    images: &ImagePlane,
    elem: NodeId,
    i: int,
)
    requires
        dom.wf(),
        dom.has(elem),
        dom.kind_at(elem) == NodeKind::Element,
        boxes_are(nodes, base, dom, styles, images, elem),
        base <= i < base + box_order(dom, styles, elem).len(),
    ensures
        stands(nodes[i], base, dom, styles, images, box_order(dom, styles, elem), i),
    decreases usize::MAX - dom.depth_at(elem), dom.children_at(elem).len() + 1,
{
    let order = box_order(dom, styles, elem);
    if i == base + order.len() - 1 {
        assert(order.last() == elem);
        assert(order.subrange(0, order.len() as int) =~= order);
        assert(stands_from(nodes[i], base, base, dom, styles, images, order, i));
    } else {
        let n = dom.children_at(elem).len();
        let below = box_order_upto(dom, styles, elem, n);
        assert(order == below.push(elem));
        lemma_child_box_stands(nodes, base, dom, styles, images, elem, n, i);
        let x = below[i - base];
        assert(order[i - base] == x);
        if dom.kind_at(x) == NodeKind::Element {
            let from = choose|from: int| #[trigger]
                stands_from(nodes[i], from, base, dom, styles, images, below, i);
            assert(order.subrange(from - base, i + 1 - base) =~= below.subrange(
                from - base,
                i + 1 - base,
            ));
            assert(stands_from(nodes[i], from, base, dom, styles, images, order, i));
        }
    }
}

proof fn lemma_child_box_stands(
    nodes: Seq<BoxNode>,
    base: int,
    dom: &Dom,
    styles: &StylePlane,
    images: &ImagePlane,
    elem: NodeId,
    k: nat,
    i: int,
)
    requires
        dom.wf(),
        dom.has(elem),
        k <= dom.children_at(elem).len(),
        0 <= base,
        child_boxes_are(nodes, base, dom, styles, images, elem, k),
        base <= i < base + box_order_upto(dom, styles, elem, k).len(),
    ensures
        stands(nodes[i], base, dom, styles, images, box_order_upto(dom, styles, elem, k), i),
    decreases usize::MAX - dom.depth_at(elem), k,
{
    let child = dom.children_at(elem)[k - 1];
    assert(dom.has(child) && dom.parent_at(child) == Some(elem));
    let fewer = box_order_upto(dom, styles, elem, (k - 1) as nat);
    let order = box_order_upto(dom, styles, elem, k);
    let at = base + fewer.len();
    let x = order[i - base];
    if i < at {
        lemma_child_box_stands(nodes, base, dom, styles, images, elem, (k - 1) as nat, i);
        assert(fewer[i - base] == x);
        if dom.kind_at(x) == NodeKind::Element {
            let from = choose|from: int| #[trigger]
                stands_from(nodes[i], from, base, dom, styles, images, fewer, i);
            assert(order.subrange(from - base, i + 1 - base) =~= fewer.subrange(
                from - base,
                i + 1 - base,
            ));
            assert(stands_from(nodes[i], from, base, dom, styles, images, order, i));
        }
    } else if dom.kind_at(child) == NodeKind::Element {
        let own = box_order(dom, styles, child);
        assert(order == fewer + own);
        lemma_box_stands(nodes, at, dom, styles, images, child, i);
        assert(own[i - at] == x);
        if dom.kind_at(x) == NodeKind::Element {
            let from = choose|from: int| #[trigger]
                stands_from(nodes[i], from, at, dom, styles, images, own, i);
            assert(order.subrange(from - base, i + 1 - base) =~= own.subrange(
                from - at,
                i + 1 - at,
            ));
            assert(stands_from(nodes[i], from, base, dom, styles, images, order, i));
        }
    }
}

proof fn lemma_first_element_is_an_element(dom: &Dom, id: NodeId, k: nat)
    ensures
        first_element(dom, id, k) matches Some(elem) ==> dom.kind_at(elem) == NodeKind::Element,
    decreases dom.children_at(id).len() - k,
{
    if k < dom.children_at(id).len() {
        lemma_first_element_is_an_element(dom, id, k + 1);
    }
}

/// What a tree says of the box of a node.
proof fn lemma_box_of(
    tree: &BoxTree,
    dom: &Dom,
    top: NodeId,
    styles: &StylePlane,
    images: &ImagePlane,
    x: NodeId,
) -> (elem: NodeId)
    requires
        dom.wf(),
        dom.has(top),
        tree_of(tree, dom, top, styles, images),
        tree.node_map@.contains_key(x),
    ensures
        layout_root_of(dom, top) == Some(elem),
        dom.has(elem),
        dom.kind_at(elem) == NodeKind::Element,
        tree.node_map@[x] < tree.nodes@.len(),
        box_order(dom, styles, elem)[tree.node_map@[x] as int] == x,
        stands(
            tree.nodes@[tree.node_map@[x] as int],
            0,
            dom,
            styles,
            images,
            box_order(dom, styles, elem),
            tree.node_map@[x] as int,
        ),
        forall|k: int|
            0 <= k < tree.nodes@.len() ==> tree.node_map@.contains_key(
                #[trigger] box_order(dom, styles, elem)[k],
            ) && tree.node_map@[box_order(dom, styles, elem)[k]] == k,
{
    let elem = layout_root_of(dom, top)->0;
    lemma_first_element_is_there(dom, top, 0);
    lemma_first_element_is_an_element(dom, top, 0);
    let order = box_order(dom, styles, elem);
    lemma_box_order_visits(dom, styles, elem);
    assert(tree.root == order.len() - 1);
    lemma_mapped_values(Map::<NodeId, usize>::empty(), order, 0);
    assert(order.contains(x));
    let k = order.index_of(x);
    assert(tree.node_map@[order[k]] == k);
    lemma_box_stands(tree.nodes@, 0, dom, styles, images, elem, k);
    elem
}

/// The box of a replaced element has a size and nothing in it. Each side is its
/// own: a definite CSS length on that side, whatever the image, the attributes or
/// the containment of the element, and else what the element is without one.
pub proof fn the_box_of_a_replaced_element_has_its_size(
    tree: &BoxTree,
    dom: &Dom,
    top: NodeId,
    styles: &StylePlane,
    images: &ImagePlane,
    x: NodeId,
)
    requires
        dom.wf(),
        dom.has(top),
        tree_of(tree, dom, top, styles, images),
        tree.node_map@.contains_key(x),
        dom.kind_at(x) == NodeKind::Element,
        construct::is_replaced_by_name(dom, x),
    ensures
        ({
            let node = tree.nodes@[tree.node_map@[x] as int];
            &&& node.children@.len() == 0
            &&& node.inline_content is None
            &&& node.marker is None
            &&& node.replaced_size matches Some(size) && {
                &&& styles.primary_at(x) matches Some(s) ==> {
                    &&& s.width matches Some(w) ==> size.0 == Extent::Px(w)
                    &&& s.height matches Some(h) ==> size.1 == Extent::Px(h)
                }
                &&& construct::is_the_width_of(size.0, dom, styles, images, x)
                &&& construct::is_the_height_of(size.1, dom, styles, images, x)
            }
        }),
{
    let elem = lemma_box_of(tree, dom, top, styles, images, x);
    construct::replaced_content_is_told_by_name(dom, x);
    construct::each_side_of_a_replaced_element_is_its_own(dom, styles, images, x);
}

/// Text is set as the computed values of the element it came from say, field by
/// field: every run in a box, but that the marker of a list item, which comes
/// first where it flows inside, is neither underlined nor struck through.
pub proof fn the_runs_of_a_box_are_set_like_their_sources(
    tree: &BoxTree,
    dom: &Dom,
    top: NodeId,
    styles: &StylePlane,
    images: &ImagePlane,
    x: NodeId,
    c: InlineContent,
    i: int,
)
    requires
        dom.wf(),
        dom.has(top),
        tree_of(tree, dom, top, styles, images),
        tree.node_map@.contains_key(x),
        tree.nodes@[tree.node_map@[x] as int].inline_content == Some(c),
        0 <= i < c.runs@.len(),
    ensures
        ({
            let run = c.runs@[i];
            let marks = i == 0 && dom.kind_at(x) == NodeKind::Element && inline_content::marker_inside(
                styles,
                x,
            ) && inline_content::flowing_marker(dom, styles, x) is Some;
            &&& match styles.primary_at(run.source) {
                Some(s) => {
                    &&& run.font_size == s.font_size
                    &&& run.weight == s.font_weight
                    &&& run.italic == s.italic
                    &&& run.color == s.color
                    &&& run.overline == s.overline
                    &&& run.decoration_color == s.text_decoration_color
                    &&& run.letter_spacing == s.letter_spacing
                    &&& run.word_spacing == s.word_spacing
                    &&& run.line_height == s.line_height
                    &&& inline_content::is_in_the_first_family(run, s.font_family@)
                    &&& !marks ==> run.underline == s.underline && run.strikethrough
                        == s.line_through
                },
                None => {
                    &&& inline_content::is_set_plain(run)
                    &&& !run.underline && !run.strikethrough
                },
            }
            &&& marks ==> run.source == x && !run.underline && !run.strikethrough
        }),
{
    let elem = lemma_box_of(tree, dom, top, styles, images, x);
    let run = c.runs@[i];
    let all = inline_content::run_views(c.runs@);
    assert(all.len() == c.runs@.len());
    assert(all[i] == run@);
    if dom.kind_at(x) == NodeKind::Text {
        let p = dom.parent_at(x)->0;
        let t = match dom.text_at(x) {
            Some(t) => t,
            None => ""@,
        };
        inline_content::a_run_of_an_element_is_set_in_its_style(run, styles, p, t);
    } else {
        let own = choose|own: InlineContent|
            {
                &&& #[trigger] inline_content::content_is(own, dom, styles, images, x)
                &&& c.boxes@ == own.boxes@
                &&& inline_content::run_views(c.runs@) == (if inline_content::marker_inside(
                    styles,
                    x,
                ) {
                    match inline_content::flowing_marker(dom, styles, x) {
                        Some(run) => seq![run] + inline_content::run_views(own.runs@),
                        None => inline_content::run_views(own.runs@),
                    }
                } else {
                    inline_content::run_views(own.runs@)
                })
            };
        inline_content::the_runs_of_a_content_are_set_like_their_sources(
            own,
            dom,
            styles,
            images,
            x,
        );
        let rest = inline_content::run_views(own.runs@);
        assert(rest.len() == own.runs@.len());
        let marked = inline_content::marker_inside(styles, x) && inline_content::flowing_marker(
            dom,
            styles,
            x,
        ) is Some;
        if marked && i == 0 {
            let m = inline_content::flowing_marker(dom, styles, x)->0;
            assert(all[0] == m);
            inline_content::a_marker_is_set_in_the_style_of_its_item(run, styles, x, m.text);
        } else {
            let j = if marked {
                i - 1
            } else {
                i
            };
            assert(all[i] == rest[j]);
            assert(rest[j] == own.runs@[j]@);
            assert(run@ == own.runs@[j]@);
            assert(inline_content::is_set_like_its_source(own.runs@[j], styles));
            lemma_same_setting(own.runs@[j], run, styles);
        }
    }
}

/// Runs that hold the same are set the same.
proof fn lemma_same_setting(a: InlineRun, b: InlineRun, styles: &StylePlane)
    requires
        a@ == b@,
        inline_content::is_set_like_its_source(a, styles),
        inline_content::is_lined_like_its_source(a, styles),
    ensures
        inline_content::is_set_like_its_source(b, styles),
        inline_content::is_lined_like_its_source(b, styles),
{
    assert(a@.font_family == b@.font_family);
    assert(match a.font_family {
        Some(f) => Some(f@),
        None => None,
    } == match b.font_family {
        Some(f) => Some(f@),
        None => None,
    });
}

/// The marker that hangs beside a list item is one run in the item's style,
/// neither underlined nor struck through.
pub proof fn a_hanging_marker_is_set_in_the_style_of_its_item(
    tree: &BoxTree,
    dom: &Dom,
    top: NodeId,
    styles: &StylePlane,
    images: &ImagePlane,
    x: NodeId,
    c: InlineContent,
)
    requires
        dom.wf(),
        dom.has(top),
        tree_of(tree, dom, top, styles, images),
        tree.node_map@.contains_key(x),
        tree.nodes@[tree.node_map@[x] as int].marker == Some(c),
    ensures
        c.boxes@.len() == 0,
        c.runs@.len() == 1,
        c.runs@[0].source == x,
        inline_content::is_set_like_its_source(c.runs@[0], styles),
        !c.runs@[0].underline,
        !c.runs@[0].strikethrough,
        crate::list_marker::marker_text(dom, styles, x) == Some(c.runs@[0].text@),
        !construct::is_replaced_by_name(dom, x),
        styles.primary_at(x) matches Some(s) && s.list_style_inside
            ==> !construct::lays_out_lines(dom, styles, x),
{
    let elem = lemma_box_of(tree, dom, top, styles, images, x);
    construct::replaced_content_is_told_by_name(dom, x);
    let all = inline_content::run_views(c.runs@);
    assert(all.len() == c.runs@.len());
    assert(all[0] == c.runs@[0]@);
    let m = inline_content::hanging_marker(dom, styles, x)->0;
    inline_content::a_marker_is_set_in_the_style_of_its_item(c.runs@[0], styles, x, m.text);
}

/// Every box in the lines of an element is sized as the element that it stands for
/// says.
pub proof fn the_boxes_in_a_box_are_sized_like_their_sources(
    tree: &BoxTree,
    dom: &Dom,
    top: NodeId,
    styles: &StylePlane,
    images: &ImagePlane,
    x: NodeId,
    c: InlineContent,
    i: int,
)
    requires
        dom.wf(),
        dom.has(top),
        tree_of(tree, dom, top, styles, images),
        tree.node_map@.contains_key(x),
        tree.nodes@[tree.node_map@[x] as int].inline_content == Some(c),
        0 <= i < c.boxes@.len(),
    ensures
        inline_content::is_boxed_like_its_source(c.boxes@[i], dom, styles, images),
        construct::is_replaced_by_name(dom, c.boxes@[i].source) ==> (styles.primary_at(
            c.boxes@[i].source,
        ) matches Some(s) ==> {
            &&& s.width matches Some(w) ==> c.boxes@[i].width == Extent::Px(w)
            &&& s.height matches Some(h) ==> c.boxes@[i].height == Extent::Px(h)
        }),
{
    let elem = lemma_box_of(tree, dom, top, styles, images, x);
    assert(dom.kind_at(x) == NodeKind::Element);
    let own = choose|own: InlineContent|
        {
            &&& #[trigger] inline_content::content_is(own, dom, styles, images, x)
            &&& c.boxes@ == own.boxes@
            &&& inline_content::run_views(c.runs@) == (if inline_content::marker_inside(
                styles,
                x,
            ) {
                match inline_content::flowing_marker(dom, styles, x) {
                    Some(run) => seq![run] + inline_content::run_views(own.runs@),
                    None => inline_content::run_views(own.runs@),
                }
            } else {
                inline_content::run_views(own.runs@)
            })
        };
    inline_content::the_boxes_of_a_content_are_sized_like_their_sources(
        own,
        dom,
        styles,
        images,
        x,
    );
}

/// A text in a container of blocks has a box of its own, with the text as it
/// stands in one run, set as the container says.
pub proof fn the_box_of_a_text_holds_it_as_it_stands(
    tree: &BoxTree,
    dom: &Dom,
    top: NodeId,
    styles: &StylePlane,
    images: &ImagePlane,
    x: NodeId,
)
    requires
        dom.wf(),
        dom.has(top),
        tree_of(tree, dom, top, styles, images),
        tree.node_map@.contains_key(x),
        dom.kind_at(x) == NodeKind::Text,
    ensures
        ({
            let node = tree.nodes@[tree.node_map@[x] as int];
            &&& node.style is None
            &&& node.children@.len() == 0
            &&& node.marker is None
            &&& node.replaced_size is None
            &&& node.inline_content matches Some(c) && {
                &&& c.boxes@.len() == 0
                &&& c.runs@.len() == 1
                &&& dom.parent_at(x) == Some(c.runs@[0].source)
                &&& dom.text_at(x) matches Some(t) ==> c.runs@[0].text@ == t
                &&& dom.text_at(x) is None ==> c.runs@[0].text@.len() == 0
            }
        }),
{
    let elem = lemma_box_of(tree, dom, top, styles, images, x);
    reveal_strlit("");
    let c = tree.nodes@[tree.node_map@[x] as int].inline_content->0;
    let all = inline_content::run_views(c.runs@);
    assert(all.len() == c.runs@.len());
    assert(all[0] == c.runs@[0]@);
}

/// The box of a styled element is styled by it, that of an unstyled one by the
/// initial values. An element that is replaced or lays out lines has no boxes
/// below its own. Below the box of any other element stand the boxes of the
/// elements and texts directly in it, first to last.
pub proof fn the_box_of_an_element_holds_the_boxes_of_its_children(
    tree: &BoxTree,
    dom: &Dom,
    top: NodeId,
    styles: &StylePlane,
    images: &ImagePlane,
    x: NodeId,
)
    requires
        dom.wf(),
        dom.has(top),
        tree_of(tree, dom, top, styles, images),
        tree.node_map@.contains_key(x),
        dom.kind_at(x) == NodeKind::Element,
    ensures
        ({
            let node = tree.nodes@[tree.node_map@[x] as int];
            let is_leaf = construct::is_replaced_by_name(dom, x) || construct::lays_out_lines(
                dom,
                styles,
                x,
            );
            &&& styles.primary_at(x) is Some ==> node.style == Some(x)
            &&& styles.primary_at(x) is None ==> node.style is None
            &&& node.replaced_size is Some <==> construct::is_replaced_by_name(dom, x)
            &&& node.inline_content is Some <==> is_leaf && !construct::is_replaced_by_name(dom, x)
            &&& is_leaf ==> node.children@.len() == 0
            &&& !is_leaf ==> node.children@ == dom.children_at(x).filter(
                |c: NodeId|
                    dom.kind_at(c) == NodeKind::Element || dom.kind_at(c) == NodeKind::Text,
            ).map_values(|c: NodeId| tree.node_map@[c])
        }),
{
    let elem = lemma_box_of(tree, dom, top, styles, images, x);
    construct::replaced_content_is_told_by_name(dom, x);
    let i = tree.node_map@[x] as int;
    let order = box_order(dom, styles, elem);
    let node = tree.nodes@[i];
    if !is_leaf_box(dom, styles, x) {
        let from = choose|from: int| #[trigger]
            stands_from(node, from, 0, dom, styles, images, order, i);
        let n = dom.children_at(x).len();
        let own = box_order(dom, styles, x);
        let below = box_order_upto(dom, styles, x, n);
        assert(own == below.push(x));
        assert forall|j: int| 0 <= j < below.len() implies (#[trigger] below[j]) == order[from + j]
            by {
            assert(own[j] == order.subrange(from, i + 1)[j]);
        }
        lemma_child_boxes_mapped(tree, dom, styles, x, order, from, n);
        let f = |c: NodeId| tree.node_map@[c];
        let p = |c: NodeId|
            dom.kind_at(c) == NodeKind::Element || dom.kind_at(c) == NodeKind::Text;
        let all = dom.children_at(x);
        assert(all.take(n as int) =~= all);
        let want = all.filter(p).map_values(f);
        assert(as_ints(node.children@) == as_ints(want));
        assert(as_ints(node.children@).len() == node.children@.len());
        assert(as_ints(want).len() == want.len());
        assert forall|j: int| 0 <= j < want.len() implies node.children@[j] == want[j] by {
            assert(as_ints(node.children@)[j] == as_ints(want)[j]);
        }
        assert(node.children@ =~= want);
    }
}

proof fn lemma_child_boxes_mapped(
    tree: &BoxTree,
    dom: &Dom,
    styles: &StylePlane,
    x: NodeId,
    order: Seq<NodeId>,
    from: int,
    k: nat,
)
    requires
        dom.wf(),
        dom.has(x),
        k <= dom.children_at(x).len(),
        0 <= from,
        from + box_order_upto(dom, styles, x, dom.children_at(x).len()).len() <= order.len(),
        forall|j: int|
            0 <= j < box_order_upto(dom, styles, x, dom.children_at(x).len()).len() ==> (
            #[trigger] box_order_upto(dom, styles, x, dom.children_at(x).len())[j]) == order[from
                + j],
        forall|j: int|
            0 <= j < order.len() ==> tree.node_map@.contains_key(#[trigger] order[j])
                && tree.node_map@[order[j]] == j,
    ensures
        child_boxes(dom, styles, x, from, k) == as_ints(
            dom.children_at(x).take(k as int).filter(
                |c: NodeId|
                    dom.kind_at(c) == NodeKind::Element || dom.kind_at(c) == NodeKind::Text,
            ).map_values(|c: NodeId| tree.node_map@[c]),
        ),
    decreases k,
{
    let p = |c: NodeId| dom.kind_at(c) == NodeKind::Element || dom.kind_at(c) == NodeKind::Text;
    let f = |c: NodeId| tree.node_map@[c];
    let front = dom.children_at(x).take(k as int);
    reveal(Seq::filter);
    if k == 0 {
        assert(front.filter(p).map_values(f) =~= Seq::<usize>::empty());
        assert(as_ints(Seq::<usize>::empty()) =~= Seq::<int>::empty());
    } else {
        let m = (k - 1) as nat;
        lemma_child_boxes_mapped(tree, dom, styles, x, order, from, m);
        let child = dom.children_at(x)[k - 1];
        assert(dom.has(child));
        assert(front.drop_last() =~= dom.children_at(x).take(k - 1));
        assert(front.last() == child);
        if p(child) {
            let upto = box_order_upto(dom, styles, x, k);
            let n = dom.children_at(x).len();
            let whole = box_order_upto(dom, styles, x, n);
            lemma_box_order_upto_prefix(dom, styles, x, k, n);
            if dom.kind_at(child) == NodeKind::Element {
                let own = box_order(dom, styles, child);
                assert(own.len() > 0 && own.last() == child);
                assert(upto == box_order_upto(dom, styles, x, m) + own);
            }
            assert(upto.len() > 0 && upto.last() == child);
            let at = upto.len() - 1;
            assert(whole[at] == child);
            assert(order[from + at] == child);
            assert(tree.node_map@[child] == from + at);
            let before = dom.children_at(x).take(k - 1).filter(p);
            assert(front.filter(p).map_values(f) =~= before.map_values(f).push(f(child)));
            assert(as_ints(front.filter(p).map_values(f)) =~= as_ints(before.map_values(f)).push(
                from + at,
            ));
        }
    }
}

proof fn lemma_box_order_upto_prefix(
    dom: &Dom,
    styles: &StylePlane,
    elem: NodeId,
    k: nat,
    n: nat,
)
    requires
        dom.wf(),
        dom.has(elem),
        k <= n <= dom.children_at(elem).len(),
    ensures
        box_order_upto(dom, styles, elem, k).len() <= box_order_upto(dom, styles, elem, n).len(),
        forall|j: int|
            0 <= j < box_order_upto(dom, styles, elem, k).len() ==> (#[trigger] box_order_upto(
                dom,
                styles,
                elem,
                k,
            )[j]) == box_order_upto(dom, styles, elem, n)[j],
    decreases n,
{
    if k < n {
        lemma_box_order_upto_prefix(dom, styles, elem, k, (n - 1) as nat);
        assert(dom.has(dom.children_at(elem)[n - 1]));
        let a = box_order_upto(dom, styles, elem, k);
        let b = box_order_upto(dom, styles, elem, (n - 1) as nat);
        let c = box_order_upto(dom, styles, elem, n);
        assert forall|j: int| 0 <= j < a.len() implies (#[trigger] a[j]) == c[j] by {
            assert(a[j] == b[j]);
            assert(b[j] == c[j]);
        }
    }
}

/// The element that layout starts at has a box, and the elements and texts
/// directly in an element have one just where that element has one which is
/// neither replaced nor lays out lines.
pub proof fn a_node_has_a_box_under_its_parent(
    tree: &BoxTree,
    dom: &Dom,
    top: NodeId,
    styles: &StylePlane,
    images: &ImagePlane,
    elem: NodeId,
    x: NodeId,
)
    requires
        dom.wf(),
        dom.has(top),
        tree_of(tree, dom, top, styles, images),
        layout_root_of(dom, top) == Some(elem),
        dom.is_within(x, elem),
        x != elem,
    ensures
        tree.node_map@.contains_key(elem),
        tree.node_map@[elem] == tree.root,
        tree.node_map@.contains_key(x) <==> {
            let p = dom.parent_at(x)->0;
            &&& dom.kind_at(x) == NodeKind::Element || dom.kind_at(x) == NodeKind::Text
            &&& tree.node_map@.contains_key(p)
            &&& dom.kind_at(p) == NodeKind::Element
            &&& !construct::is_replaced_by_name(dom, p)
            &&& !construct::lays_out_lines(dom, styles, p)
        },
{
    lemma_first_element_is_there(dom, top, 0);
    lemma_first_element_is_an_element(dom, top, 0);
    let order = box_order(dom, styles, elem);
    lemma_box_order_visits(dom, styles, elem);
    assert(tree.root == order.len() - 1);
    lemma_mapped_values(Map::<NodeId, usize>::empty(), order, 0);
    assert(order.last() == elem);
    assert(order[order.len() - 1] == elem);
    let p = dom.parent_at(x)->0;
    lemma_boxed_with_parent(dom, styles, elem, x);
    construct::replaced_content_is_told_by_name(dom, p);
    assert(tree.node_map@.contains_key(x) <==> order.contains(x)) by {
        if order.contains(x) {
            let k = order.index_of(x);
            assert(tree.node_map@.contains_key(order[k]));
        }
    }
    assert(tree.node_map@.contains_key(p) <==> order.contains(p)) by {
        if order.contains(p) {
            let k = order.index_of(p);
            assert(tree.node_map@.contains_key(order[k]));
        }
    }
}

proof fn lemma_boxed_with_parent(dom: &Dom, styles: &StylePlane, elem: NodeId, x: NodeId)
    requires
        dom.wf(),
        dom.has(elem),
        dom.kind_at(elem) == NodeKind::Element,
        dom.is_within(x, elem),
        x != elem,
    ensures
        dom.parent_at(x) is Some,
        box_order(dom, styles, elem).contains(x) <==> {
            let p = dom.parent_at(x)->0;
            &&& dom.kind_at(x) == NodeKind::Element || dom.kind_at(x) == NodeKind::Text
            &&& box_order(dom, styles, elem).contains(p)
            &&& dom.kind_at(p) == NodeKind::Element
            &&& !is_leaf_box(dom, styles, p)
        },
    decreases usize::MAX - dom.depth_at(elem),
{
    let n = dom.children_at(elem).len();
    let order = box_order(dom, styles, elem);
    assert(order.last() == elem);
    let j = dom.lemma_child_toward(x, elem);
    let c = dom.children_at(elem)[j];
    assert(dom.has(c) && dom.parent_at(c) == Some(elem));
    assert(dom.depth_at(c) == dom.depth_at(elem) + 1);
    dom.lemma_parent_is_within(x, elem);
    let p = dom.parent_at(x)->0;
    if is_leaf_box(dom, styles, elem) {
        assert(order =~= seq![elem]);
        if order.contains(x) {
            assert(order[0] == x);
        }
        if order.contains(p) {
            assert(order[0] == p);
        }
    } else {
        lemma_boxed_by_child(dom, styles, elem, j, x);
        if x == c {
            if dom.kind_at(c) == NodeKind::Element {
                assert(box_order(dom, styles, c).last() == c);
                assert(box_order(dom, styles, c).contains(c));
            }
        } else {
            dom.lemma_parent_is_within(x, c);
            lemma_boxed_by_child(dom, styles, elem, j, p);
            if dom.kind_at(c) == NodeKind::Element {
                lemma_boxed_with_parent(dom, styles, c, x);
            } else {
                assert(p == c ==> dom.kind_at(p) != NodeKind::Element);
            }
        }
    }
}

proof fn lemma_boxed_by_child(dom: &Dom, styles: &StylePlane, elem: NodeId, j: int, x: NodeId)
    requires
        dom.wf(),
        dom.has(elem),
        !is_leaf_box(dom, styles, elem),
        0 <= j < dom.children_at(elem).len(),
        dom.is_within(x, dom.children_at(elem)[j]),
    ensures
        ({
            let c = dom.children_at(elem)[j];
            box_order(dom, styles, elem).contains(x) <==> {
                ||| dom.kind_at(c) == NodeKind::Element && box_order(dom, styles, c).contains(x)
                ||| dom.kind_at(c) == NodeKind::Text && x == c
            }
        }),
{
    let n = dom.children_at(elem).len();
    let below = box_order_upto(dom, styles, elem, n);
    let order = box_order(dom, styles, elem);
    let c = dom.children_at(elem)[j];
    assert(dom.has(c) && dom.parent_at(c) == Some(elem));
    assert(dom.depth_at(c) == dom.depth_at(elem) + 1);
    assert(order == below.push(elem));
    lemma_boxed_upto_by_child(dom, styles, elem, n, j, x);
    if order.contains(x) {
        let i = order.index_of(x);
        assert(below[i] == x);
        assert(below.contains(x));
    }
    if below.contains(x) {
        let i = below.index_of(x);
        assert(order[i] == x);
    }
}

proof fn lemma_boxed_upto_by_child(
    dom: &Dom,
    styles: &StylePlane,
    elem: NodeId,
    k: nat,
    j: int,
    x: NodeId,
)
    requires
        dom.wf(),
        dom.has(elem),
        k <= dom.children_at(elem).len(),
        0 <= j < dom.children_at(elem).len(),
        dom.is_within(x, dom.children_at(elem)[j]),
    ensures
        ({
            let c = dom.children_at(elem)[j];
            box_order_upto(dom, styles, elem, k).contains(x) <==> j < k && {
                ||| dom.kind_at(c) == NodeKind::Element && box_order(dom, styles, c).contains(x)
                ||| dom.kind_at(c) == NodeKind::Text && x == c
            }
        }),
    decreases k,
{
    if k > 0 {
        let c = dom.children_at(elem)[j];
        let child = dom.children_at(elem)[k - 1];
        assert(dom.has(c) && dom.parent_at(c) == Some(elem));
        assert(dom.has(child) && dom.parent_at(child) == Some(elem));
        lemma_boxed_upto_by_child(dom, styles, elem, (k - 1) as nat, j, x);
        let a = box_order_upto(dom, styles, elem, (k - 1) as nat);
        let b = match dom.kind_at(child) {
            NodeKind::Element => box_order(dom, styles, child),
            NodeKind::Text => seq![child],
            _ => Seq::empty(),
        };
        let whole = box_order_upto(dom, styles, elem, k);
        assert(whole =~= a + b);
        assert(dom.rise(child, 0) == Some(child));
        assert(dom.is_within(child, child));
        if b.contains(x) {
            if dom.kind_at(child) == NodeKind::Element {
                lemma_box_order_visits(dom, styles, child);
            } else {
                assert(b[0] == child);
            }
            dom.lemma_within_one_child(x, c, child, elem);
            assert(dom.children_at(elem).no_duplicates());
            let i = b.index_of(x);
            assert(whole[a.len() + i] == x);
        }
        if a.contains(x) {
            let i = a.index_of(x);
            assert(whole[i] == x);
        }
        if whole.contains(x) {
            let i = whole.index_of(x);
            if i < a.len() {
                assert(a[i] == x);
            } else {
                assert(b[i - a.len()] == x);
            }
        }
        if j == k - 1 && dom.kind_at(c) == NodeKind::Text && x == c {
            assert(b[0] == x);
        }
    }
}

/// Layout starts at the given node where that is an element, else at the first
/// element directly in it. A node with no element directly in it has a single
/// empty box.
pub proof fn layout_starts_at_the_first_element(
    tree: &BoxTree,
    dom: &Dom,
    top: NodeId,
    styles: &StylePlane,
    images: &ImagePlane,
)
    requires
        tree_of(tree, dom, top, styles, images),
    ensures
        dom.kind_at(top) == NodeKind::Element ==> layout_root_of(dom, top) == Some(top),
        dom.kind_at(top) != NodeKind::Element ==> match layout_root_of(dom, top) {
            Some(elem) => exists|k: int|
                0 <= k < dom.children_at(top).len() && #[trigger] dom.children_at(top)[k] == elem
                    && dom.kind_at(elem) == NodeKind::Element && forall|j: int|
                    0 <= j < k ==> dom.kind_at(#[trigger] dom.children_at(top)[j])
                        != NodeKind::Element,
            None => {
                &&& forall|j: int|
                    0 <= j < dom.children_at(top).len() ==> dom.kind_at(
                        #[trigger] dom.children_at(top)[j],
                    ) != NodeKind::Element
                &&& tree.nodes@.len() == 1
                &&& tree.nodes@[0].style is None
                &&& tree.nodes@[0].children@.len() == 0
                &&& tree.nodes@[0].inline_content is None
            },
        },
{
    if dom.kind_at(top) != NodeKind::Element {
        lemma_first_element_found(dom, top, 0);
    }
}

proof fn lemma_first_element_found(dom: &Dom, id: NodeId, k: nat)
    ensures
        match first_element(dom, id, k) {
            Some(elem) => exists|i: int|
                k <= i < dom.children_at(id).len() && #[trigger] dom.children_at(id)[i] == elem
                    && dom.kind_at(elem) == NodeKind::Element && forall|j: int|
                    k <= j < i ==> dom.kind_at(#[trigger] dom.children_at(id)[j])
                        != NodeKind::Element,
            None => forall|j: int|
                k <= j < dom.children_at(id).len() ==> dom.kind_at(
                    #[trigger] dom.children_at(id)[j],
                ) != NodeKind::Element,
        },
    decreases dom.children_at(id).len() - k,
{
    if k < dom.children_at(id).len() {
        let c = dom.children_at(id)[k as int];
        if dom.kind_at(c) == NodeKind::Element {
            assert(dom.children_at(id)[k as int] == c);
        } else {
            lemma_first_element_found(dom, id, k + 1);
            if let Some(elem) = first_element(dom, id, k + 1) {
                let i = choose|i: int|
                    k + 1 <= i < dom.children_at(id).len() && #[trigger] dom.children_at(id)[i]
                        == elem && dom.kind_at(elem) == NodeKind::Element && forall|j: int|
                        k + 1 <= j < i ==> dom.kind_at(#[trigger] dom.children_at(id)[j])
                            != NodeKind::Element;
                assert(dom.children_at(id)[i] == elem);
            }
        }
    }
}

// ---------------------------------------------------------------------------
// Laying out
// ---------------------------------------------------------------------------
/// How a box is laid out.
#[derive(Clone, Copy, Debug, PartialEq, Eq, Structural)]
pub enum LayoutPath {
    /// Not at all.
    Hidden,
    /// As a block with children.
    Block,
    /// As a flex container with children.
    Flex,
    /// As a grid container with children.
    Grid,
    /// As a leaf of a replaced element's size.
    Replaced(Extent, Extent),
    /// As a leaf that its text measures.
    Text,
    /// As a leaf without content.
    Empty,
}

/// How a box of a style lays out its children.
pub open spec fn container_path(style: Option<ComputedStyle>) -> LayoutPath {
    match style {
        None => LayoutPath::Block,
        Some(s) => match layout_style::display_of(s.display_outside, s.display_inside) {
            BoxDisplay::Off => LayoutPath::Hidden,
            BoxDisplay::Block => LayoutPath::Block,
            BoxDisplay::Flex => LayoutPath::Flex,
            BoxDisplay::Grid => LayoutPath::Grid,
        },
    }
}

/// How a box is laid out in a pass that hides or does not.
pub open spec fn path_of(node: BoxNode, style: Option<ComputedStyle>, hiding: bool) -> LayoutPath {
    if hiding || container_path(style) == LayoutPath::Hidden {
        LayoutPath::Hidden
    } else if node.children@.len() > 0 {
        container_path(style)
    } else {
        match node.replaced_size {
            Some((w, h)) => LayoutPath::Replaced(w, h),
            None => if node.inline_content is Some {
                LayoutPath::Text
            } else {
                LayoutPath::Empty
            },
        }
    }
}

fn container_path_of(style: Option<&ComputedStyle>) -> (r: LayoutPath)
    ensures
        r == container_path(
            match style {
                Some(s) => Some(*s),
                None => None,
            },
        ),
{
    match style {
        None => LayoutPath::Block,
        Some(s) => match box_display(s.display_outside, s.display_inside) {
            BoxDisplay::Off => LayoutPath::Hidden,
            BoxDisplay::Block => LayoutPath::Block,
            BoxDisplay::Flex => LayoutPath::Flex,
            BoxDisplay::Grid => LayoutPath::Grid,
        },
    }
}

impl BoxTree {
    /// The computed values that a box is styled by; `None` for the initial ones.
    pub open spec fn style_of(&self, styles: &StylePlane, index: usize) -> Option<ComputedStyle> {
        match self.nodes@[index as int].style {
            Some(elem) => styles.primary_at(elem),
            None => None,
        }
    }

    /// How a box is laid out in a pass that hides or does not.
    pub fn compute_child_layout_inner(
        &self,
        styles: &StylePlane,
        index: usize,
        hiding: bool,
    ) -> (r: LayoutPath)
        requires
            index < self.nodes@.len(),
        ensures
            r == path_of(self.nodes@[index as int], self.style_of(styles, index), hiding),
    {
        let node = &self.nodes[index];
        let style: Option<&ComputedStyle> = match node.style {
            Some(elem) => styles.primary(elem),
            None => None,
        };
        let path = container_path_of(style);
        if hiding || path == LayoutPath::Hidden {
            LayoutPath::Hidden
        } else if node.children.len() > 0 {
            path
        } else {
            match node.replaced_size {
                Some((w, h)) => LayoutPath::Replaced(w, h),
                None => if node.inline_content.is_some() {
                    LayoutPath::Text
                } else {
                    LayoutPath::Empty
                },
            }
        }
    }

    /// The boxes whose marker has a run to shape, in their order.
    pub fn marker_boxes(&self) -> (r: Vec<usize>)
        ensures
            forall|i: int, j: int| 0 <= i < j < r@.len() ==> r@[i] < r@[j],
            forall|k: usize| #[trigger]
                r@.contains(k) <==> k < self.nodes@.len() && has_marker(self.nodes@[k as int]),
    {
        let count: usize = self.nodes.len();
        let mut out: Vec<usize> = Vec::new();
        let mut i: usize = 0;
        while i < count
            invariant
                count == self.nodes@.len(),
                i <= count,
                forall|a: int, b: int| 0 <= a < b < out@.len() ==> out@[a] < out@[b],
                forall|a: int| 0 <= a < out@.len() ==> #[trigger] out@[a] < i,
                forall|k: usize| #[trigger]
                    out@.contains(k) <==> k < i && has_marker(self.nodes@[k as int]),
            decreases count - i,
        {
            let marked = match &self.nodes[i].marker {
                Some(m) => m.runs.len() > 0,
                None => false,
            };
            let ghost before = out@;
            if marked {
                out.push(i);
            }
            assert forall|k: usize| #[trigger]
                out@.contains(k) <==> k < i + 1 && has_marker(self.nodes@[k as int]) by {
                assert(before.contains(k) <==> k < i && has_marker(self.nodes@[k as int]));
                if before.contains(k) {
                    let j = before.index_of(k);
                    assert(out@[j] == k);
                }
                if marked && k == i {
                    assert(out@[before.len() as int] == k);
                }
                if out@.contains(k) {
                    let j = out@.index_of(k);
                    if j < before.len() {
                        assert(before[j] == k);
                    }
                }
            }
            i += 1;
        }
        out
    }

    /// The fragments of the nodes that have a box, from the laid out boxes.
    pub fn fragments(&self, layouts: &Vec<Layout>) -> (r: FragmentPlane)
        requires
            layouts@.len() == self.nodes@.len(),
            forall|k: NodeId| #[trigger]
                self.node_map@.contains_key(k) ==> self.node_map@[k] < self.nodes@.len(),
        ensures
            r.rects@.dom() == self.node_map@.dom(),
            forall|k: NodeId|
                self.node_map@.contains_key(k) ==> #[trigger] r.rects@[k]
                    == layouts@[self.node_map@[k] as int],
            r.hoisted_origins@ == Map::<NodeId, (i32, i32)>::empty(),
    {
        let keys = self.node_map.keys();
        let mut out = FragmentPlane::new();
        let mut i: usize = 0;
        while i < keys.len()
            invariant
                layouts@.len() == self.nodes@.len(),
                forall|k: NodeId| #[trigger]
                    self.node_map@.contains_key(k) ==> self.node_map@[k] < self.nodes@.len(),
                forall|k: NodeId| #[trigger]
                    keys@.contains(k) <==> self.node_map@.contains_key(k),
                i <= keys@.len(),
                out.hoisted_origins@ == Map::<NodeId, (i32, i32)>::empty(),
                forall|k: NodeId| #[trigger]
                    out.rects@.contains_key(k) <==> exists|j: int|
                        0 <= j < i && #[trigger] keys@[j] == k,
                forall|k: NodeId|
                    out.rects@.contains_key(k) ==> #[trigger] out.rects@[k]
                        == layouts@[self.node_map@[k] as int],
            decreases keys.len() - i,
        {
            let id = keys[i];
            assert(keys@.contains(keys@[i as int]));
            let ghost before = out.rects@;
            if let Some(index) = self.node_map.get(id) {
                out.insert(id, layouts[*index]);
            }
            assert forall|k: NodeId| #[trigger]
                out.rects@.contains_key(k) <==> exists|j: int|
                    0 <= j < i + 1 && #[trigger] keys@[j] == k by {
                assert(before.contains_key(k) <==> exists|j: int|
                    0 <= j < i && #[trigger] keys@[j] == k);
                if k == id {
                    assert(keys@[i as int] == k);
                }
            }
            assert forall|k: NodeId| out.rects@.contains_key(k) implies #[trigger] out.rects@[k]
                == layouts@[self.node_map@[k] as int] by {
                if k != id {
                    assert(before.contains_key(k));
                    assert(before[k] == out.rects@[k]);
                }
            }
            i += 1;
        }
        assert(out.rects@.dom() =~= self.node_map@.dom()) by {
            assert forall|k: NodeId| out.rects@.contains_key(k)
                <==> self.node_map@.contains_key(k) by {
                assert(keys@.contains(k) <==> self.node_map@.contains_key(k));
            }
        }
        out
    }
}

proof fn lemma_mapped_below(order: Seq<NodeId>)
    requires
        order.len() <= usize::MAX,
    ensures
        forall|k: NodeId| #[trigger]
            mapped(Map::empty(), order, 0).contains_key(k) ==> mapped(Map::empty(), order, 0)[k]
                < order.len(),
    decreases order.len(),
{
    if order.len() > 0 {
        let before = mapped(Map::empty(), order.drop_last(), 0);
        lemma_mapped_below(order.drop_last());
        assert forall|k: NodeId| #[trigger]
            mapped(Map::empty(), order, 0).contains_key(k) implies mapped(Map::empty(), order, 0)[k]
            < order.len() by {
            if k != order.last() {
                assert(before.contains_key(k));
            }
        }
    }
}

/// Whether `compute` lays out every box of a tree.
pub open spec fn lays_out_every_box<C: Fn(&StylePlane, &BoxTree) -> Vec<Layout>>(
    compute: &C,
    styles: &StylePlane,
) -> bool {
    forall|t: &BoxTree, l: Vec<Layout>| #[trigger]
        call_ensures(*compute, (styles, t), l) ==> l@.len() == t.nodes@.len()
}

/// Lays out a document: builds its boxes, has them laid out, and gives each node
/// the layout of its box. `compute` lays out every box of a tree.
pub fn layout_via_box_tree<C: Fn(&StylePlane, &BoxTree) -> Vec<Layout>>(
    dom: &Dom,
    styles: &StylePlane,
    images: &ImagePlane,
    compute: &C,
) -> (r: (FragmentPlane, BoxTree))
    requires
        dom.wf(),
        forall|t: &BoxTree| #[trigger] call_requires(*compute, (styles, t)),
        lays_out_every_box(compute, styles),
    ensures
        tree_is(&r.1, dom, styles, images),
        gives_fragments(compute, styles, r.1, r.0),
{
    layout_subtree(dom, styles, images, dom.document(), compute)
}

/// Lays out a subtree as if it were the whole document.
pub fn layout_subtree<C: Fn(&StylePlane, &BoxTree) -> Vec<Layout>>(
    dom: &Dom,
    styles: &StylePlane,
    images: &ImagePlane,
    top: NodeId,
    compute: &C,
) -> (r: (FragmentPlane, BoxTree))
    requires
        dom.wf(),
        dom.has(top),
        forall|t: &BoxTree| #[trigger] call_requires(*compute, (styles, t)),
        lays_out_every_box(compute, styles),
    ensures
        tree_of(&r.1, dom, top, styles, images),
        gives_fragments(compute, styles, r.1, r.0),
{
    let tree = build_subtree(dom, styles, images, top);
    let layouts = compute(styles, &tree);
    assert(layouts.len() == tree.nodes@.len());
    proof {
        if let Some(elem) = layout_root_of(dom, top) {
            lemma_mapped_below(box_order(dom, styles, elem));
        }
    }
    let fragments = tree.fragments(&layouts);
    assert(are_fragments(tree, layouts@, fragments));
    (fragments, tree)
}

/// Whether some fragments are those of the laid out boxes of a tree.
pub open spec fn are_fragments(tree: BoxTree, layouts: Seq<Layout>, fragments: FragmentPlane) -> bool {
    &&& fragments.rects@.dom() == tree.node_map@.dom()
    &&& forall|k: NodeId|
        tree.node_map@.contains_key(k) ==> #[trigger] fragments.rects@[k]
            == layouts[tree.node_map@[k] as int]
    &&& fragments.hoisted_origins@ == Map::<NodeId, (i32, i32)>::empty()
}

/// Whether some fragments come of laying out a tree.
pub open spec fn gives_fragments<C: Fn(&StylePlane, &BoxTree) -> Vec<Layout>>(
    compute: &C,
    styles: &StylePlane,
    tree: BoxTree,
    fragments: FragmentPlane,
) -> bool {
    exists|layouts: Vec<Layout>|
        call_ensures(*compute, (styles, &tree), layouts) && #[trigger] are_fragments(
            tree,
            layouts@,
            fragments,
        )
}

/// Whether some boxes and fragments are those of a subtree in some styles.
pub open spec fn layout_of<C: Fn(&StylePlane, &BoxTree) -> Vec<Layout>>(
    dom: &Dom,
    top: NodeId,
    styles: &StylePlane,
    images: &ImagePlane,
    compute: &C,
    fragments: FragmentPlane,
    tree: BoxTree,
) -> bool {
    &&& tree_of(&tree, dom, top, styles, images)
    &&& gives_fragments(compute, styles, tree, fragments)
}

/// Whether some boxes and fragments are those of a document in some styles.
pub open spec fn layout_is<C: Fn(&StylePlane, &BoxTree) -> Vec<Layout>>(
    dom: &Dom,
    styles: &StylePlane,
    images: &ImagePlane,
    compute: &C,
    fragments: FragmentPlane,
    tree: BoxTree,
) -> bool {
    layout_of(dom, dom.root(), styles, images, compute, fragments, tree)
}

/// Whether a box has a marker with a run.
pub open spec fn has_marker(node: BoxNode) -> bool {
    node.marker matches Some(m) && m.runs@.len() > 0
}

/// A box of an element that is not displayed is hidden, and so is every box in a pass
/// that hides. A box with boxes below it lays them out by its display, as a block where
/// no style says. A leaf has its replaced size, or is measured by its text, or is empty.
pub proof fn a_box_is_laid_out_by_what_it_holds(
    node: BoxNode,
    style: Option<ComputedStyle>,
    hiding: bool,
)
    ensures
        ({
            let path = path_of(node, style, hiding);
            let off = style matches Some(s) && (s.display_outside == DisplayOutside::Off
                || s.display_inside == DisplayInside::Off);
            &&& path == LayoutPath::Hidden <==> hiding || off
            &&& !hiding && !off && node.children@.len() > 0 ==> {
                &&& style is None ==> path == LayoutPath::Block
                &&& style matches Some(s) ==> {
                    &&& path == LayoutPath::Grid <==> s.display_inside == DisplayInside::Grid
                        || s.display_inside == DisplayInside::Table
                    &&& path == LayoutPath::Block <==> s.display_inside == DisplayInside::Flow
                        || s.display_inside == DisplayInside::FlowRoot || s.display_inside
                        == DisplayInside::TableCell
                    &&& path == LayoutPath::Grid || path == LayoutPath::Block || path
                        == LayoutPath::Flex
                }
            }
            &&& !hiding && !off && node.children@.len() == 0 ==> match node.replaced_size {
                Some((w, h)) => path == LayoutPath::Replaced(w, h),
                None => if node.inline_content is Some {
                    path == LayoutPath::Text
                } else {
                    path == LayoutPath::Empty
                },
            }
        }),
{
}

} // verus!
