//! The accessibility tree of a laid out document.
use vstd::prelude::*;
use crate::dom::{Dom, NodeId, NodeKind};
use crate::fragment;
use crate::fragment::{document_rect, FragmentPlane, Rect};
use crate::text::str_eq;

verus! {

/// What a node is to assistive technology.
#[derive(Clone, Copy, Debug, PartialEq, Eq, Structural)]
pub enum Role {
    Window,
    Document,
    Button,
    CheckBox,
    RadioButton,
    RadioGroup,
    Switch,
    TextInput,
    Paragraph,
    Label,
    GenericContainer,
}

/// Whether a control is on.
#[derive(Clone, Copy, Debug, PartialEq, Eq, Structural)]
pub enum Toggled {
    True,
    False,
    Mixed,
}

/// What a host can ask of a control.
#[derive(Clone, Copy, Debug, PartialEq, Eq, Structural)]
pub enum Action {
    Click,
    Focus,
}

/// A node of the accessibility tree.
#[derive(Debug)]
pub struct AccessNode {
    pub role: Role,
    pub label: Option<String>,
    pub toggled: Option<Toggled>,
    pub action: Option<Action>,
    /// Where the node is in the document.
    pub bounds: Option<Rect>,
    pub children: Vec<u64>,
}

/// What a node of the accessibility tree says.
pub struct AccessModel {
    pub role: Role,
    pub label: Option<Seq<char>>,
    pub toggled: Option<Toggled>,
    pub action: Option<Action>,
    pub bounds: Option<(int, int, int, int)>,
    pub children: Seq<u64>,
}

impl View for AccessNode {
    type V = AccessModel;

    open spec fn view(&self) -> AccessModel {
        AccessModel {
            role: self.role,
            label: match self.label {
                Some(t) => Some(t@),
                None => None,
            },
            toggled: self.toggled,
            action: self.action,
            bounds: fragment::corners(self.bounds),
            children: self.children@,
        }
    }
}

/// A whole accessibility tree.
pub struct TreeUpdate {
    pub nodes: Vec<(u64, AccessNode)>,
    pub root: u64,
    pub focus: u64,
}

/// What some identified nodes say.
pub open spec fn views(nodes: Seq<(u64, AccessNode)>) -> Seq<(u64, AccessModel)> {
    nodes.map(|i: int, n: (u64, AccessNode)| (n.0, n.1@))
}

// ---------------------------------------------------------------------------
// One node
// ---------------------------------------------------------------------------
/// The role that an ARIA `role` attribute names.
pub open spec fn aria_role(role: Seq<char>) -> Option<Role> {
    if role == "button"@ {
        Some(Role::Button)
    } else if role == "checkbox"@ {
        Some(Role::CheckBox)
    } else if role == "radio"@ {
        Some(Role::RadioButton)
    } else if role == "radiogroup"@ {
        Some(Role::RadioGroup)
    } else if role == "switch"@ {
        Some(Role::Switch)
    } else {
        None
    }
}

/// The role of an element by its name.
pub open spec fn tag_role(local: Option<Seq<char>>) -> Role {
    match local {
        Some(t) => if t == "button"@ {
            Role::Button
        } else if t == "input"@ {
            Role::TextInput
        } else if t == "p"@ {
            Role::Paragraph
        } else if t == "label"@ {
            Role::Label
        } else if t == "html"@ {
            Role::Document
        } else {
            Role::GenericContainer
        },
        None => Role::GenericContainer,
    }
}

/// The role of a node: an element's `role` attribute where it names one, else
/// the element's name; the document is the window.
pub open spec fn role_of(dom: &Dom, node: NodeId) -> Role {
    match dom.kind_at(node) {
        NodeKind::Document => Role::Window,
        NodeKind::Element => match dom.plain_attr(node, "role"@) {
            Some(r) => match aria_role(r) {
                Some(role) => role,
                None => tag_role(dom.local_at(node)),
            },
            None => tag_role(dom.local_at(node)),
        },
        _ => Role::GenericContainer,
    }
}

fn aria_role_of(role: &str) -> (r: Option<Role>)
    ensures
        r == aria_role(role@),
{
    if str_eq(role, "button") {
        Some(Role::Button)
    } else if str_eq(role, "checkbox") {
        Some(Role::CheckBox)
    } else if str_eq(role, "radio") {
        Some(Role::RadioButton)
    } else if str_eq(role, "radiogroup") {
        Some(Role::RadioGroup)
    } else if str_eq(role, "switch") {
        Some(Role::Switch)
    } else {
        None
    }
}

fn tag_role_of(dom: &Dom, node: NodeId) -> (r: Role)
    requires
        dom.has(node),
    ensures
        r == tag_role(dom.local_at(node)),
{
    match dom.element_name(node) {
        Some(q) => {
            let t = q.local.as_str();
            if str_eq(t, "button") {
                Role::Button
            } else if str_eq(t, "input") {
                Role::TextInput
            } else if str_eq(t, "p") {
                Role::Paragraph
            } else if str_eq(t, "label") {
                Role::Label
            } else if str_eq(t, "html") {
                Role::Document
            } else {
                Role::GenericContainer
            }
        },
        None => Role::GenericContainer,
    }
}

/// The role of a node.
pub fn role_for(dom: &Dom, node: NodeId) -> (r: Role)
    requires
        dom.has(node),
    ensures
        r == role_of(dom, node),
{
    match dom.kind(node) {
        NodeKind::Document => Role::Window,
        NodeKind::Element => match dom.plain_attribute(node, "role") {
            Some(role) => match aria_role_of(role) {
                Some(role) => role,
                None => tag_role_of(dom, node),
            },
            None => tag_role_of(dom, node),
        },
        _ => Role::GenericContainer,
    }
}

/// The text of the first `k` children of a node that are texts.
pub open spec fn text_of_children(dom: &Dom, node: NodeId, k: nat) -> Seq<char>
    decreases k,
{
    if k == 0 {
        Seq::empty()
    } else {
        let before = text_of_children(dom, node, (k - 1) as nat);
        let child = dom.children_at(node)[k - 1];
        match dom.text_at(child) {
            Some(t) => if dom.kind_at(child) == NodeKind::Text {
                before + t
            } else {
                before
            },
            None => before,
        }
    }
}

/// The text that stands directly in a node.
pub fn direct_text(dom: &Dom, node: NodeId) -> (r: String)
    requires
        dom.wf(),
        dom.has(node),
    ensures
        r@ == text_of_children(dom, node, dom.children_at(node).len()),
{
    let children = dom.dom_children(node);
    let mut name: String = String::new();
    let mut k: usize = 0;
    while k < children.len()
        invariant
            dom.wf(),
            dom.has(node),
            children@ == dom.children_at(node),
            k <= children@.len(),
            name@ == text_of_children(dom, node, k as nat),
        decreases children.len() - k,
    {
        let child = children[k];
        assert(dom.has(dom.children_at(node)[k as int]));
        if dom.kind(child) == NodeKind::Text {
            if let Some(t) = dom.text(child) {
                name.append(t);
            }
        }
        k += 1;
    }
    name
}

/// The accessible name of a node: its `aria-label`, else the text directly in
/// it.
pub open spec fn name_of(dom: &Dom, node: NodeId) -> Seq<char> {
    match dom.plain_attr(node, "aria-label"@) {
        Some(label) => label,
        None => text_of_children(dom, node, dom.children_at(node).len()),
    }
}

/// The state that an `aria-checked` attribute names.
pub open spec fn toggled_of(dom: &Dom, node: NodeId) -> Option<Toggled> {
    match dom.plain_attr(node, "aria-checked"@) {
        Some(v) => if v == "true"@ {
            Some(Toggled::True)
        } else if v == "false"@ {
            Some(Toggled::False)
        } else if v == "mixed"@ {
            Some(Toggled::Mixed)
        } else {
            None
        },
        None => None,
    }
}

/// The action that a control takes: a click, or the focus for a text field.
pub open spec fn action_of(role: Role) -> Option<Action> {
    match role {
        Role::Button => Some(Action::Click),
        Role::Switch => Some(Action::Click),
        Role::CheckBox => Some(Action::Click),
        Role::RadioButton => Some(Action::Click),
        Role::TextInput => Some(Action::Focus),
        _ => None,
    }
}

// ---------------------------------------------------------------------------
// The walk
// ---------------------------------------------------------------------------
/// What a walk goes by: the id of each node, the elements that it leaves out,
/// whether controls show their actions, and where layout put each node.
pub struct WalkModel {
    pub ids: spec_fn(NodeId) -> u64,
    pub skips: spec_fn(NodeId) -> bool,
    pub advertise: bool,
    pub fragments: FragmentPlane,
}

impl WalkModel {
    /// Whether the walk goes on to a child.
    pub open spec fn shows(&self, dom: &Dom, child: NodeId) -> bool {
        dom.kind_at(child) == NodeKind::Element && !(self.skips)(child)
    }

    /// The ids of the shown ones of the first `k` children of a node.
    pub open spec fn child_ids(&self, dom: &Dom, node: NodeId, k: nat) -> Seq<u64>
        decreases k,
    {
        if k == 0 {
            Seq::empty()
        } else {
            let before = self.child_ids(dom, node, (k - 1) as nat);
            let child = dom.children_at(node)[k - 1];
            if self.shows(dom, child) {
                before.push((self.ids)(child))
            } else {
                before
            }
        }
    }

    /// The action that a node shows.
    pub open spec fn action(&self, dom: &Dom, node: NodeId) -> Option<Action> {
        if self.advertise {
            action_of(role_of(dom, node))
        } else {
            None
        }
    }

    /// A node of the tree.
    pub open spec fn access_node(&self, dom: &Dom, node: NodeId) -> AccessModel {
        AccessModel {
            role: role_of(dom, node),
            label: if name_of(dom, node).len() > 0 {
                Some(name_of(dom, node))
            } else {
                None
            },
            toggled: toggled_of(dom, node),
            action: self.action(dom, node),
            bounds: fragment::rect_at(dom, &self.fragments, node),
            children: self.child_ids(dom, node, dom.children_at(node).len()),
        }
    }

    /// The nodes of the tree from a node down: each after those below it.
    pub open spec fn tree(&self, dom: &Dom, node: NodeId) -> Seq<(u64, AccessModel)>
        decreases usize::MAX - dom.depth_at(node), dom.children_at(node).len() + 1,
        when dom.wf() && dom.has(node)
    {
        self.tree_upto(dom, node, dom.children_at(node).len()).push(
            ((self.ids)(node), self.access_node(dom, node)),
        )
    }

    /// The nodes of the tree from the first `k` children of a node down.
    pub open spec fn tree_upto(&self, dom: &Dom, node: NodeId, k: nat) -> Seq<(u64, AccessModel)>
        decreases usize::MAX - dom.depth_at(node), k,
        when dom.wf() && dom.has(node) && k <= dom.children_at(node).len()
    {
        if k == 0 {
            Seq::empty()
        } else {
            let child = dom.children_at(node)[k - 1];
            let before = self.tree_upto(dom, node, (k - 1) as nat);
            if self.shows(dom, child) {
                before + self.tree(dom, child)
            } else {
                before
            }
        }
    }

    /// The nodes that show an action from a node down: each before those below
    /// it.
    pub open spec fn acting(&self, dom: &Dom, node: NodeId) -> Seq<NodeId>
        decreases usize::MAX - dom.depth_at(node), dom.children_at(node).len() + 1,
        when dom.wf() && dom.has(node)
    {
        let below = self.acting_upto(dom, node, dom.children_at(node).len());
        if self.action(dom, node) is Some {
            seq![node] + below
        } else {
            below
        }
    }

    /// The nodes that show an action from the first `k` children of a node
    /// down.
    pub open spec fn acting_upto(&self, dom: &Dom, node: NodeId, k: nat) -> Seq<NodeId>
        decreases usize::MAX - dom.depth_at(node), k,
        when dom.wf() && dom.has(node) && k <= dom.children_at(node).len()
    {
        if k == 0 {
            Seq::empty()
        } else {
            let child = dom.children_at(node)[k - 1];
            let before = self.acting_upto(dom, node, (k - 1) as nat);
            if self.shows(dom, child) {
                before + self.acting(dom, child)
            } else {
                before
            }
        }
    }
}

/// One node of the tree, without its children.
fn access_node(
    dom: &Dom,
    fragments: &FragmentPlane,
    node: NodeId,
    advertise: bool,
) -> (r: AccessNode)
    requires
        dom.wf(),
        dom.has(node),
    ensures
        r@ == (AccessModel {
            role: role_of(dom, node),
            label: if name_of(dom, node).len() > 0 {
                Some(name_of(dom, node))
            } else {
                None
            },
            toggled: toggled_of(dom, node),
            action: if advertise {
                action_of(role_of(dom, node))
            } else {
                None
            },
            bounds: fragment::rect_at(dom, fragments, node),
            children: Seq::empty(),
        }),
{
    let role = role_for(dom, node);
    let name: String = match dom.plain_attribute(node, "aria-label") {
        Some(label) => label.to_owned(),
        None => direct_text(dom, node),
    };
    let toggled = match dom.plain_attribute(node, "aria-checked") {
        Some(v) => if str_eq(v, "true") {
            Some(Toggled::True)
        } else if str_eq(v, "false") {
            Some(Toggled::False)
        } else if str_eq(v, "mixed") {
            Some(Toggled::Mixed)
        } else {
            None
        },
        None => None,
    };
    let action = if advertise {
        match role {
            Role::Button => Some(Action::Click),
            Role::Switch => Some(Action::Click),
            Role::CheckBox => Some(Action::Click),
            Role::RadioButton => Some(Action::Click),
            Role::TextInput => Some(Action::Focus),
            _ => None,
        }
    } else {
        None
    };
    let bounds = document_rect(dom, fragments, node);
    let is_named = name.as_str().unicode_len() > 0;
    let label = if is_named {
        Some(name)
    } else {
        None
    };
    let r = AccessNode { role, label, toggled, action, bounds, children: Vec::new() };
    r
}

/// Walks the tree from a node down: appends its nodes and those that show an
/// action, and gives the node's id.
fn walk<I: Fn(&Dom, NodeId) -> u64, S: Fn(&Dom, NodeId) -> bool>(
    dom: &Dom,
    fragments: &FragmentPlane,
    node: NodeId,
    id_of: &I,
    skip: &S,
    advertise: bool,
    out: &mut Vec<(u64, AccessNode)>,
    actionable: &mut Vec<NodeId>,
    Ghost(w): Ghost<WalkModel>,
) -> (r: u64)
    requires
        dom.wf(),
        dom.has(node),
        forall|n: NodeId| #[trigger] call_requires(*id_of, (dom, n)),
        forall|n: NodeId| #[trigger] call_requires(*skip, (dom, n)),
        forall|n: NodeId, id: u64| #[trigger]
            call_ensures(*id_of, (dom, n), id) ==> id == (w.ids)(n),
        forall|n: NodeId, b: bool| #[trigger]
            call_ensures(*skip, (dom, n), b) ==> b == (w.skips)(n),
        w.advertise == advertise,
        w.fragments == *fragments,
    ensures
        r == (w.ids)(node),
        views(final(out)@) == views(old(out)@) + w.tree(dom, node),
        final(actionable)@ == old(actionable)@ + w.acting(dom, node),
    decreases usize::MAX - dom.depth_at(node),
{
    let id = id_of(dom, node);
    let mut access = access_node(dom, fragments, node, advertise);
    let ghost bare = access@;
    let ghost list = views(out@);
    let ghost acted = actionable@;
    if access.action.is_some() {
        actionable.push(node);
    }
    let ghost own = if w.action(dom, node) is Some {
        acted.push(node)
    } else {
        acted
    };
    let children = dom.dom_children(node);
    let mut ids: Vec<u64> = Vec::new();
    let mut k: usize = 0;
    assert(views(out@) =~= list + w.tree_upto(dom, node, 0));
    assert(actionable@ =~= own + w.acting_upto(dom, node, 0));
    while k < children.len()
        invariant
            dom.wf(),
            dom.has(node),
            forall|n: NodeId| #[trigger] call_requires(*id_of, (dom, n)),
            forall|n: NodeId| #[trigger] call_requires(*skip, (dom, n)),
            forall|n: NodeId, id: u64| #[trigger]
                call_ensures(*id_of, (dom, n), id) ==> id == (w.ids)(n),
            forall|n: NodeId, b: bool| #[trigger]
                call_ensures(*skip, (dom, n), b) ==> b == (w.skips)(n),
            w.advertise == advertise,
            w.fragments == *fragments,
            children@ == dom.children_at(node),
            k <= children@.len(),
            ids@ == w.child_ids(dom, node, k as nat),
            views(out@) == list + w.tree_upto(dom, node, k as nat),
            actionable@ == own + w.acting_upto(dom, node, k as nat),
        decreases children.len() - k,
    {
        let child = children[k];
        assert(dom.has(dom.children_at(node)[k as int]));
        assert(dom.parent_at(dom.children_at(node)[k as int]) == Some(node));
        let ghost out_before = views(out@);
        let ghost acted_before = actionable@;
        if dom.kind(child) == NodeKind::Element && !skip(dom, child) {
            let c = walk(
                dom,
                fragments,
                child,
                id_of,
                skip,
                advertise,
                out,
                actionable,
                Ghost(w),
            );
            ids.push(c);
            assert(views(out@) =~= list + w.tree_upto(dom, node, (k + 1) as nat));
            assert(actionable@ =~= own + w.acting_upto(dom, node, (k + 1) as nat));
        }
        k += 1;
    }
    access.children = ids;
    let ghost full = access;
    assert(full@ == w.access_node(dom, node));
    let ghost listed = out@;
    out.push((id, access));
    proof {
        assert(views(out@) =~= views(listed).push((id, full@)));
        assert(views(out@) =~= list + w.tree(dom, node));
        assert(actionable@ =~= acted + w.acting(dom, node));
    }
    id
}

/// Whether a closure gives one answer for each node.
pub open spec fn assigns<T, F: Fn(&Dom, NodeId) -> T>(f: &F, dom: &Dom) -> bool {
    forall|n: NodeId, a: T, b: T|
        #![trigger call_ensures(*f, (dom, n), a), call_ensures(*f, (dom, n), b)]
        call_ensures(*f, (dom, n), a) && call_ensures(*f, (dom, n), b) ==> a == b
}

/// The answer of a closure that gives one answer for each node.
pub open spec fn assigned<T, F: Fn(&Dom, NodeId) -> T>(f: &F, dom: &Dom) -> spec_fn(NodeId) -> T {
    |n: NodeId| choose|a: T| call_ensures(*f, (dom, n), a)
}

/// The accessibility nodes of a laid out subtree, for a host that joins several
/// subtrees: the nodes, the root's id, and the nodes that show an action. `id_of`
/// gives each node its id, and `skip` leaves elements out.
pub fn build_subtree<I: Fn(&Dom, NodeId) -> u64, S: Fn(&Dom, NodeId) -> bool>(
    dom: &Dom,
    fragments: &FragmentPlane,
    root: NodeId,
    id_of: &I,
    skip: &S,
) -> (r: (Vec<(u64, AccessNode)>, u64, Vec<NodeId>))
    requires
        dom.wf(),
        dom.has(root),
        forall|n: NodeId| #[trigger] call_requires(*id_of, (dom, n)),
        forall|n: NodeId| #[trigger] call_requires(*skip, (dom, n)),
        assigns(id_of, dom),
        assigns(skip, dom),
    ensures
        ({
            let w = WalkModel {
                ids: assigned(id_of, dom),
                skips: assigned(skip, dom),
                advertise: true,
                fragments: *fragments,
            };
            &&& views(r.0@) == w.tree(dom, root)
            &&& r.1 == (w.ids)(root)
            &&& r.2@ == w.acting(dom, root)
        }),
{
    let ghost w = WalkModel {
        ids: assigned(id_of, dom),
        skips: assigned(skip, dom),
        advertise: true,
        fragments: *fragments,
    };
    let mut nodes: Vec<(u64, AccessNode)> = Vec::new();
    let mut actionable: Vec<NodeId> = Vec::new();
    let id = walk(
        dom,
        fragments,
        root,
        id_of,
        skip,
        true,
        &mut nodes,
        &mut actionable,
        Ghost(w),
    );
    assert(views(nodes@) =~= w.tree(dom, root));
    assert(actionable@ =~= w.acting(dom, root));
    (nodes, id, actionable)
}

/// What the walk over a whole document goes by: nodes have their opaque ids,
/// nothing is left out, and no action is shown.
pub open spec fn document_walk(fragments: FragmentPlane) -> WalkModel {
    WalkModel {
        ids: |n: NodeId| n as u64,
        skips: |n: NodeId| false,
        advertise: false,
        fragments,
    }
}

/// The accessibility tree of a laid out document. The focus is on `focus`, or
/// on the document.
pub fn accesskit_tree(
    dom: &Dom,
    fragments: &FragmentPlane,
    focus: Option<NodeId>,
) -> (r: TreeUpdate)
    requires
        dom.wf(),
    ensures
        views(r.nodes@) == document_walk(*fragments).tree(dom, dom.root()),
        r.root == dom.root(),
        r.focus == (match focus {
            Some(n) => n,
            None => dom.root(),
        }),
{
    let root = dom.document();
    let ghost w = document_walk(*fragments);
    let id_of = |d: &Dom, n: NodeId| -> (id: u64)
        ensures
            id == n as u64,
        { n as u64 };
    let skip = |d: &Dom, n: NodeId| -> (b: bool)
        ensures
            !b,
        { false };
    let mut nodes: Vec<(u64, AccessNode)> = Vec::new();
    let mut actionable: Vec<NodeId> = Vec::new();
    walk(
        dom,
        fragments,
        root,
        &id_of,
        &skip,
        false,
        &mut nodes,
        &mut actionable,
        Ghost(w),
    );
    assert(views(nodes@) =~= w.tree(dom, root));
    TreeUpdate {
        nodes,
        root: root as u64,
        focus: match focus {
            Some(n) => n as u64,
            None => root as u64,
        },
    }
}

// ---------------------------------------------------------------------------
// Laws
// ---------------------------------------------------------------------------
impl WalkModel {
    /// The nodes that the tree is of, from a node down.
    pub open spec fn listed(&self, dom: &Dom, node: NodeId) -> Seq<NodeId>
        decreases usize::MAX - dom.depth_at(node), dom.children_at(node).len() + 1,
        when dom.wf() && dom.has(node)
    {
        self.listed_upto(dom, node, dom.children_at(node).len()).push(node)
    }

    /// The nodes that the tree is of, from the first `k` children of a node
    /// down.
    pub open spec fn listed_upto(&self, dom: &Dom, node: NodeId, k: nat) -> Seq<NodeId>
        decreases usize::MAX - dom.depth_at(node), k,
        when dom.wf() && dom.has(node) && k <= dom.children_at(node).len()
    {
        if k == 0 {
            Seq::empty()
        } else {
            let child = dom.children_at(node)[k - 1];
            let before = self.listed_upto(dom, node, (k - 1) as nat);
            if self.shows(dom, child) {
                before + self.listed(dom, child)
            } else {
                before
            }
        }
    }

    /// The tree has one entry for each node that it is of: with the node's id,
    /// and what it says of the node.
    pub proof fn an_entry_is_of_a_node(&self, dom: &Dom, node: NodeId)
        requires
            dom.wf(),
            dom.has(node),
        ensures
            self.tree(dom, node).len() == self.listed(dom, node).len(),
            forall|i: int|
                0 <= i < self.tree(dom, node).len() ==> #[trigger] self.tree(dom, node)[i] == (
                    (self.ids)(self.listed(dom, node)[i]),
                    self.access_node(dom, self.listed(dom, node)[i]),
                ),
        decreases usize::MAX - dom.depth_at(node), dom.children_at(node).len() + 1,
    {
        self.lemma_entries_upto(dom, node, dom.children_at(node).len());
    }

    proof fn lemma_entries_upto(&self, dom: &Dom, node: NodeId, k: nat)
        requires
            dom.wf(),
            dom.has(node),
            k <= dom.children_at(node).len(),
        ensures
            self.tree_upto(dom, node, k).len() == self.listed_upto(dom, node, k).len(),
            forall|i: int|
                0 <= i < self.tree_upto(dom, node, k).len() ==> #[trigger] self.tree_upto(
                    dom,
                    node,
                    k,
                )[i] == (
                    (self.ids)(self.listed_upto(dom, node, k)[i]),
                    self.access_node(dom, self.listed_upto(dom, node, k)[i]),
                ),
        decreases usize::MAX - dom.depth_at(node), k,
    {
        if k > 0 {
            let child = dom.children_at(node)[k - 1];
            assert(dom.has(child) && dom.parent_at(child) == Some(node));
            self.lemma_entries_upto(dom, node, (k - 1) as nat);
            if self.shows(dom, child) {
                self.an_entry_is_of_a_node(dom, child);
            }
        }
    }

    /// The tree is of each of its nodes once. They are elements, but for the
    /// node that it starts from: text is part of the name of what it stands in.
    pub proof fn elements_are_listed_once(&self, dom: &Dom, node: NodeId)
        requires
            dom.wf(),
            dom.has(node),
        ensures
            self.listed(dom, node).no_duplicates(),
            forall|x: NodeId| #[trigger]
                self.listed(dom, node).contains(x) ==> dom.is_within(x, node) && (x == node
                    || dom.kind_at(x) == NodeKind::Element),
        decreases usize::MAX - dom.depth_at(node), dom.children_at(node).len() + 1,
    {
        let n = dom.children_at(node).len();
        self.lemma_listed_upto(dom, node, n);
        let below = self.listed_upto(dom, node, n);
        let all = self.listed(dom, node);
        assert(dom.is_within(node, node));
        assert forall|x: NodeId| #[trigger] all.contains(x) implies dom.is_within(x, node) && (x
            == node || dom.kind_at(x) == NodeKind::Element) by {
            let i = all.index_of(x);
            if i < below.len() {
                assert(below[i] == x);
                assert(below.contains(x));
            }
        }
        assert(!below.contains(node));
    }

    proof fn lemma_listed_upto(&self, dom: &Dom, node: NodeId, k: nat)
        requires
            dom.wf(),
            dom.has(node),
            k <= dom.children_at(node).len(),
        ensures
            self.listed_upto(dom, node, k).no_duplicates(),
            forall|x: NodeId| #[trigger]
                self.listed_upto(dom, node, k).contains(x) ==> {
                    &&& dom.is_within(x, node)
                    &&& x != node
                    &&& dom.kind_at(x) == NodeKind::Element
                    &&& exists|j: int|
                        0 <= j < k && dom.is_within(x, #[trigger] dom.children_at(node)[j])
                },
        decreases usize::MAX - dom.depth_at(node), k,
    {
        if k > 0 {
            let child = dom.children_at(node)[k - 1];
            assert(dom.has(child) && dom.parent_at(child) == Some(node));
            self.lemma_listed_upto(dom, node, (k - 1) as nat);
            if self.shows(dom, child) {
                self.elements_are_listed_once(dom, child);
                let a = self.listed_upto(dom, node, (k - 1) as nat);
                let b = self.listed(dom, child);
                let whole = self.listed_upto(dom, node, k);
                assert(whole == a + b);
                assert forall|x: NodeId| #[trigger] whole.contains(x) implies {
                    &&& dom.is_within(x, node)
                    &&& x != node
                    &&& dom.kind_at(x) == NodeKind::Element
                    &&& exists|j: int|
                        0 <= j < k && dom.is_within(x, #[trigger] dom.children_at(node)[j])
                } by {
                    let i = whole.index_of(x);
                    if i < a.len() {
                        assert(a[i] == x);
                        assert(a.contains(x));
                    } else {
                        assert(b[i - a.len()] == x);
                        assert(b.contains(x));
                        dom.lemma_within_parent(x, child, node);
                        assert(dom.depth_at(child) == dom.depth_at(node) + 1);
                        assert(dom.is_within(x, dom.children_at(node)[k - 1]));
                    }
                }
                assert forall|i: int, j: int| 0 <= i < j < whole.len() implies whole[i]
                    != whole[j] by {
                    if j < a.len() {
                        assert(a[i] != a[j]);
                    } else if i >= a.len() {
                        assert(b[i - a.len()] != b[j - a.len()]);
                    } else if whole[i] == whole[j] {
                        let x = whole[i];
                        assert(a[i] == x && a.contains(x));
                        assert(b[j - a.len()] == x && b.contains(x));
                        let m = choose|m: int|
                            0 <= m < k - 1 && dom.is_within(x, #[trigger] dom.children_at(node)[m]);
                        let other = dom.children_at(node)[m];
                        dom.lemma_within_one_child(x, child, other, node);
                        assert(dom.children_at(node).no_duplicates());
                    }
                }
            }
        }
    }

    /// Every child that an entry of the tree names has an entry of its own
    /// before it.
    pub proof fn the_children_of_an_entry_are_listed(
        &self,
        dom: &Dom,
        node: NodeId,
        i: int,
        c: int,
    )
        requires
            dom.wf(),
            dom.has(node),
            0 <= i < self.tree(dom, node).len(),
            0 <= c < self.tree(dom, node)[i].1.children.len(),
        ensures
            exists|j: int|
                0 <= j < i && (#[trigger] self.tree(dom, node)[j]).0 == self.tree(
                    dom,
                    node,
                )[i].1.children[c],
        decreases usize::MAX - dom.depth_at(node), dom.children_at(node).len() + 1,
    {
        let n = dom.children_at(node).len();
        let below = self.tree_upto(dom, node, n);
        let all = self.tree(dom, node);
        if i < below.len() {
            self.lemma_children_upto(dom, node, n, i, c);
            let j = choose|j: int| 0 <= j < i && (#[trigger] below[j]).0 == below[i].1.children[c];
            assert(all[j] == below[j]);
        } else {
            let j = self.lemma_child_has_entry(dom, node, n, c);
            assert(all[j] == below[j]);
        }
    }

    proof fn lemma_child_has_entry(&self, dom: &Dom, node: NodeId, k: nat, c: int) -> (j: int)
        requires
            dom.wf(),
            dom.has(node),
            k <= dom.children_at(node).len(),
            0 <= c < self.child_ids(dom, node, k).len(),
        ensures
            0 <= j < self.tree_upto(dom, node, k).len(),
            self.tree_upto(dom, node, k)[j].0 == self.child_ids(dom, node, k)[c],
        decreases k,
    {
        let m = (k - 1) as nat;
        let child = dom.children_at(node)[k - 1];
        assert(dom.has(child) && dom.parent_at(child) == Some(node));
        if self.shows(dom, child) && c == self.child_ids(dom, node, k).len() - 1 {
            let a = self.tree_upto(dom, node, m);
            let b = self.tree(dom, child);
            assert(self.tree_upto(dom, node, k) == a + b);
            assert(b.len() > 0 && b.last().0 == (self.ids)(child));
            a.len() + b.len() - 1
        } else {
            self.lemma_child_has_entry(dom, node, m, c)
        }
    }

    proof fn lemma_children_upto(&self, dom: &Dom, node: NodeId, k: nat, i: int, c: int)
        requires
            dom.wf(),
            dom.has(node),
            k <= dom.children_at(node).len(),
            0 <= i < self.tree_upto(dom, node, k).len(),
            0 <= c < self.tree_upto(dom, node, k)[i].1.children.len(),
        ensures
            exists|j: int|
                0 <= j < i && (#[trigger] self.tree_upto(dom, node, k)[j]).0 == self.tree_upto(
                    dom,
                    node,
                    k,
                )[i].1.children[c],
        decreases usize::MAX - dom.depth_at(node), k,
    {
        let m = (k - 1) as nat;
        let child = dom.children_at(node)[k - 1];
        assert(dom.has(child) && dom.parent_at(child) == Some(node));
        let a = self.tree_upto(dom, node, m);
        let all = self.tree_upto(dom, node, k);
        if i < a.len() {
            self.lemma_children_upto(dom, node, m, i, c);
            let j = choose|j: int| 0 <= j < i && (#[trigger] a[j]).0 == a[i].1.children[c];
            assert(all[j] == a[j]);
        } else {
            let b = self.tree(dom, child);
            self.the_children_of_an_entry_are_listed(dom, child, i - a.len(), c);
            let j = choose|j: int|
                0 <= j < i - a.len() && (#[trigger] b[j]).0 == b[i - a.len()].1.children[c];
            assert(all[a.len() + j] == b[j]);
        }
    }

    /// An element that has an `aria-label` is named by it, whatever stands in the
    /// element; an empty one leaves the element without a name. An element
    /// without the attribute is named by the texts directly in it, one after the
    /// other, where they hold anything.
    pub proof fn an_entry_is_named_by_its_label_or_its_texts(&self, dom: &Dom, node: NodeId, i: int)
        requires
            dom.wf(),
            dom.has(node),
            0 <= i < self.tree(dom, node).len(),
        ensures
            ({
                let x = self.listed(dom, node)[i];
                let label = self.tree(dom, node)[i].1.label;
                match dom.plain_attr(x, "aria-label"@) {
                    Some(v) => if v.len() > 0 {
                        label == Some(v)
                    } else {
                        label is None
                    },
                    None => if texts_in(dom, x).len() > 0 {
                        label == Some(texts_in(dom, x))
                    } else {
                        label is None
                    },
                }
            }),
    {
        self.an_entry_is_of_a_node(dom, node);
        let x = self.listed(dom, node)[i];
        assert(self.tree(dom, node)[i].1 == self.access_node(dom, x));
        lemma_texts_in(dom, x, dom.children_at(x).len());
        assert(dom.children_at(x).take(dom.children_at(x).len() as int) =~= dom.children_at(x));
    }

    /// An element whose `role` names a control is that control, whatever the
    /// element is; one with another `role`, or none, is what its own name makes
    /// it. The document is the window.
    pub proof fn an_entry_has_the_role_of_its_attribute_or_its_name(
        &self,
        dom: &Dom,
        node: NodeId,
        i: int,
    )
        requires
            dom.wf(),
            dom.has(node),
            0 <= i < self.tree(dom, node).len(),
        ensures
            ({
                let x = self.listed(dom, node)[i];
                let role = self.tree(dom, node)[i].1.role;
                let named = dom.plain_attr(x, "role"@);
                let control = named == Some("button"@) || named == Some("checkbox"@) || named
                    == Some("radio"@) || named == Some("radiogroup"@) || named == Some("switch"@);
                &&& dom.kind_at(x) == NodeKind::Document ==> role == Role::Window
                &&& dom.kind_at(x) == NodeKind::Element ==> {
                    &&& named == Some("button"@) ==> role == Role::Button
                    &&& named == Some("checkbox"@) ==> role == Role::CheckBox
                    &&& named == Some("radio"@) ==> role == Role::RadioButton
                    &&& named == Some("radiogroup"@) ==> role == Role::RadioGroup
                    &&& named == Some("switch"@) ==> role == Role::Switch
                    &&& !control && dom.is_named(x, "button"@) ==> role == Role::Button
                    &&& !control && dom.is_named(x, "input"@) ==> role == Role::TextInput
                    &&& !control && dom.is_named(x, "p"@) ==> role == Role::Paragraph
                    &&& !control && dom.is_named(x, "label"@) ==> role == Role::Label
                    &&& !control && dom.is_named(x, "html"@) ==> role == Role::Document
                    &&& !control && !dom.is_named(x, "button"@) && !dom.is_named(x, "input"@)
                        && !dom.is_named(x, "p"@) && !dom.is_named(x, "label"@) && !dom.is_named(
                        x,
                        "html"@,
                    ) ==> role == Role::GenericContainer
                }
            }),
    {
        self.an_entry_is_of_a_node(dom, node);
        let x = self.listed(dom, node)[i];
        assert(self.tree(dom, node)[i].1 == self.access_node(dom, x));
        reveal_strlit("button");
        reveal_strlit("checkbox");
        reveal_strlit("radio");
        reveal_strlit("radiogroup");
        reveal_strlit("switch");
        reveal_strlit("input");
        reveal_strlit("p");
        reveal_strlit("label");
        reveal_strlit("html");
        assert("button"@[0] != "switch"@[0]);
        assert("input"@[0] != "label"@[0]);
        assert("checkbox"@.len() == 8 && "button"@.len() == 6 && "radio"@.len() == 5);
        assert("radiogroup"@.len() == 10 && "switch"@.len() == 6);
        assert("input"@.len() == 5 && "p"@.len() == 1 && "label"@.len() == 5 && "html"@.len() == 4);
    }

    /// A control is on, off or in between as its `aria-checked` says, and an
    /// element without one of those three values has no such state.
    pub proof fn an_entry_is_toggled_as_its_attribute_says(&self, dom: &Dom, node: NodeId, i: int)
        requires
            dom.wf(),
            dom.has(node),
            0 <= i < self.tree(dom, node).len(),
        ensures
            ({
                let checked = dom.plain_attr(self.listed(dom, node)[i], "aria-checked"@);
                let toggled = self.tree(dom, node)[i].1.toggled;
                &&& toggled == Some(Toggled::True) <==> checked == Some("true"@)
                &&& toggled == Some(Toggled::False) <==> checked == Some("false"@)
                &&& toggled == Some(Toggled::Mixed) <==> checked == Some("mixed"@)
            }),
    {
        self.an_entry_is_of_a_node(dom, node);
        let x = self.listed(dom, node)[i];
        assert(self.tree(dom, node)[i].1 == self.access_node(dom, x));
        reveal_strlit("true");
        reveal_strlit("false");
        reveal_strlit("mixed");
        assert("false"@[0] != "mixed"@[0]);
    }

    /// Where actions are shown, buttons and toggles take a click, a text field
    /// takes the focus and nothing else takes an action; elsewhere nothing does.
    pub proof fn an_entry_takes_the_action_of_its_role(&self, dom: &Dom, node: NodeId, i: int)
        requires
            dom.wf(),
            dom.has(node),
            0 <= i < self.tree(dom, node).len(),
        ensures
            ({
                let role = self.tree(dom, node)[i].1.role;
                let action = self.tree(dom, node)[i].1.action;
                let pressed = role == Role::Button || role == Role::Switch || role == Role::CheckBox
                    || role == Role::RadioButton;
                &&& action == Some(Action::Click) <==> self.advertise && pressed
                &&& action == Some(Action::Focus) <==> self.advertise && role == Role::TextInput
            }),
    {
        self.an_entry_is_of_a_node(dom, node);
        let x = self.listed(dom, node)[i];
        assert(self.tree(dom, node)[i].1 == self.access_node(dom, x));
    }

    /// An entry lies where layout put its node: it is as wide and as high as the
    /// node's box, and starts where that box starts in the document. A node
    /// without a box lies nowhere.
    pub proof fn an_entry_lies_where_its_box_does(&self, dom: &Dom, node: NodeId, i: int)
        requires
            dom.wf(),
            dom.has(node),
            0 <= i < self.tree(dom, node).len(),
        ensures
            ({
                let x = self.listed(dom, node)[i];
                let bounds = self.tree(dom, node)[i].1.bounds;
                let from = fragment::origin(dom, &self.fragments, x);
                &&& bounds is Some <==> self.fragments.rects@.contains_key(x)
                &&& bounds matches Some(b) ==> {
                    &&& (b.0, b.1) == from
                    &&& b.2 - b.0 == self.fragments.rects@[x].width
                    &&& b.3 - b.1 == self.fragments.rects@[x].height
                }
            }),
    {
        self.an_entry_is_of_a_node(dom, node);
        let x = self.listed(dom, node)[i];
        assert(self.tree(dom, node)[i].1 == self.access_node(dom, x));
    }

    /// The children of an entry are the ids of the elements directly in its node
    /// that are not left out, first to last.
    pub proof fn an_entry_names_the_elements_directly_in_it(&self, dom: &Dom, node: NodeId, i: int)
        requires
            dom.wf(),
            dom.has(node),
            0 <= i < self.tree(dom, node).len(),
        ensures
            self.tree(dom, node)[i].1.children == dom.children_at(
                self.listed(dom, node)[i],
            ).filter(
                |c: NodeId| dom.kind_at(c) == NodeKind::Element && !(self.skips)(c),
            ).map_values(self.ids),
    {
        self.an_entry_is_of_a_node(dom, node);
        let x = self.listed(dom, node)[i];
        assert(self.tree(dom, node)[i].1 == self.access_node(dom, x));
        let all = dom.children_at(x);
        self.lemma_child_ids_filter(dom, x, all.len());
        assert(all.take(all.len() as int) =~= all);
    }

    proof fn lemma_child_ids_filter(&self, dom: &Dom, x: NodeId, k: nat)
        requires
            k <= dom.children_at(x).len(),
        ensures
            self.child_ids(dom, x, k) == dom.children_at(x).take(k as int).filter(
                |c: NodeId| dom.kind_at(c) == NodeKind::Element && !(self.skips)(c),
            ).map_values(self.ids),
        decreases k,
    {
        let p = |c: NodeId| dom.kind_at(c) == NodeKind::Element && !(self.skips)(c);
        let front = dom.children_at(x).take(k as int);
        reveal(Seq::filter);
        if k == 0 {
            assert(front.filter(p).map_values(self.ids) =~= Seq::<u64>::empty());
        } else {
            self.lemma_child_ids_filter(dom, x, (k - 1) as nat);
            assert(front.drop_last() =~= dom.children_at(x).take(k - 1));
            assert(front.last() == dom.children_at(x)[k - 1]);
            assert(self.child_ids(dom, x, k) =~= front.filter(p).map_values(self.ids));
        }
    }

    /// The tree misses nothing: below its start it is of just the elements that
    /// are not left out and stand directly in a node that it is of.
    pub proof fn an_element_is_listed_with_its_parent(&self, dom: &Dom, node: NodeId, x: NodeId)
        requires
            dom.wf(),
            dom.has(node),
            dom.is_within(x, node),
            x != node,
        ensures
            self.listed(dom, node).contains(node),
            self.listed(dom, node).contains(x) <==> {
                &&& dom.kind_at(x) == NodeKind::Element
                &&& !(self.skips)(x)
                &&& self.listed(dom, node).contains(dom.parent_at(x)->0)
            },
        decreases usize::MAX - dom.depth_at(node),
    {
        let n = dom.children_at(node).len();
        let all = self.listed(dom, node);
        assert(all.last() == node);
        let j = dom.lemma_child_toward(x, node);
        let c = dom.children_at(node)[j];
        assert(dom.has(c) && dom.parent_at(c) == Some(node));
        self.lemma_listed_by_child(dom, node, j, x);
        let p = dom.parent_at(x)->0;
        if x == c {
            let own = self.listed(dom, c);
            assert(own.last() == c);
            assert(own.contains(c));
        } else {
            assert(dom.is_within(p, c)) by {
                dom.lemma_parent_is_within(x, c);
            }
            assert(p != node) by {
                assert(dom.depth_at(c) == dom.depth_at(node) + 1);
            }
            self.lemma_listed_by_child(dom, node, j, p);
            self.an_element_is_listed_with_its_parent(dom, c, x);
        }
    }

    proof fn lemma_listed_by_child(&self, dom: &Dom, node: NodeId, j: int, x: NodeId)
        requires
            dom.wf(),
            dom.has(node),
            0 <= j < dom.children_at(node).len(),
            dom.is_within(x, dom.children_at(node)[j]),
            x != node,
        ensures
            self.listed(dom, node).contains(x) <==> self.shows(dom, dom.children_at(node)[j])
                && self.listed(dom, dom.children_at(node)[j]).contains(x),
    {
        let n = dom.children_at(node).len();
        let below = self.listed_upto(dom, node, n);
        let all = self.listed(dom, node);
        assert(all == below.push(node));
        self.lemma_listed_upto_by_child(dom, node, n, j, x);
        if all.contains(x) {
            let i = all.index_of(x);
            assert(below[i] == x);
            assert(below.contains(x));
        }
        if below.contains(x) {
            let i = below.index_of(x);
            assert(all[i] == x);
        }
    }

    proof fn lemma_listed_upto_by_child(&self, dom: &Dom, node: NodeId, k: nat, j: int, x: NodeId)
        requires
            dom.wf(),
            dom.has(node),
            k <= dom.children_at(node).len(),
            0 <= j < dom.children_at(node).len(),
            dom.is_within(x, dom.children_at(node)[j]),
        ensures
            self.listed_upto(dom, node, k).contains(x) <==> j < k && self.shows(
                dom,
                dom.children_at(node)[j],
            ) && self.listed(dom, dom.children_at(node)[j]).contains(x),
        decreases k,
    {
        if k > 0 {
            let c = dom.children_at(node)[j];
            let child = dom.children_at(node)[k - 1];
            assert(dom.has(c) && dom.parent_at(c) == Some(node));
            assert(dom.has(child) && dom.parent_at(child) == Some(node));
            self.lemma_listed_upto_by_child(dom, node, (k - 1) as nat, j, x);
            let a = self.listed_upto(dom, node, (k - 1) as nat);
            let whole = self.listed_upto(dom, node, k);
            if self.shows(dom, child) {
                let b = self.listed(dom, child);
                assert(whole == a + b);
                self.elements_are_listed_once(dom, child);
                if b.contains(x) {
                    dom.lemma_within_one_child(x, c, child, node);
                    assert(dom.children_at(node).no_duplicates());
                    let i = b.index_of(x);
                    assert(whole[a.len() + i] == x);
                }
                if a.contains(x) {
                    let i = a.index_of(x);
                    assert(whole[i] == x);
                }
                if whole.contains(x) {
                    let i = whole.index_of(x);
                    if i < a.len() {
                        assert(a[i] == x);
                    } else {
                        assert(b[i - a.len()] == x);
                    }
                }
            }
        }
    }

    /// The nodes that show an action are those of the tree whose entry has one.
    pub proof fn the_acting_nodes_are_those_whose_entry_acts(
        &self,
        dom: &Dom,
        node: NodeId,
        x: NodeId,
    )
        requires
            dom.wf(),
            dom.has(node),
        ensures
            self.acting(dom, node).contains(x) <==> exists|i: int|
                0 <= i < self.tree(dom, node).len() && #[trigger] self.listed(dom, node)[i] == x
                    && self.tree(dom, node)[i].1.action is Some,
        decreases usize::MAX - dom.depth_at(node), dom.children_at(node).len() + 1,
    {
        let n = dom.children_at(node).len();
        self.an_entry_is_of_a_node(dom, node);
        self.lemma_acting_upto(dom, node, n, x);
        let list = self.listed(dom, node);
        let below = self.listed_upto(dom, node, n);
        let acting = self.acting(dom, node);
        let rest = self.acting_upto(dom, node, n);
        assert(list == below.push(node));
        assert(forall|i: int|
            0 <= i < list.len() ==> self.tree(dom, node)[i].1 == self.access_node(
                dom,
                #[trigger] list[i],
            ));
        if acting.contains(x) {
            let i = acting.index_of(x);
            if self.action(dom, node) is Some && i == 0 {
                assert(list[list.len() - 1] == x);
            } else {
                let r = if self.action(dom, node) is Some {
                    i - 1
                } else {
                    i
                };
                assert(rest[r] == x);
                assert(rest.contains(x));
                let m = below.index_of(x);
                assert(list[m] == x);
            }
        }
        if exists|i: int|
            0 <= i < self.tree(dom, node).len() && #[trigger] list[i] == x && self.tree(
                dom,
                node,
            )[i].1.action is Some {
            let i = choose|i: int|
                0 <= i < self.tree(dom, node).len() && #[trigger] list[i] == x && self.tree(
                    dom,
                    node,
                )[i].1.action is Some;
            assert(self.action(dom, x) is Some);
            if i == below.len() {
                assert(acting[0] == x);
            } else {
                assert(below[i] == x);
                assert(below.contains(x));
                let r = rest.index_of(x);
                if self.action(dom, node) is Some {
                    assert(acting[r + 1] == x);
                } else {
                    assert(acting[r] == x);
                }
            }
        }
    }

    proof fn lemma_acting_upto(&self, dom: &Dom, node: NodeId, k: nat, x: NodeId)
        requires
            dom.wf(),
            dom.has(node),
            k <= dom.children_at(node).len(),
        ensures
            self.acting_upto(dom, node, k).contains(x) <==> self.listed_upto(
                dom,
                node,
                k,
            ).contains(x) && self.action(dom, x) is Some,
        decreases usize::MAX - dom.depth_at(node), k,
    {
        if k > 0 {
            let child = dom.children_at(node)[k - 1];
            assert(dom.has(child) && dom.parent_at(child) == Some(node));
            self.lemma_acting_upto(dom, node, (k - 1) as nat, x);
            if self.shows(dom, child) {
                self.the_acting_nodes_are_those_whose_entry_acts(dom, child, x);
                self.an_entry_is_of_a_node(dom, child);
                let a = self.listed_upto(dom, node, (k - 1) as nat);
                let b = self.listed(dom, child);
                let c = self.acting_upto(dom, node, (k - 1) as nat);
                let d = self.acting(dom, child);
                lemma_contains_either(a, b, x);
                lemma_contains_either(c, d, x);
                if b.contains(x) {
                    let i = b.index_of(x);
                    assert(self.tree(dom, child)[i].1 == self.access_node(dom, b[i]));
                }
                if d.contains(x) {
                    let i = choose|i: int|
                        0 <= i < self.tree(dom, child).len() && #[trigger] b[i] == x && self.tree(
                            dom,
                            child,
                        )[i].1.action is Some;
                    assert(self.tree(dom, child)[i].1 == self.access_node(dom, b[i]));
                }
            }
        }
    }
}

/// The texts directly in a node, one after the other.
pub open spec fn texts_in(dom: &Dom, node: NodeId) -> Seq<char> {
    dom.children_at(node).map_values(
        |c: NodeId|
            match dom.text_at(c) {
                Some(t) if dom.kind_at(c) == NodeKind::Text => t,
                _ => Seq::<char>::empty(),
            },
    ).flatten()
}

proof fn lemma_texts_in(dom: &Dom, node: NodeId, k: nat)
    requires
        k <= dom.children_at(node).len(),
    ensures
        text_of_children(dom, node, k) == dom.children_at(node).take(k as int).map_values(
            |c: NodeId|
                match dom.text_at(c) {
                    Some(t) if dom.kind_at(c) == NodeKind::Text => t,
                    _ => Seq::<char>::empty(),
                },
        ).flatten(),
    decreases k,
{
    let f = |c: NodeId|
        match dom.text_at(c) {
            Some(t) if dom.kind_at(c) == NodeKind::Text => t,
            _ => Seq::<char>::empty(),
        };
    let parts = dom.children_at(node).take(k as int).map_values(f);
    if k == 0 {
        assert(parts =~= Seq::<Seq<char>>::empty());
    } else {
        lemma_texts_in(dom, node, (k - 1) as nat);
        let before = dom.children_at(node).take(k - 1).map_values(f);
        assert(parts =~= before.push(f(dom.children_at(node)[k - 1])));
        before.lemma_flatten_push(f(dom.children_at(node)[k - 1]));
        assert(text_of_children(dom, node, k) =~= parts.flatten());
    }
}

proof fn lemma_contains_either(a: Seq<NodeId>, b: Seq<NodeId>, x: NodeId)
    ensures
        (a + b).contains(x) <==> a.contains(x) || b.contains(x),
{
    if a.contains(x) {
        let i = a.index_of(x);
        assert((a + b)[i] == x);
    }
    if b.contains(x) {
        let i = b.index_of(x);
        assert((a + b)[a.len() + i] == x);
    }
}

/// A walk over a whole document shows every element under its own number, and no
/// action.
pub proof fn a_document_walk_shows_every_element(fragments: FragmentPlane, dom: &Dom, n: NodeId)
    ensures
        (document_walk(fragments).ids)(n) == n,
        document_walk(fragments).shows(dom, n) <==> dom.kind_at(n) is Element,
        !document_walk(fragments).advertise,
        document_walk(fragments).fragments == fragments,
{
}

} // verus!
