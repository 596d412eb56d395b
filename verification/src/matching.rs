//! What a selector asks of an element.
use vstd::prelude::*;
use crate::adapter;
use crate::adapter::{next_sibling, prev_sibling};
use crate::dom;
use crate::dom::{Dom, NodeId, NodeKind};
use crate::scan;
use crate::scan::{has_word, split_words};
use crate::style_plane::{StyleEntry, StylePlane};
use crate::text;
use crate::text::{chars_of, lower_chars, str_eq};

verus! {

// ---------------------------------------------------------------------------
// Neighbours
// ---------------------------------------------------------------------------
/// The nearest element before a node under the same parent.
pub open spec fn prev_element(dom: &Dom, children: Seq<NodeId>, i: nat) -> Option<NodeId>
    decreases i,
{
    if i == 0 {
        None
    } else if dom.kind_at(children[i - 1]) == NodeKind::Element {
        Some(children[i - 1])
    } else {
        prev_element(dom, children, (i - 1) as nat)
    }
}

/// The first element among some children from number `i` on.
pub open spec fn element_from(dom: &Dom, children: Seq<NodeId>, i: nat) -> Option<NodeId>
    decreases children.len() - i,
{
    if i >= children.len() {
        None
    } else if dom.kind_at(children[i as int]) == NodeKind::Element {
        Some(children[i as int])
    } else {
        element_from(dom, children, i + 1)
    }
}

/// The children that a node is one of, and its place among them.
pub open spec fn siblings(dom: &Dom, id: NodeId) -> Option<(Seq<NodeId>, nat)> {
    match dom.parent_at(id) {
        Some(p) => match scan::first_index(dom.children_at(p), id) {
            Some(i) => Some((dom.children_at(p), i)),
            None => None,
        },
        None => None,
    }
}

/// The nearest element before a node under the same parent.
pub fn prev_sibling_element(dom: &Dom, id: NodeId) -> (r: Option<NodeId>)
    requires
        dom.wf(),
        dom.has(id),
    ensures
        match siblings(dom, id) {
            Some((children, i)) => r == prev_element(dom, children, i),
            None => r is None,
        },
{
    let ghost start = siblings(dom, id);
    let mut cur: Option<NodeId> = prev_sibling(dom, id);
    let ghost mut i: nat = match start {
        Some((_, i)) => i,
        None => 0,
    };
    proof {
        if let Some(p) = dom.parent_at(id) {
            scan::lemma_first_index_fits(dom.children_at(p), id);
        }
    }
    while cur.is_some()
        invariant
            dom.wf(),
            start == siblings(dom, id),
            match start {
                Some((children, at)) => {
                    &&& i <= children.len()
                    &&& cur == (if i > 0 {
                        Some(children[i - 1])
                    } else {
                        None
                    })
                    &&& prev_element(dom, children, at) == prev_element(dom, children, i)
                    &&& dom.parent_at(id) matches Some(p) && dom.has(p) && children
                        == dom.children_at(p)
                },
                None => cur is None,
            },
            cur matches Some(c) ==> dom.has(c),
        decreases i,
    {
        let c: NodeId = cur.unwrap();
        if dom.kind(c) == NodeKind::Element {
            return Some(c);
        }
        proof {
            let p = dom.parent_at(id).unwrap();
            adapter::steps_lead_back(dom, p, i - 1);
        }
        cur = prev_sibling(dom, c);
        proof {
            i = (i - 1) as nat;
        }
    }
    None
}

/// The nearest element after a node under the same parent.
pub fn next_sibling_element(dom: &Dom, id: NodeId) -> (r: Option<NodeId>)
    requires
        dom.wf(),
        dom.has(id),
    ensures
        match siblings(dom, id) {
            Some((children, i)) => r == element_from(dom, children, i + 1),
            None => r is None,
        },
{
    let ghost start = siblings(dom, id);
    let mut cur: Option<NodeId> = next_sibling(dom, id);
    let ghost mut i: nat = match start {
        Some((_, i)) => i + 1,
        None => 0,
    };
    proof {
        if let Some(p) = dom.parent_at(id) {
            scan::lemma_first_index_fits(dom.children_at(p), id);
        }
    }
    while cur.is_some()
        invariant
            dom.wf(),
            start == siblings(dom, id),
            match start {
                Some((children, at)) => {
                    &&& i <= children.len()
                    &&& cur == (if i < children.len() {
                        Some(children[i as int])
                    } else {
                        None
                    })
                    &&& element_from(dom, children, at + 1) == element_from(dom, children, i)
                    &&& dom.parent_at(id) matches Some(p) && dom.has(p) && children
                        == dom.children_at(p)
                },
                None => cur is None,
            },
            cur matches Some(c) ==> dom.has(c),
        decreases
                match start {
                    Some((children, _)) => children.len() - i,
                    None => 0,
                },
    {
        let c: NodeId = cur.unwrap();
        if dom.kind(c) == NodeKind::Element {
            return Some(c);
        }
        proof {
            let p = dom.parent_at(id).unwrap();
            adapter::steps_lead_back(dom, p, i as int);
        }
        cur = next_sibling(dom, c);
        proof {
            i = i + 1;
        }
    }
    None
}

/// The first child that is an element.
pub fn first_element_child(dom: &Dom, id: NodeId) -> (r: Option<NodeId>)
    requires
        dom.wf(),
        dom.has(id),
    ensures
        r == element_from(dom, dom.children_at(id), 0),
{
    let children = dom.dom_children(id);
    let mut i: usize = 0;
    while i < children.len()
        invariant
            dom.wf(),
            dom.has(id),
            children@ == dom.children_at(id),
            i <= children@.len(),
            element_from(dom, children@, 0) == element_from(dom, children@, i as nat),
        decreases children.len() - i,
    {
        assert(dom.has(dom.children_at(id)[i as int]));
        if dom.kind(children[i]) == NodeKind::Element {
            return Some(children[i]);
        }
        i += 1;
    }
    None
}

/// Whether an element has no children.
pub fn is_empty(dom: &Dom, id: NodeId) -> (r: bool)
    requires
        dom.has(id),
    ensures
        r == (dom.children_at(id).len() == 0),
{
    dom.dom_children(id).len() == 0
}

/// Whether an element is the root of its document: it stands directly under the
/// document, or under nothing.
pub fn is_root(dom: &Dom, id: NodeId) -> (r: bool)
    requires
        dom.wf(),
        dom.has(id),
    ensures
        r == (match dom.parent_at(id) {
            Some(p) => dom.kind_at(p) == NodeKind::Document,
            None => true,
        }),
{
    match dom.parent(id) {
        Some(p) => dom.kind(p) == NodeKind::Document,
        None => true,
    }
}

// ---------------------------------------------------------------------------
// Names
// ---------------------------------------------------------------------------
/// Whether an element has a local name.
pub fn has_local_name(dom: &Dom, id: NodeId, local: &str) -> (r: bool)
    requires
        dom.has(id),
    ensures
        r == (dom.local_at(id) == Some(local@)),
{
    match dom.element_name(id) {
        Some(q) => str_eq(q.local.as_str(), local),
        None => false,
    }
}

/// Whether an element is in a namespace.
pub fn has_namespace(dom: &Dom, id: NodeId, ns: &str) -> (r: bool)
    requires
        dom.has(id),
    ensures
        r == (dom.ns_at(id) == Some(ns@)),
{
    match dom.element_name(id) {
        Some(q) => str_eq(q.ns.as_str(), ns),
        None => false,
    }
}

/// Whether two elements have the same name, namespace and all.
pub fn is_same_type(dom: &Dom, a: NodeId, b: NodeId) -> (r: bool)
    requires
        dom.has(a),
        dom.has(b),
    ensures
        r == (dom.local_at(a) is Some && dom.local_at(a) == dom.local_at(b) && dom.ns_at(a)
            == dom.ns_at(b)),
{
    match (dom.element_name(a), dom.element_name(b)) {
        (Some(x), Some(y)) => str_eq(x.local.as_str(), y.local.as_str()) && str_eq(
            x.ns.as_str(),
            y.ns.as_str(),
        ),
        _ => false,
    }
}

// ---------------------------------------------------------------------------
// Attributes
// ---------------------------------------------------------------------------
/// How an attribute selector compares a value.
#[derive(Clone, Copy, Debug, PartialEq, Eq, Structural)]
pub enum AttrOperator {
    /// `[a=v]`
    Equal,
    /// `[a~=v]`
    Includes,
    /// `[a|=v]`
    DashMatch,
    /// `[a^=v]`
    Prefix,
    /// `[a*=v]`
    Substring,
    /// `[a$=v]`
    Suffix,
}

/// What an attribute selector asks of a value.
pub enum AttrOperation {
    /// That it is there.
    Exists,
    /// That it compares to another.
    WithValue { operator: AttrOperator, ignore_case: bool, value: String },
}

/// A text as it is compared: in lower case where case does not matter, which
/// concerns ASCII letters only.
pub open spec fn folded(s: Seq<char>, ignore_case: bool) -> Seq<char> {
    if ignore_case {
        text::lowered(s)
    } else {
        s
    }
}

/// Whether a value compares to another.
pub open spec fn compares(op: AttrOperator, value: Seq<char>, want: Seq<char>) -> bool {
    match op {
        AttrOperator::Equal => value == want,
        AttrOperator::Includes => scan::words(value).contains(want),
        AttrOperator::DashMatch => value == want || scan::begins_with(value, want.push('-')),
        AttrOperator::Prefix => want.len() > 0 && scan::begins_with(value, want),
        AttrOperator::Substring => want.len() > 0 && scan::has_part(value, want),
        AttrOperator::Suffix => want.len() > 0 && want.len() <= value.len() && value.skip(
            value.len() - want.len(),
        ) == want,
    }
}

/// `selectors::attr::AttrSelectorOperator::eval_str` compares an attribute's
/// value with that of a selector, as CSS selectors have it: for `Includes` one
/// of the words is the value, and an empty value is in nothing.
#[verifier::external_body]
fn eval_operator(op: AttrOperator, value: &str, want: &str, ignore_case: bool) -> (r: bool)
    ensures
        r == compares(op, folded(value@, ignore_case), folded(want@, ignore_case)),
{
    let operator = match op {
        AttrOperator::Equal => selectors::attr::AttrSelectorOperator::Equal,
        AttrOperator::Includes => selectors::attr::AttrSelectorOperator::Includes,
        AttrOperator::DashMatch => selectors::attr::AttrSelectorOperator::DashMatch,
        AttrOperator::Prefix => selectors::attr::AttrSelectorOperator::Prefix,
        AttrOperator::Substring => selectors::attr::AttrSelectorOperator::Substring,
        AttrOperator::Suffix => selectors::attr::AttrSelectorOperator::Suffix,
    };
    let case = match ignore_case {
        true => selectors::attr::CaseSensitivity::AsciiCaseInsensitive,
        false => selectors::attr::CaseSensitivity::CaseSensitive,
    };
    operator.eval_str(value, want, case)
}

/// Whether a value is what a selector asks.
pub open spec fn satisfies(value: Seq<char>, operation: AttrOperation) -> bool {
    match operation {
        AttrOperation::Exists => true,
        AttrOperation::WithValue { operator, ignore_case, value: want } => compares(
            operator,
            folded(value, ignore_case),
            folded(want@, ignore_case),
        ),
    }
}

fn eval_operation(value: &str, operation: &AttrOperation) -> (r: bool)
    ensures
        r == satisfies(value@, *operation),
{
    match operation {
        AttrOperation::Exists => true,
        AttrOperation::WithValue { operator, ignore_case, value: want } => eval_operator(
            *operator,
            value,
            want.as_str(),
            *ignore_case,
        ),
    }
}

/// Whether an attribute selector matches an element: an attribute of the name,
/// in the namespace that is asked for or in any, has a value that is what the
/// selector asks.
pub fn attr_matches(
    dom: &Dom,
    id: NodeId,
    ns: Option<&str>,
    local: &str,
    operation: &AttrOperation,
) -> (r: bool)
    requires
        dom.has(id),
    ensures
        r == (match ns {
            Some(ns) => dom.attr_at(id, ns@, local@) matches Some(v) && satisfies(v, *operation),
            None => exists|i: int|
                0 <= i < dom.attributes_at(id).len() && (#[trigger] dom.attributes_at(
                    id,
                )[i]).local@ == local@ && satisfies(dom.attributes_at(id)[i].value@, *operation),
        }),
{
    match ns {
        Some(ns) => match dom.attribute(id, ns, local) {
            Some(v) => eval_operation(v, operation),
            None => false,
        },
        None => {
            let all = dom.attributes(id);
            let mut i: usize = 0;
            while i < all.len()
                invariant
                    ns is None,
                    all@ == dom.attributes_at(id),
                    i <= all@.len(),
                    forall|j: int|
                        0 <= j < i ==> !((#[trigger] all@[j]).local@ == local@ && satisfies(
                            all@[j].value@,
                            *operation,
                        )),
                decreases all.len() - i,
            {
                if str_eq(all[i].local.as_str(), local) && eval_operation(
                    all[i].value.as_str(),
                    operation,
                ) {
                    assert(dom.attributes_at(id)[i as int].local@ == local@);
                    return true;
                }
                i += 1;
            }
            false
        },
    }
}

/// Whether an element has an `id`.
pub fn has_id(dom: &Dom, id: NodeId, want: &str, ignore_case: bool) -> (r: bool)
    requires
        dom.has(id),
    ensures
        r == (dom.plain_attr(id, "id"@) matches Some(v) && folded(v, ignore_case) == folded(
            want@,
            ignore_case,
        )),
{
    match dom.plain_attribute(id, "id") {
        Some(v) => eval_operator(AttrOperator::Equal, v, want, ignore_case),
        None => false,
    }
}

/// The classes of an element.
pub open spec fn classes(dom: &Dom, id: NodeId) -> Seq<Seq<char>> {
    match dom.plain_attr(id, "class"@) {
        Some(v) => scan::words(v),
        None => Seq::empty(),
    }
}

/// The classes of an element, in their order.
pub fn each_class(dom: &Dom, id: NodeId) -> (r: Vec<Vec<char>>)
    requires
        dom.has(id),
    ensures
        scan::views(r@) == classes(dom, id),
{
    match dom.plain_attribute(id, "class") {
        Some(v) => {
            let chars = chars_of(v);
            split_words(chars.as_slice())
        },
        None => {
            let none: Vec<Vec<char>> = Vec::new();
            assert(scan::views(none@) =~= Seq::<Seq<char>>::empty());
            none
        },
    }
}

/// Whether an element has a class.
pub fn has_class(dom: &Dom, id: NodeId, want: &str, ignore_case: bool) -> (r: bool)
    requires
        dom.has(id),
    ensures
        r == exists|i: int|
            0 <= i < classes(dom, id).len() && folded(
                #[trigger] classes(dom, id)[i],
                ignore_case,
            ) == folded(want@, ignore_case),
{
    let list = each_class(dom, id);
    let chars = chars_of(want);
    let wanted = if ignore_case {
        lower_chars(chars.as_slice())
    } else {
        chars
    };
    let ghost all = classes(dom, id);
    let mut i: usize = 0;
    while i < list.len()
        invariant
            i <= list@.len(),
            scan::views(list@) == all,
            all == classes(dom, id),
            wanted@ == folded(want@, ignore_case),
            forall|j: int|
                0 <= j < i ==> folded(#[trigger] all[j], ignore_case) != folded(want@, ignore_case),
        decreases list.len() - i,
    {
        let same = if ignore_case {
            let low = lower_chars(list[i].as_slice());
            text::chars_eq(low.as_slice(), wanted.as_slice())
        } else {
            text::chars_eq(list[i].as_slice(), wanted.as_slice())
        };
        assert(all[i as int] == list@[i as int]@);
        if same {
            return true;
        }
        i += 1;
    }
    false
}

// ---------------------------------------------------------------------------
// State
// ---------------------------------------------------------------------------
/// The state of an element; none where it has no entry.
pub open spec fn state_of(plane: &StylePlane, id: NodeId) -> u64 {
    if plane.entries@.contains_key(id) {
        plane.entries@[id].state
    } else {
        0
    }
}

/// Whether an element is in a state, such as hovered or focused.
pub fn has_state(plane: &StylePlane, id: NodeId, state: u64) -> (r: bool)
    ensures
        r == (state_of(plane, id) & state == state),
{
    match plane.get(id) {
        Some(e) => e.state & state == state,
        None => {
            assert(0u64 & state == 0) by (bit_vector);
            0 == state
        },
    }
}

/// Whether the traversal has used an element's snapshot. Where there is none,
/// there is nothing to use.
pub fn handled_snapshot(plane: &StylePlane, id: NodeId, has_snapshot: bool) -> (r: bool)
    ensures
        r == (has_snapshot ==> plane.entries@.contains_key(id)
            && plane.entries@[id].handled_snapshot),
{
    if !has_snapshot {
        return true;
    }
    match plane.get(id) {
        Some(e) => e.handled_snapshot,
        None => false,
    }
}

// ---------------------------------------------------------------------------
// Selector flags
// ---------------------------------------------------------------------------
/// The flags that concern the element that they were found at.
pub const SELF_FLAGS: u32 = 0x3E0;

/// The flags that concern the parent of the element that they were found at.
pub const PARENT_FLAGS: u32 = 0x1F;

/// A relative selector came by in the direction of siblings.
pub const SEARCH_SIBLING: u32 = 0x100;

/// A relative selector came by in the direction of ancestors.
pub const SEARCH_ANCESTOR: u32 = 0x200;

/// A relative selector came by in both directions.
pub const SEARCH_ANCESTOR_SIBLING: u32 = 0x300;

/// The flags of an element; none where it has no entry.
pub open spec fn flags_of(plane: &StylePlane, id: NodeId) -> u32 {
    if plane.entries@.contains_key(id) {
        plane.entries@[id].selector_flags
    } else {
        0
    }
}

fn add_flags(plane: &mut StylePlane, id: NodeId, flags: u32)
    ensures
        final(plane).entries@ == (if old(plane).entries@.contains_key(id) {
            old(plane).entries@.insert(
                id,
                StyleEntry {
                    selector_flags: old(plane).entries@[id].selector_flags | flags,
                    ..old(plane).entries@[id]
                },
            )
        } else {
            old(plane).entries@
        }),
        final(plane).contain_intrinsic == old(plane).contain_intrinsic,
        final(plane).marker_styles == old(plane).marker_styles,
{
    let ghost before = plane.entries@;
    match plane.entries.remove(id) {
        Some(e) => {
            let mut e = e;
            e.selector_flags = e.selector_flags | flags;
            plane.entries.insert(id, e);
            assert(plane.entries@ =~= before.insert(id, e));
        },
        None => {
            assert(plane.entries@ =~= before);
        },
    }
}

/// An entry with more flags.
pub open spec fn with_flags(e: StyleEntry, flags: u32) -> StyleEntry {
    StyleEntry { selector_flags: e.selector_flags | flags, ..e }
}

/// Notes what matching found at an element: on the element, and on its parent.
/// An element without an entry notes nothing.
pub fn apply_selector_flags(dom: &Dom, plane: &mut StylePlane, id: NodeId, flags: u32)
    requires
        dom.wf(),
        dom.has(id),
    ensures
        final(plane).entries@.dom() == old(plane).entries@.dom(),
        forall|k: NodeId|
            old(plane).entries@.contains_key(k) ==> #[trigger] final(plane).entries@[k] == {
                let e = old(plane).entries@[k];
                if !old(plane).entries@.contains_key(id) {
                    e
                } else if k == id {
                    with_flags(e, flags & SELF_FLAGS)
                } else if dom.parent_at(id) == Some(k) {
                    with_flags(e, flags & PARENT_FLAGS)
                } else {
                    e
                }
            },
        final(plane).contain_intrinsic == old(plane).contain_intrinsic,
        final(plane).marker_styles == old(plane).marker_styles,
{
    if plane.get(id).is_none() {
        return ;
    }
    add_flags(plane, id, flags & SELF_FLAGS);
    if let Some(p) = dom.parent(id) {
        assert(p != id) by {
            assert(dom.depth_at(id) == dom.depth_at(p) + 1);
        }
        add_flags(plane, p, flags & PARENT_FLAGS);
    }
    assert(plane.entries@.dom() =~= old(plane).entries@.dom());
}

/// Whether an element has some flags, all of them.
pub fn has_selector_flags(plane: &StylePlane, id: NodeId, flags: u32) -> (r: bool)
    ensures
        r == (plane.entries@.contains_key(id) && flags_of(plane, id) & flags == flags),
{
    match plane.get(id) {
        Some(e) => e.selector_flags & flags == flags,
        None => false,
    }
}

/// The directions in which relative selectors came by an element.
pub open spec fn search_direction(flags: u32) -> u32 {
    if flags & SEARCH_ANCESTOR_SIBLING == SEARCH_ANCESTOR_SIBLING {
        SEARCH_ANCESTOR_SIBLING
    } else if flags & SEARCH_ANCESTOR == SEARCH_ANCESTOR {
        SEARCH_ANCESTOR
    } else if flags & SEARCH_SIBLING == SEARCH_SIBLING {
        SEARCH_SIBLING
    } else {
        0
    }
}

/// The directions in which relative selectors came by an element; none where it
/// has no entry.
pub fn relative_selector_search_direction(plane: &StylePlane, id: NodeId) -> (r: u32)
    ensures
        r == (if plane.entries@.contains_key(id) {
            search_direction(plane.entries@[id].selector_flags)
        } else {
            0
        }),
{
    match plane.get(id) {
        Some(e) => {
            let f: u32 = e.selector_flags;
            if f & SEARCH_ANCESTOR_SIBLING == SEARCH_ANCESTOR_SIBLING {
                SEARCH_ANCESTOR_SIBLING
            } else if f & SEARCH_ANCESTOR == SEARCH_ANCESTOR {
                SEARCH_ANCESTOR
            } else if f & SEARCH_SIBLING == SEARCH_SIBLING {
                SEARCH_SIBLING
            } else {
                0
            }
        },
        None => 0,
    }
}

/// The noted directions are exactly the search bits of the flags.
pub proof fn search_direction_is_the_search_bits(flags: u32)
    ensures
        search_direction(flags) == flags & SEARCH_ANCESTOR_SIBLING,
{
    assert(search_direction(flags) == flags & SEARCH_ANCESTOR_SIBLING) by (bit_vector);
}

// ---------------------------------------------------------------------------
// Laws
// ---------------------------------------------------------------------------
/// The element before a place among some children is the nearest one before it, and the
/// element from a place on the nearest one from it; there is none where no child on
/// that side is an element.
pub proof fn a_neighbour_is_the_nearest_element(dom: &Dom, children: Seq<NodeId>, i: nat)
    requires
        i <= children.len(),
    ensures
        match prev_element(dom, children, i) {
            Some(e) => exists|j: int|
                0 <= j < i && #[trigger] children[j] == e && dom.kind_at(e) == NodeKind::Element
                    && forall|k: int|
                    j < k < i ==> dom.kind_at(#[trigger] children[k]) != NodeKind::Element,
            None => forall|k: int|
                0 <= k < i ==> dom.kind_at(#[trigger] children[k]) != NodeKind::Element,
        },
        match element_from(dom, children, i) {
            Some(e) => exists|j: int|
                i <= j < children.len() && #[trigger] children[j] == e && dom.kind_at(e)
                    == NodeKind::Element && forall|k: int|
                    i <= k < j ==> dom.kind_at(#[trigger] children[k]) != NodeKind::Element,
            None => forall|k: int|
                i <= k < children.len() ==> dom.kind_at(#[trigger] children[k])
                    != NodeKind::Element,
        },
{
    lemma_prev_element(dom, children, i);
    lemma_element_from(dom, children, i);
}

proof fn lemma_prev_element(dom: &Dom, children: Seq<NodeId>, i: nat)
    requires
        i <= children.len(),
    ensures
        match prev_element(dom, children, i) {
            Some(e) => exists|j: int|
                0 <= j < i && #[trigger] children[j] == e && dom.kind_at(e) == NodeKind::Element
                    && forall|k: int|
                    j < k < i ==> dom.kind_at(#[trigger] children[k]) != NodeKind::Element,
            None => forall|k: int|
                0 <= k < i ==> dom.kind_at(#[trigger] children[k]) != NodeKind::Element,
        },
    decreases i,
{
    if i > 0 {
        if dom.kind_at(children[i - 1]) == NodeKind::Element {
            assert(children[i - 1] == children[i - 1]);
        } else {
            lemma_prev_element(dom, children, (i - 1) as nat);
        }
    }
}

proof fn lemma_element_from(dom: &Dom, children: Seq<NodeId>, i: nat)
    requires
        i <= children.len(),
    ensures
        match element_from(dom, children, i) {
            Some(e) => exists|j: int|
                i <= j < children.len() && #[trigger] children[j] == e && dom.kind_at(e)
                    == NodeKind::Element && forall|k: int|
                    i <= k < j ==> dom.kind_at(#[trigger] children[k]) != NodeKind::Element,
            None => forall|k: int|
                i <= k < children.len() ==> dom.kind_at(#[trigger] children[k])
                    != NodeKind::Element,
        },
    decreases children.len() - i,
{
    if i < children.len() {
        if dom.kind_at(children[i as int]) == NodeKind::Element {
            assert(children[i as int] == children[i as int]);
        } else {
            lemma_element_from(dom, children, i + 1);
        }
    }
}

/// The classes of an element are the words of its `class` attribute, and it has none
/// without one.
pub proof fn classes_are_the_words_of_the_attribute(dom: &Dom, id: NodeId, class: Seq<char>)
    ensures
        classes(dom, id).contains(class) <==> (dom.plain_attr(id, "class"@) matches Some(v)
            && scan::holds_word(v, class)),
{
    if let Some(v) = dom.plain_attr(id, "class"@) {
        scan::words_stand_between_white_space(v);
        let all = scan::words(v);
        if all.contains(class) {
            let w = all.index_of(class);
            assert(scan::holds_word(v, all[w]));
        }
        if scan::holds_word(v, class) {
            let (i, j) = choose|i: int, j: int| #[trigger]
                scan::is_word_at(v, i, j) && v.subrange(i, j) == class;
            assert(scan::is_word_at(v, i, j));
        }
    }
}

/// The children that a node is one of are those of its parent, and its place among
/// them is where it stands.
pub proof fn siblings_are_the_children_of_the_parent(dom: &Dom, id: NodeId)
    requires
        dom.wf(),
        dom.has(id),
    ensures
        siblings(dom, id) is None ==> (dom.parent_at(id) matches Some(p) ==> !dom.children_at(
            p,
        ).contains(id)),
        siblings(dom, id) matches Some((children, i)) ==> {
            &&& dom.parent_at(id) matches Some(p) && children == dom.children_at(p)
            &&& i < children.len() && children[i as int] == id
        },
{
    if let Some(p) = dom.parent_at(id) {
        scan::lemma_first_index_fits(dom.children_at(p), id);
    }
}

/// A selector that asks for a value compares it as its operator says, capital
/// letters taken as small ones where case does not matter; one that asks for the
/// attribute alone is met by any value.
pub proof fn a_value_is_compared_as_the_operator_says(
    value: Seq<char>,
    operator: AttrOperator,
    ignore_case: bool,
    want: String,
)
    ensures
        satisfies(value, AttrOperation::Exists),
        ({
            let v = if ignore_case {
                text::lowered(value)
            } else {
                value
            };
            let w = if ignore_case {
                text::lowered(want@)
            } else {
                want@
            };
            let met = satisfies(
                value,
                AttrOperation::WithValue { operator, ignore_case, value: want },
            );
            match operator {
                AttrOperator::Equal => met <==> v == w,
                AttrOperator::Includes => met <==> scan::words(v).contains(w),
                AttrOperator::DashMatch => met <==> v == w || (v.len() > w.len() && v[w.len() as int]
                    == '-' && v.take(w.len() as int) == w),
                AttrOperator::Prefix => met <==> w.len() > 0 && w.len() <= v.len() && v.take(
                    w.len() as int,
                ) == w,
                AttrOperator::Suffix => met <==> w.len() > 0 && w.len() <= v.len() && v.skip(
                    v.len() - w.len(),
                ) == w,
                AttrOperator::Substring => met <==> w.len() > 0 && scan::has_part(v, w),
            }
        }),
{
    let v = folded(value, ignore_case);
    let w = folded(want@, ignore_case);
    if v.len() > w.len() && v[w.len() as int] == '-' && v.take(w.len() as int) == w {
        assert(v.take((w.len() + 1) as int) =~= w.push('-'));
    }
    if scan::begins_with(v, w.push('-')) {
        assert(v.take((w.len() + 1) as int) == w.push('-'));
        assert(v.take(w.len() as int) =~= w.push('-').take(w.len() as int));
        assert(w.push('-').take(w.len() as int) =~= w);
        assert(v.take((w.len() + 1) as int)[w.len() as int] == '-');
    }
}

} // verus!
