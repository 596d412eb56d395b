//! The cascade over a document: what is marked before a traversal, what is
//! handed to it, and what came of it.
//!
//! The traversal itself, which matches selectors and computes values, is the
//! host's: the functions here take it as a closure.
use vstd::prelude::*;
use crate::contain_intrinsic;
use crate::contain_intrinsic::populate_contain_intrinsic_overrides;
use crate::dom::{Dom, NodeId, NodeKind};
use crate::invalidate::DomMutation;
use crate::node_map::NodeMap;
use crate::style_plane::{ComputedStyle, StyleEntry, StylePlane};
use crate::style_plane;
use crate::text;
use crate::text::{chars_of, str_eq, trim};

verus! {

/// The state of an element that the pointer presses.
pub const ACTIVE: u64 = 0x1;

/// The state of the element that has the focus.
pub const FOCUS: u64 = 0x2;

/// The state of an element under the pointer.
pub const HOVER: u64 = 0x4;

/// The state of an element that is checked.
pub const CHECKED: u64 = 0x20;

/// The state of the element that has the focus and of its ancestors.
pub const FOCUS_WITHIN: u64 = 0x8000_0000;

/// Every state that the host's interaction decides.
pub const INTERACTION: u64 = 0x8000_0007;

/// The hint to match and cascade an element again.
pub const RESTYLE_SELF: u32 = 0x1;

/// The hint to match and cascade an element and its descendants again.
pub const RESTYLE_SUBTREE: u32 = 0x9;

/// The hint to replace the declarations of an element's `style` attribute.
pub const RESTYLE_STYLE_ATTRIBUTE: u32 = 0x200;

/// The damage after which layout must run again. Every lesser damage is part
/// of it.
pub const RELAYOUT: u32 = 0xF;

// ---------------------------------------------------------------------------
// Damage
// ---------------------------------------------------------------------------
/// What a restyle came to.
#[derive(Clone, Copy, Debug, PartialEq, Eq, Structural)]
pub struct RestyleOutcome {
    /// Whether layout must run again; else the fragments still hold.
    pub needs_relayout: bool,
    /// The union of the damage of every element.
    pub damage: u32,
    /// How many elements were restyled.
    pub restyled_elements: usize,
}

impl Default for RestyleOutcome {
    /// A restyle that changed nothing.
    fn default() -> (r: RestyleOutcome)
        ensures
            r == (RestyleOutcome { needs_relayout: false, damage: 0, restyled_elements: 0 }),
    {
        RestyleOutcome { needs_relayout: false, damage: 0, restyled_elements: 0 }
    }
}

/// Whether `x` has no bit of `mask`.
pub open spec fn misses(x: u32, mask: u32) -> bool {
    x & mask == 0
}

/// Whether `damage` is the union of the damage of some entries: it misses the
/// masks that every one of them misses.
pub open spec fn is_damage_of(damage: u32, entries: Map<NodeId, StyleEntry>) -> bool {
    forall|mask: u32| #[trigger]
        misses(damage, mask) <==> forall|k: NodeId|
            entries.contains_key(k) ==> misses((#[trigger] entries[k]).damage, mask)
}

/// The entries that a traversal damaged.
pub open spec fn damaged(entries: Map<NodeId, StyleEntry>) -> Set<NodeId> {
    entries.dom().filter(|k: NodeId| entries[k].damage != 0)
}

/// An entry without damage.
pub open spec fn undamaged(e: StyleEntry) -> StyleEntry {
    StyleEntry { damage: 0, ..e }
}

/// Whether `after` is `before` without damage.
pub open spec fn damage_reset(
    before: Map<NodeId, StyleEntry>,
    after: Map<NodeId, StyleEntry>,
) -> bool {
    &&& after.dom() == before.dom()
    &&& forall|k: NodeId|
        before.contains_key(k) ==> #[trigger] after[k] == undamaged(before[k])
}

/// Takes the damage of the last traversal out of every entry.
pub fn reset_damage(plane: &mut StylePlane)
    ensures
        damage_reset(old(plane).entries@, final(plane).entries@),
        final(plane).contain_intrinsic == old(plane).contain_intrinsic,
        final(plane).marker_styles == old(plane).marker_styles,
{
    let keys = plane.entries.keys();
    let ghost before = plane.entries@;
    let mut i: usize = 0;
    while i < keys.len()
        invariant
            i <= keys@.len(),
            keys@.no_duplicates(),
            forall|k: NodeId| #[trigger] keys@.contains(k) <==> before.contains_key(k),
            plane.contain_intrinsic == old(plane).contain_intrinsic,
            plane.marker_styles == old(plane).marker_styles,
            plane.entries@.dom() == before.dom(),
            forall|j: int| 0 <= j < i ==> plane.entries@[#[trigger] keys@[j]] == undamaged(
                before[keys@[j]],
            ),
            forall|j: int| i <= j < keys@.len() ==> plane.entries@[#[trigger] keys@[j]]
                == before[keys@[j]],
        decreases keys.len() - i,
    {
        let id = keys[i];
        assert(keys@.contains(keys@[i as int]));
        let ghost now = plane.entries@;
        if let Some(e) = plane.entries.remove(id) {
            let mut e = e;
            e.damage = 0;
            plane.entries.insert(id, e);
            assert(plane.entries@ =~= now.insert(id, undamaged(before[id])));
        }
        assert(plane.entries@.dom() =~= before.dom());
        i += 1;
    }
    assert forall|k: NodeId| before.contains_key(k) implies #[trigger] plane.entries@[k]
        == undamaged(before[k]) by {
        assert(keys@.contains(k));
        let j = keys@.index_of(k);
        assert(keys@[j] == k);
    }
}

proof fn lemma_or_misses(x: u32, y: u32, mask: u32)
    ensures
        misses(x | y, mask) <==> misses(x, mask) && misses(y, mask),
{
    assert((x | y) & mask == 0 <==> x & mask == 0 && y & mask == 0) by (bit_vector);
}

/// The union of the damage of every entry.
pub fn aggregate_damage(plane: &StylePlane) -> (r: u32)
    ensures
        is_damage_of(r, plane.entries@),
{
    let keys = plane.entries.keys();
    let ghost m = plane.entries@;
    let mut all: u32 = 0;
    let mut i: usize = 0;
    assert forall|mask: u32| #[trigger] misses(0, mask) by {
        assert(0u32 & mask == 0) by (bit_vector);
    }
    while i < keys.len()
        invariant
            m == plane.entries@,
            i <= keys@.len(),
            forall|k: NodeId| #[trigger] keys@.contains(k) <==> m.contains_key(k),
            forall|mask: u32| #[trigger]
                misses(all, mask) <==> forall|j: int|
                    0 <= j < i ==> misses(m[#[trigger] keys@[j]].damage, mask),
        decreases keys.len() - i,
    {
        let id = keys[i];
        assert(keys@.contains(keys@[i as int]));
        let ghost before = all;
        match plane.entries.get(id) {
            Some(e) => {
                let d: u32 = e.damage;
                all = all | d;
                assert forall|mask: u32| #[trigger]
                    misses(all, mask) <==> forall|j: int|
                        0 <= j < i + 1 ==> misses(m[#[trigger] keys@[j]].damage, mask) by {
                    lemma_or_misses(before, d, mask);
                    assert(misses(before, mask) <==> forall|j: int|
                        0 <= j < i ==> misses(m[#[trigger] keys@[j]].damage, mask));
                    assert(m[keys@[i as int]].damage == d);
                }
            },
            None => {},
        }
        i += 1;
    }
    assert forall|mask: u32| #[trigger]
        misses(all, mask) <==> forall|k: NodeId|
            m.contains_key(k) ==> misses((#[trigger] m[k]).damage, mask) by {
        if misses(all, mask) {
            assert forall|k: NodeId| m.contains_key(k) implies misses(
                (#[trigger] m[k]).damage,
                mask,
            ) by {
                assert(keys@.contains(k));
                let j = keys@.index_of(k);
                assert(keys@[j] == k);
            }
        }
        if forall|k: NodeId| m.contains_key(k) ==> misses((#[trigger] m[k]).damage, mask) {
            assert forall|j: int| 0 <= j < keys@.len() implies misses(
                m[#[trigger] keys@[j]].damage,
                mask,
            ) by {
                assert(keys@.contains(keys@[j]));
            }
        }
    }
    all
}

/// How many entries the last traversal damaged.
pub fn damaged_entry_count(plane: &StylePlane) -> (r: usize)
    ensures
        damaged(plane.entries@).finite(),
        r == damaged(plane.entries@).len(),
{
    let keys = plane.entries.keys();
    let ghost m = plane.entries@;
    let ghost mut hit = Set::<NodeId>::empty();
    let mut count: usize = 0;
    let mut i: usize = 0;
    while i < keys.len()
        invariant
            m == plane.entries@,
            i <= keys@.len(),
            keys@.no_duplicates(),
            forall|k: NodeId| #[trigger] keys@.contains(k) <==> m.contains_key(k),
            hit.finite(),
            count == hit.len(),
            count <= i,
            forall|k: NodeId| #[trigger]
                hit.contains(k) <==> exists|j: int|
                    0 <= j < i && #[trigger] keys@[j] == k && m[k].damage != 0,
        decreases keys.len() - i,
    {
        let id = keys[i];
        assert(keys@.contains(keys@[i as int]));
        match plane.entries.get(id) {
            Some(e) => {
                if e.damage != 0 {
                    assert(!hit.contains(id));
                    proof {
                        hit = hit.insert(id);
                    }
                    count += 1;
                }
            },
            None => {},
        }
        i += 1;
    }
    assert(hit =~= damaged(m)) by {
        assert forall|k: NodeId| damaged(m).contains(k) implies hit.contains(k) by {
            assert(keys@.contains(k));
            let j = keys@.index_of(k);
            assert(keys@[j] == k);
        }
        assert forall|k: NodeId| hit.contains(k) implies damaged(m).contains(k) by {
            let j = choose|j: int|
                0 <= j < keys@.len() && #[trigger] keys@[j] == k && m[k].damage != 0;
            assert(keys@.contains(keys@[j]));
        }
    }
    count
}

/// Whether an outcome says what a traversal did to some entries.
pub open spec fn is_outcome(
    r: RestyleOutcome,
    entries: Map<NodeId, StyleEntry>,
    restyled: int,
) -> bool {
    &&& is_damage_of(r.damage, entries)
    &&& r.needs_relayout == (r.damage & RELAYOUT == RELAYOUT)
    &&& r.restyled_elements == restyled
}

fn outcome_of(plane: &StylePlane, restyled_elements: usize) -> (r: RestyleOutcome)
    ensures
        is_outcome(r, plane.entries@, restyled_elements as int),
{
    let damage: u32 = aggregate_damage(plane);
    RestyleOutcome { needs_relayout: damage & RELAYOUT == RELAYOUT, damage, restyled_elements }
}

/// What comes of a restyle rests on the damage alone: the union of the damage
/// of the same entries is one value.
pub proof fn damage_is_one_value(a: u32, b: u32, entries: Map<NodeId, StyleEntry>)
    requires
        is_damage_of(a, entries),
        is_damage_of(b, entries),
    ensures
        a == b,
{
    assert(a & !a == 0 && b & !b == 0) by (bit_vector);
    assert(misses(a, !a) && misses(b, !b));
    assert(misses(b, !a) && misses(a, !b));
    assert(b & !a == 0 && a & !b == 0 ==> a == b) by (bit_vector);
}

// ---------------------------------------------------------------------------
// Marking
// ---------------------------------------------------------------------------
/// Whether `a` is an ancestor of `id`, and not `id` itself.
pub open spec fn is_above(dom: &Dom, a: NodeId, id: NodeId) -> bool {
    dom.parent_at(id) matches Some(p) && dom.chain(p).contains(a)
}

/// Whether `a` is an ancestor of one of some nodes.
pub open spec fn is_above_any(dom: &Dom, a: NodeId, nodes: Seq<NodeId>) -> bool {
    exists|i: int| 0 <= i < nodes.len() && is_above(dom, a, #[trigger] nodes[i])
}

/// An entry as it is marked: its snapshot is to be used again, a hint is added
/// where a cascade has filled it, the traversal must visit its descendants.
pub open spec fn mark_of(
    e: StyleEntry,
    unhandled: bool,
    hinted: bool,
    bits: u32,
    dirty: bool,
) -> StyleEntry {
    StyleEntry {
        handled_snapshot: e.handled_snapshot && !unhandled,
        hint: if hinted && e.primary is Some {
            e.hint | bits
        } else {
            e.hint
        },
        dirty_descendants: e.dirty_descendants || dirty,
        ..e
    }
}

/// Whether `after` is `before` with some nodes marked: the snapshots of
/// `unhandled` are to be used again, `hinted` have the hint `bits`, and the
/// traversal comes down to `below`.
pub open spec fn marked(
    dom: &Dom,
    before: Map<NodeId, StyleEntry>,
    after: Map<NodeId, StyleEntry>,
    unhandled: Seq<NodeId>,
    hinted: Seq<NodeId>,
    bits: u32,
    below: Seq<NodeId>,
) -> bool {
    &&& after.dom() == before.dom()
    &&& forall|k: NodeId|
        before.contains_key(k) ==> #[trigger] after[k] == mark_of(
            before[k],
            unhandled.contains(k),
            hinted.contains(k),
            bits,
            is_above_any(dom, k, below),
        )
}

/// The traversal comes down to what was marked: every ancestor of it that has an
/// entry tells the traversal to visit its descendants. And a mark takes nothing
/// back that was marked before.
pub proof fn marks_lead_down_to_what_changed(
    dom: &Dom,
    before: Map<NodeId, StyleEntry>,
    after: Map<NodeId, StyleEntry>,
    unhandled: Seq<NodeId>,
    hinted: Seq<NodeId>,
    bits: u32,
    below: Seq<NodeId>,
    target: NodeId,
    above: NodeId,
)
    requires
        marked(dom, before, after, unhandled, hinted, bits, below),
        below.contains(target),
        is_above(dom, above, target),
        before.contains_key(above),
    ensures
        after[above].dirty_descendants,
        forall|k: NodeId|
            before.contains_key(k) && before[k].dirty_descendants ==> (
            #[trigger] after[k]).dirty_descendants,
{
    let i = below.index_of(target);
    assert(is_above(dom, above, below[i]));
}

proof fn lemma_marked_nothing(dom: &Dom, m: Map<NodeId, StyleEntry>, bits: u32)
    ensures
        marked(dom, m, m, Seq::empty(), Seq::empty(), bits, Seq::empty()),
{
}

proof fn lemma_contains_add(a: Seq<NodeId>, b: Seq<NodeId>, k: NodeId)
    ensures
        (a + b).contains(k) <==> a.contains(k) || b.contains(k),
{
    let s = a + b;
    if a.contains(k) {
        let i = a.index_of(k);
        assert(s[i] == k);
    }
    if b.contains(k) {
        let i = b.index_of(k);
        assert(s[a.len() + i] == k);
    }
    if s.contains(k) {
        let i = s.index_of(k);
        if i < a.len() {
            assert(a[i] == k);
        } else {
            assert(b[i - a.len()] == k);
        }
    }
}

proof fn lemma_above_add(dom: &Dom, k: NodeId, a: Seq<NodeId>, b: Seq<NodeId>)
    ensures
        is_above_any(dom, k, a + b) <==> is_above_any(dom, k, a) || is_above_any(dom, k, b),
{
    let s = a + b;
    if is_above_any(dom, k, a) {
        let i = choose|i: int| 0 <= i < a.len() && is_above(dom, k, #[trigger] a[i]);
        assert(s[i] == a[i]);
    }
    if is_above_any(dom, k, b) {
        let i = choose|i: int| 0 <= i < b.len() && is_above(dom, k, #[trigger] b[i]);
        assert(s[a.len() + i] == b[i]);
    }
    if is_above_any(dom, k, s) {
        let i = choose|i: int| 0 <= i < s.len() && is_above(dom, k, #[trigger] s[i]);
        if i < a.len() {
            assert(a[i] == s[i]);
        } else {
            assert(b[i - a.len()] == s[i]);
        }
    }
}

proof fn lemma_marked_again(
    dom: &Dom,
    m0: Map<NodeId, StyleEntry>,
    m1: Map<NodeId, StyleEntry>,
    m2: Map<NodeId, StyleEntry>,
    u1: Seq<NodeId>,
    h1: Seq<NodeId>,
    b1: Seq<NodeId>,
    u2: Seq<NodeId>,
    h2: Seq<NodeId>,
    b2: Seq<NodeId>,
    bits: u32,
)
    requires
        marked(dom, m0, m1, u1, h1, bits, b1),
        marked(dom, m1, m2, u2, h2, bits, b2),
    ensures
        marked(dom, m0, m2, u1 + u2, h1 + h2, bits, b1 + b2),
{
    assert forall|k: NodeId| m0.contains_key(k) implies #[trigger] m2[k] == mark_of(
        m0[k],
        (u1 + u2).contains(k),
        (h1 + h2).contains(k),
        bits,
        is_above_any(dom, k, b1 + b2),
    ) by {
        lemma_contains_add(u1, u2, k);
        lemma_contains_add(h1, h2, k);
        lemma_above_add(dom, k, b1, b2);
        assert(m1.contains_key(k));
        assert(m1[k] == m1[k]);
        let h = m0[k].hint;
        assert((h | bits) | bits == h | bits) by (bit_vector);
    }
}

/// Marks one entry, where it is there.
fn mark_entry(plane: &mut StylePlane, id: NodeId, unhandle: bool, hint: bool, bits: u32)
    ensures
        final(plane).entries@ == (if old(plane).entries@.contains_key(id) {
            old(plane).entries@.insert(
                id,
                mark_of(old(plane).entries@[id], unhandle, hint, bits, false),
            )
        } else {
            old(plane).entries@
        }),
        final(plane).contain_intrinsic == old(plane).contain_intrinsic,
        final(plane).marker_styles == old(plane).marker_styles,
{
    let ghost before = plane.entries@;
    match plane.entries.remove(id) {
        Some(e) => {
            let mut e = e;
            if unhandle {
                e.handled_snapshot = false;
            }
            if hint && e.primary.is_some() {
                e.hint = e.hint | bits;
            }
            plane.entries.insert(id, e);
            assert(plane.entries@ =~= before.insert(
                id,
                mark_of(before[id], unhandle, hint, bits, false),
            ));
        },
        None => {
            assert(plane.entries@ =~= before);
        },
    }
}

/// Makes the traversal come down to a node: marks its ancestors.
fn mark_path(dom: &Dom, plane: &mut StylePlane, id: NodeId, Ghost(bits): Ghost<u32>)
    requires
        dom.wf(),
        dom.has(id),
    ensures
        marked(
            dom,
            old(plane).entries@,
            final(plane).entries@,
            Seq::empty(),
            Seq::empty(),
            bits,
            seq![id],
        ),
        final(plane).contain_intrinsic == old(plane).contain_intrinsic,
        final(plane).marker_styles == old(plane).marker_styles,
{
    let ghost before = plane.entries@;
    let ghost none = Seq::<NodeId>::empty();
    match dom.parent(id) {
        Some(p) => {
            let path = dom.ancestors(p);
            let mut i: usize = 0;
            while i < path.len()
                invariant
                    i <= path@.len(),
                    plane.contain_intrinsic == old(plane).contain_intrinsic,
                    plane.marker_styles == old(plane).marker_styles,
                    plane.entries@.dom() == before.dom(),
                    forall|k: NodeId|
                        before.contains_key(k) ==> #[trigger] plane.entries@[k] == mark_of(
                            before[k],
                            false,
                            false,
                            bits,
                            path@.take(i as int).contains(k),
                        ),
                decreases path.len() - i,
            {
                let a = path[i];
                let ghost now = plane.entries@;
                match plane.entries.remove(a) {
                    Some(e) => {
                        let mut e = e;
                        e.dirty_descendants = true;
                        plane.entries.insert(a, e);
                        assert(plane.entries@ =~= now.insert(
                            a,
                            StyleEntry { dirty_descendants: true, ..now[a] },
                        ));
                    },
                    None => {
                        assert(plane.entries@ =~= now);
                    },
                }
                assert(plane.entries@.dom() =~= before.dom());
                assert(path@.take(i + 1) =~= path@.take(i as int) + seq![a]);
                assert forall|k: NodeId| before.contains_key(k) implies #[trigger] plane.entries@[k]
                    == mark_of(before[k], false, false, bits, path@.take(i + 1).contains(k)) by {
                    lemma_contains_add(path@.take(i as int), seq![a], k);
                    assert(seq![a].contains(k) <==> k == a) by {
                        assert(seq![a][0] == a);
                    }
                    assert(now[k] == now[k]);
                }
                i += 1;
            }
            assert(path@.take(i as int) =~= path@);
            assert forall|k: NodeId| before.contains_key(k) implies #[trigger] plane.entries@[k]
                == mark_of(
                before[k],
                none.contains(k),
                none.contains(k),
                bits,
                is_above_any(dom, k, seq![id]),
            ) by {
                assert(is_above(dom, k, seq![id][0]) <==> path@.contains(k));
            }
        },
        None => {},
    }
}

/// Marks one node: its entry, and the path down to it.
fn mark_node(dom: &Dom, plane: &mut StylePlane, id: NodeId, unhandle: bool, hint: bool, bits: u32)
    requires
        dom.wf(),
        dom.has(id),
    ensures
        marked(
            dom,
            old(plane).entries@,
            final(plane).entries@,
            one_if(unhandle, id),
            one_if(hint, id),
            bits,
            seq![id],
        ),
        final(plane).contain_intrinsic == old(plane).contain_intrinsic,
        final(plane).marker_styles == old(plane).marker_styles,
{
    let ghost m0 = plane.entries@;
    mark_entry(plane, id, unhandle, hint, bits);
    let ghost m1 = plane.entries@;
    mark_path(dom, plane, id, Ghost(bits));
    proof {
        let none = Seq::<NodeId>::empty();
        let u = one_if(unhandle, id);
        let h = one_if(hint, id);
        assert(m1.dom() =~= m0.dom());
        assert forall|k: NodeId| m0.contains_key(k) implies #[trigger] m1[k] == mark_of(
            m0[k],
            u.contains(k),
            h.contains(k),
            bits,
            is_above_any(dom, k, none),
        ) by {
            assert(seq![id].contains(k) <==> k == id) by {
                assert(seq![id][0] == id);
            }
        }
        lemma_marked_again(dom, m0, m1, plane.entries@, u, h, none, none, none, seq![id], bits);
        assert(u + none =~= u);
        assert(h + none =~= h);
        assert(none + seq![id] =~= seq![id]);
    }
}

/// One node or none.
pub open spec fn one_if(b: bool, id: NodeId) -> Seq<NodeId> {
    if b {
        seq![id]
    } else {
        Seq::empty()
    }
}

// ---------------------------------------------------------------------------
// Interaction
// ---------------------------------------------------------------------------
/// What the host's pointer and keyboard point at, by the nodes' opaque ids.
#[derive(Clone, Copy, Debug, PartialEq, Eq, Structural)]
pub struct InteractionState {
    pub hovered: Option<u64>,
    pub active: Option<u64>,
    pub focused: Option<u64>,
}

/// The node of a document with an opaque id.
pub open spec fn source_node(dom: &Dom, source: u64) -> Option<NodeId> {
    if source <= usize::MAX && dom.stack_order(dom.root()).contains(source as usize) {
        Some(source as usize)
    } else {
        None
    }
}

/// The node of a document with an opaque id that may be missing.
pub open spec fn target_node(dom: &Dom, source: Option<u64>) -> Option<NodeId> {
    match source {
        Some(s) => source_node(dom, s),
        None => None,
    }
}

/// Whether `k` is a node that may be missing, or one of its ancestors.
pub open spec fn on_chain(dom: &Dom, target: Option<NodeId>, k: NodeId) -> bool {
    target matches Some(n) && dom.chain(n).contains(k)
}

/// `bits`, or none.
pub open spec fn bits_if(b: bool, bits: u64) -> u64 {
    if b {
        bits
    } else {
        0
    }
}

/// The interaction state of a node: hover and active reach from their node up
/// to the root, focus stays with its node, and focus within reaches up from it.
pub open spec fn desired_bits(dom: &Dom, state: InteractionState, k: NodeId) -> u64 {
    let focused = target_node(dom, state.focused);
    bits_if(on_chain(dom, target_node(dom, state.hovered), k), HOVER) | bits_if(
        on_chain(dom, target_node(dom, state.active), k),
        ACTIVE,
    ) | bits_if(focused == Some(k), FOCUS) | bits_if(on_chain(dom, focused, k), FOCUS_WITHIN)
}

/// Whether the interaction reaches a node.
pub open spec fn is_reached(dom: &Dom, state: InteractionState, k: NodeId) -> bool {
    ||| on_chain(dom, target_node(dom, state.hovered), k)
    ||| on_chain(dom, target_node(dom, state.active), k)
    ||| on_chain(dom, target_node(dom, state.focused), k)
}

/// The bits that a map holds for a node, none where it holds nothing.
pub open spec fn bits_at(m: Map<NodeId, u64>, k: NodeId) -> u64 {
    if m.contains_key(k) {
        m[k]
    } else {
        0
    }
}

/// The node of a document with an opaque id.
pub fn resolve_source(dom: &Dom, source: u64) -> (r: Option<NodeId>)
    requires
        dom.wf(),
    ensures
        r == source_node(dom, source),
        r matches Some(n) ==> dom.has(n),
{
    let walk = dom.walk_with_stack(dom.document());
    proof {
        dom.lemma_stack_order_visits(dom.root());
    }
    let mut i: usize = 0;
    while i < walk.len()
        invariant
            walk@ == dom.stack_order(dom.root()),
            forall|x: NodeId| #[trigger]
                dom.stack_order(dom.root()).contains(x) ==> dom.is_within(x, dom.root()),
            i <= walk@.len(),
            forall|j: int| 0 <= j < i ==> #[trigger] walk@[j] as u64 != source,
        decreases walk.len() - i,
    {
        if walk[i] as u64 == source {
            assert(walk@.contains(walk@[i as int]));
            return Some(walk[i]);
        }
        i += 1;
    }
    None
}

fn resolve_target(dom: &Dom, source: Option<u64>) -> (r: Option<NodeId>)
    requires
        dom.wf(),
    ensures
        r == target_node(dom, source),
        r matches Some(n) ==> dom.has(n),
{
    match source {
        Some(s) => resolve_source(dom, s),
        None => None,
    }
}

proof fn lemma_or_zero(x: u64)
    ensures
        x | 0 == x,
        0 | x == x,
{
    assert(x | 0 == x && 0 | x == x) by (bit_vector);
}

fn add_bits(desired: &mut NodeMap<u64>, id: NodeId, bits: u64)
    ensures
        final(desired)@ == old(desired)@.insert(id, bits_at(old(desired)@, id) | bits),
{
    let old_bits: u64 = match desired.get(id) {
        Some(b) => *b,
        None => 0,
    };
    desired.insert(id, old_bits | bits);
}

/// Adds `bits` to a node and every ancestor of it.
pub fn add_interaction_chain(dom: &Dom, desired: &mut NodeMap<u64>, from: NodeId, bits: u64)
    requires
        dom.wf(),
        dom.has(from),
    ensures
        forall|k: NodeId| #[trigger]
            final(desired)@.contains_key(k) <==> old(desired)@.contains_key(k) || dom.chain(
                from,
            ).contains(k),
        forall|k: NodeId| #[trigger]
            bits_at(final(desired)@, k) == bits_at(old(desired)@, k) | bits_if(
                dom.chain(from).contains(k),
                bits,
            ),
{
    let ghost before = desired@;
    let path = dom.ancestors(from);
    let mut i: usize = 0;
    assert forall|k: NodeId| #[trigger]
        bits_at(desired@, k) == bits_at(before, k) | bits_if(
            path@.take(0).contains(k),
            bits,
        ) by {
        lemma_or_zero(bits_at(before, k));
    }
    while i < path.len()
        invariant
            i <= path@.len(),
            forall|k: NodeId| #[trigger]
                desired@.contains_key(k) <==> before.contains_key(k) || path@.take(
                    i as int,
                ).contains(k),
            forall|k: NodeId| #[trigger]
                bits_at(desired@, k) == bits_at(before, k) | bits_if(
                    path@.take(i as int).contains(k),
                    bits,
                ),
        decreases path.len() - i,
    {
        let a = path[i];
        let ghost now = desired@;
        add_bits(desired, a, bits);
        assert(path@.take(i + 1) =~= path@.take(i as int) + seq![a]);
        assert forall|k: NodeId|
            path@.take(i + 1).contains(k) <==> #[trigger] path@.take(i as int).contains(k) || k
                == a by {
            lemma_contains_add(path@.take(i as int), seq![a], k);
            assert(seq![a][0] == a);
        }
        assert forall|k: NodeId| #[trigger]
            desired@.contains_key(k) <==> before.contains_key(k) || path@.take(i + 1).contains(
                k,
            ) by {
            assert(now.contains_key(k) <==> before.contains_key(k) || path@.take(i as int).contains(
                k,
            ));
        }
        assert forall|k: NodeId| #[trigger]
            bits_at(desired@, k) == bits_at(before, k) | bits_if(
                path@.take(i + 1).contains(k),
                bits,
            ) by {
            let x = bits_at(before, k);
            assert(bits_at(now, k) == x | bits_if(path@.take(i as int).contains(k), bits));
            assert((x | bits) | bits == x | bits) by (bit_vector);
            lemma_or_zero(x);
        }
        i += 1;
    }
    assert(path@.take(i as int) =~= path@);
}

/// The interaction state that a host's snapshot implies for every node that it
/// reaches.
pub fn interaction_desired(dom: &Dom, state: &InteractionState) -> (r: NodeMap<u64>)
    requires
        dom.wf(),
    ensures
        forall|k: NodeId| #[trigger] r@.contains_key(k) <==> is_reached(dom, *state, k),
        forall|k: NodeId| #[trigger] bits_at(r@, k) == desired_bits(dom, *state, k),
{
    let mut desired: NodeMap<u64> = NodeMap::new();
    let hovered = resolve_target(dom, state.hovered);
    let active = resolve_target(dom, state.active);
    let focused = resolve_target(dom, state.focused);
    let ghost m0 = desired@;
    if let Some(node) = hovered {
        add_interaction_chain(dom, &mut desired, node, HOVER);
    }
    let ghost m1 = desired@;
    if let Some(node) = active {
        add_interaction_chain(dom, &mut desired, node, ACTIVE);
    }
    let ghost m2 = desired@;
    if let Some(node) = focused {
        add_bits(&mut desired, node, FOCUS);
        assert(dom.chain(node)[0] == node);
        add_interaction_chain(dom, &mut desired, node, FOCUS_WITHIN);
    }
    assert forall|k: NodeId| #[trigger] desired@.contains_key(k) <==> is_reached(dom, *state, k) by {
        assert(m1.contains_key(k) <==> on_chain(dom, hovered, k)) by {
            assert(m0.contains_key(k) ==> false);
        }
        assert(m2.contains_key(k) <==> m1.contains_key(k) || on_chain(dom, active, k));
        if let Some(node) = focused {
            assert(dom.chain(node)[0] == node);
        }
    }
    assert forall|k: NodeId| #[trigger] bits_at(desired@, k) == desired_bits(dom, *state, k) by {
        let h = bits_if(on_chain(dom, hovered, k), HOVER);
        let a = bits_if(on_chain(dom, active, k), ACTIVE);
        let f = bits_if(focused == Some(k), FOCUS);
        let w = bits_if(on_chain(dom, focused, k), FOCUS_WITHIN);
        lemma_or_zero(h);
        lemma_or_zero(h | a);
        lemma_or_zero(h | a | f);
        assert(bits_at(m0, k) == 0);
        assert(bits_at(m1, k) == h);
        assert(bits_at(m2, k) == h | a);
    }
    desired
}

/// The entries with a blank one for each of some nodes that have none.
pub open spec fn with_blanks(
    m: Map<NodeId, StyleEntry>,
    nodes: Set<NodeId>,
) -> Map<NodeId, StyleEntry> {
    Map::new(
        |k: NodeId| m.contains_key(k) || nodes.contains(k),
        |k: NodeId|
            if m.contains_key(k) {
                m[k]
            } else {
                style_plane::blank_entry()
            },
    )
}

/// Gives a blank entry to each of some nodes that has none.
fn ensure_entries(plane: &mut StylePlane, nodes: &Vec<NodeId>)
    ensures
        final(plane).entries@ == with_blanks(old(plane).entries@, nodes@.to_set()),
        final(plane).contain_intrinsic == old(plane).contain_intrinsic,
        final(plane).marker_styles == old(plane).marker_styles,
{
    let ghost before = plane.entries@;
    let mut i: usize = 0;
    assert(plane.entries@ =~= with_blanks(before, nodes@.take(0).to_set()));
    while i < nodes.len()
        invariant
            i <= nodes@.len(),
            plane.contain_intrinsic == old(plane).contain_intrinsic,
            plane.marker_styles == old(plane).marker_styles,
            plane.entries@ == with_blanks(before, nodes@.take(i as int).to_set()),
        decreases nodes.len() - i,
    {
        let id = nodes[i];
        let ghost now = plane.entries@;
        if !plane.entries.contains(id) {
            plane.entries.insert(id, StyleEntry::blank());
        }
        assert(nodes@.take(i + 1) =~= nodes@.take(i as int) + seq![id]);
        assert forall|k: NodeId| #[trigger]
            nodes@.take(i + 1).contains(k) <==> nodes@.take(i as int).contains(k) || k == id by {
            lemma_contains_add(nodes@.take(i as int), seq![id], k);
            assert(seq![id][0] == id);
        }
        assert(plane.entries@ =~= with_blanks(before, nodes@.take(i + 1).to_set()));
        i += 1;
    }
    assert(nodes@.take(i as int) =~= nodes@);
}

/// A state with its interaction part replaced.
pub open spec fn with_interaction(state: u64, bits: u64) -> u64 {
    (state & !INTERACTION) | bits
}

/// Whether the interaction state of some entries has been set: `after` is
/// `before` with it, and with a blank entry for each reached node that had
/// none.
pub open spec fn interaction_set(
    before: Map<NodeId, StyleEntry>,
    desired: Map<NodeId, u64>,
    after: Map<NodeId, StyleEntry>,
) -> bool {
    let start = with_blanks(before, desired.dom());
    &&& after.dom() == start.dom()
    &&& forall|k: NodeId|
        start.contains_key(k) ==> #[trigger] after[k] == (StyleEntry {
            state: with_interaction(start[k].state, bits_at(desired, k)),
            ..start[k]
        })
}

/// Whether a list holds every node whose state was changed, once, with the
/// state that it had.
pub open spec fn lists_changed(
    before: Map<NodeId, StyleEntry>,
    desired: Map<NodeId, u64>,
    changed: Seq<(NodeId, u64)>,
) -> bool {
    let start = with_blanks(before, desired.dom());
    &&& changed.no_duplicates()
    &&& forall|k: NodeId, s: u64| #[trigger]
        changed.contains((k, s)) <==> start.contains_key(k) && s == start[k].state
            && with_interaction(s, bits_at(desired, k)) != s
}

/// Sets the interaction state of every entry, and gives the nodes whose state
/// changed with the state that they had, in no stated order.
pub fn apply_interaction_bits(plane: &mut StylePlane, desired: &NodeMap<u64>) -> (r: Vec<
    (NodeId, u64),
>)
    ensures
        interaction_set(old(plane).entries@, desired@, final(plane).entries@),
        lists_changed(old(plane).entries@, desired@, r@),
        final(plane).contain_intrinsic == old(plane).contain_intrinsic,
        final(plane).marker_styles == old(plane).marker_styles,
{
    let ghost before = plane.entries@;
    let reached = desired.keys();
    ensure_entries(plane, &reached);
    let ghost start = with_blanks(before, desired@.dom());
    assert(plane.entries@ =~= start);
    let keys = plane.entries.keys();
    let mut changed: Vec<(NodeId, u64)> = Vec::new();
    let mut i: usize = 0;
    while i < keys.len()
        invariant
            i <= keys@.len(),
            keys@.no_duplicates(),
            forall|k: NodeId| #[trigger] keys@.contains(k) <==> start.contains_key(k),
            plane.contain_intrinsic == old(plane).contain_intrinsic,
            plane.marker_styles == old(plane).marker_styles,
            plane.entries@.dom() == start.dom(),
            forall|j: int|
                0 <= j < i ==> plane.entries@[#[trigger] keys@[j]] == (StyleEntry {
                    state: with_interaction(start[keys@[j]].state, bits_at(desired@, keys@[j])),
                    ..start[keys@[j]]
                }),
            forall|j: int|
                i <= j < keys@.len() ==> plane.entries@[#[trigger] keys@[j]] == start[keys@[j]],
            changed@.no_duplicates(),
            forall|k: NodeId, s: u64| #[trigger]
                changed@.contains((k, s)) <==> (exists|j: int| 0 <= j < i && #[trigger] keys@[j] == k)
                    && s == start[k].state && with_interaction(s, bits_at(desired@, k)) != s,
        decreases keys.len() - i,
    {
        let id = keys[i];
        assert(keys@.contains(keys@[i as int]));
        let bits: u64 = match desired.get(id) {
            Some(b) => *b,
            None => 0,
        };
        let ghost now = plane.entries@;
        let ghost list = changed@;
        if let Some(e) = plane.entries.remove(id) {
            let mut e = e;
            let was: u64 = e.state;
            let next: u64 = (was & !INTERACTION) | bits;
            if next != was {
                changed.push((id, was));
            }
            e.state = next;
            plane.entries.insert(id, e);
            assert(plane.entries@ =~= now.insert(
                id,
                StyleEntry {
                    state: with_interaction(start[id].state, bits_at(desired@, id)),
                    ..start[id]
                },
            ));
        }
        assert(plane.entries@.dom() =~= start.dom());
        assert(!list.contains((id, start[id].state)));
        assert forall|k: NodeId, s: u64| #[trigger]
            changed@.contains((k, s)) <==> (exists|j: int|
                0 <= j < i + 1 && #[trigger] keys@[j] == k) && s == start[k].state
                && with_interaction(s, bits_at(desired@, k)) != s by {
            assert(list.contains((k, s)) ==> changed@.contains((k, s))) by {
                if list.contains((k, s)) {
                    let j = list.index_of((k, s));
                    assert(changed@[j] == (k, s));
                }
            }
            assert(changed@.contains((k, s)) ==> list.contains((k, s)) || (k == id && s
                == start[id].state)) by {
                if changed@.contains((k, s)) {
                    let j = changed@.index_of((k, s));
                    if j < list.len() {
                        assert(list[j] == (k, s));
                    }
                }
            }
            if k == id && s == start[id].state && with_interaction(s, bits_at(desired@, k)) != s {
                assert(changed@.last() == (k, s));
                assert(keys@[i as int] == k);
            }
        }
        i += 1;
    }
    assert forall|k: NodeId| start.contains_key(k) implies #[trigger] plane.entries@[k] == (
    StyleEntry {
        state: with_interaction(start[k].state, bits_at(desired@, k)),
        ..start[k]
    }) by {
        assert(keys@.contains(k));
        let j = keys@.index_of(k);
        assert(keys@[j] == k);
    }
    assert forall|k: NodeId| (exists|j: int| 0 <= j < keys@.len() && #[trigger] keys@[j] == k)
        <==> #[trigger] start.contains_key(k) by {
        assert(keys@.contains(k) <==> start.contains_key(k));
    }
    changed
}

/// The interaction state of every node that a host's snapshot reaches.
pub open spec fn desired_map(dom: &Dom, state: InteractionState) -> Map<NodeId, u64> {
    Map::new(|k: NodeId| is_reached(dom, state, k), |k: NodeId| desired_bits(dom, state, k))
}

/// Applies a host's interaction to the entries without a restyle, and gives
/// the nodes whose state changed with the state that they had.
pub fn apply_interaction(dom: &Dom, plane: &mut StylePlane, state: &InteractionState) -> (r: Vec<
    (NodeId, u64),
>)
    requires
        dom.wf(),
    ensures
        interaction_set(old(plane).entries@, desired_map(dom, *state), final(plane).entries@),
        lists_changed(old(plane).entries@, desired_map(dom, *state), r@),
        final(plane).contain_intrinsic == old(plane).contain_intrinsic,
        final(plane).marker_styles == old(plane).marker_styles,
{
    let desired = interaction_desired(dom, state);
    assert(desired@ =~= desired_map(dom, *state)) by {
        assert forall|k: NodeId| desired@.contains_key(k) implies desired@[k] == desired_bits(
            dom,
            *state,
            k,
        ) by {
            assert(bits_at(desired@, k) == desired@[k]);
        }
    }
    apply_interaction_bits(plane, &desired)
}

/// An interaction that is applied again changes no state: the second time no
/// node is listed.
pub proof fn an_interaction_applied_again_changes_nothing(
    before: Map<NodeId, StyleEntry>,
    dom: &Dom,
    state: InteractionState,
    after: Map<NodeId, StyleEntry>,
    changed: Seq<(NodeId, u64)>,
)
    requires
        interaction_set(before, desired_map(dom, state), after),
        lists_changed(after, desired_map(dom, state), changed),
    ensures
        changed.len() == 0,
        interaction_set(after, desired_map(dom, state), after),
{
    let desired = desired_map(dom, state);
    let start = with_blanks(before, desired.dom());
    assert(with_blanks(after, desired.dom()) =~= after);
    assert forall|k: NodeId| after.contains_key(k) implies with_interaction(
        #[trigger] after[k].state,
        bits_at(desired, k),
    ) == after[k].state by {
        let s = start[k].state;
        let b = bits_at(desired, k);
        lemma_desired_is_interaction(dom, state, k);
        assert(b & !INTERACTION == 0) by {
            assert(0u64 & !INTERACTION == 0) by (bit_vector);
        }
        assert(after[k].state == with_interaction(s, b));
        assert(((((s & !INTERACTION) | b) & !INTERACTION) | b) == ((s & !INTERACTION) | b))
            by (bit_vector)
            requires
                b & !INTERACTION == 0,
        ;
    }
    if changed.len() > 0 {
        let (k, s) = changed[0];
        assert(changed.contains((k, s)));
        assert(after[k].state == s);
        assert(false);
    }
}

proof fn lemma_desired_is_interaction(dom: &Dom, state: InteractionState, k: NodeId)
    ensures
        desired_bits(dom, state, k) & !INTERACTION == 0,
{
    let focused = target_node(dom, state.focused);
    let h = bits_if(on_chain(dom, target_node(dom, state.hovered), k), HOVER);
    let a = bits_if(on_chain(dom, target_node(dom, state.active), k), ACTIVE);
    let f = bits_if(focused == Some(k), FOCUS);
    let w = bits_if(on_chain(dom, focused, k), FOCUS_WITHIN);
    assert((h | a | f | w) & !INTERACTION == 0) by (bit_vector)
        requires
            h == 0 || h == HOVER,
            a == 0 || a == ACTIVE,
            f == 0 || f == FOCUS,
            w == 0 || w == FOCUS_WITHIN,
    ;
}

/// An interaction leaves the states that it does not decide as they were, and
/// shows hover on a node exactly where the pointer is on the node or below it,
/// and focus exactly on the focused node.
pub proof fn an_interaction_shows_where_it_points(
    before: Map<NodeId, StyleEntry>,
    dom: &Dom,
    state: InteractionState,
    after: Map<NodeId, StyleEntry>,
    k: NodeId,
)
    requires
        dom.wf(),
        interaction_set(before, desired_map(dom, state), after),
        before.contains_key(k),
    ensures
        after[k].state & !INTERACTION == before[k].state & !INTERACTION,
        after[k].state & HOVER == HOVER <==> on_chain(dom, target_node(dom, state.hovered), k),
        after[k].state & ACTIVE == ACTIVE <==> on_chain(dom, target_node(dom, state.active), k),
        after[k].state & FOCUS == FOCUS <==> target_node(dom, state.focused) == Some(k),
        after[k].state & FOCUS_WITHIN == FOCUS_WITHIN <==> on_chain(
            dom,
            target_node(dom, state.focused),
            k,
        ),
        after[k].state & FOCUS == FOCUS ==> after[k].state & FOCUS_WITHIN == FOCUS_WITHIN,
{
    let focused = target_node(dom, state.focused);
    let h = bits_if(on_chain(dom, target_node(dom, state.hovered), k), HOVER);
    let a = bits_if(on_chain(dom, target_node(dom, state.active), k), ACTIVE);
    let f = bits_if(focused == Some(k), FOCUS);
    let w = bits_if(on_chain(dom, focused, k), FOCUS_WITHIN);
    let d = bits_at(desired_map(dom, state), k);
    lemma_chain_has_self(dom, state, k);
    let s = before[k].state;
    let t = after[k].state;
    assert(with_blanks(before, desired_map(dom, state).dom())[k] == before[k]);
    assert(t == with_interaction(s, d));
    if !is_reached(dom, state, k) {
        assert(h == 0 && a == 0 && f == 0 && w == 0);
    }
    assert(d == (h | a | f | w)) by {
        assert(0u64 | 0u64 | 0u64 | 0u64 == 0u64) by (bit_vector);
    }
    assert({
        &&& t & !INTERACTION == s & !INTERACTION
        &&& t & HOVER == HOVER <==> h == HOVER
        &&& t & ACTIVE == ACTIVE <==> a == ACTIVE
        &&& t & FOCUS == FOCUS <==> f == FOCUS
        &&& t & FOCUS_WITHIN == FOCUS_WITHIN <==> w == FOCUS_WITHIN
    }) by (bit_vector)
        requires
            t == (s & !INTERACTION) | (h | a | f | w),
            h == 0 || h == HOVER,
            a == 0 || a == ACTIVE,
            f == 0 || f == FOCUS,
            w == 0 || w == FOCUS_WITHIN,
    ;
}

proof fn lemma_chain_has_self(dom: &Dom, state: InteractionState, k: NodeId)
    requires
        dom.wf(),
    ensures
        target_node(dom, state.focused) == Some(k) ==> dom.chain(k).contains(k),
{
    if target_node(dom, state.focused) == Some(k) {
        dom.lemma_stack_order_visits(dom.root());
        assert(dom.has(k));
        assert(dom.chain(k)[0] == k);
    }
}

// ---------------------------------------------------------------------------
// Traversal
// ---------------------------------------------------------------------------
/// The elements among some nodes.
pub open spec fn elements_of(dom: &Dom, nodes: Seq<NodeId>) -> Seq<NodeId>
    decreases nodes.len(),
{
    if nodes.len() == 0 {
        Seq::empty()
    } else {
        let before = elements_of(dom, nodes.drop_last());
        if dom.kind_at(nodes.last()) == NodeKind::Element {
            before.push(nodes.last())
        } else {
            before
        }
    }
}

/// The elements among some nodes, in their order.
pub fn pick_elements(dom: &Dom, nodes: &Vec<NodeId>) -> (r: Vec<NodeId>)
    requires
        forall|j: int| 0 <= j < nodes@.len() ==> dom.has(#[trigger] nodes@[j]),
    ensures
        r@ == elements_of(dom, nodes@),
        forall|x: NodeId| #[trigger]
            r@.contains(x) <==> nodes@.contains(x) && dom.kind_at(x) == NodeKind::Element,
        r@.len() <= nodes@.len(),
{
    let mut out: Vec<NodeId> = Vec::new();
    let mut i: usize = 0;
    while i < nodes.len()
        invariant
            i <= nodes@.len(),
            forall|j: int| 0 <= j < nodes@.len() ==> dom.has(#[trigger] nodes@[j]),
            out@ == elements_of(dom, nodes@.take(i as int)),
            out@.len() <= i,
        decreases nodes.len() - i,
    {
        let id = nodes[i];
        assert(dom.has(nodes@[i as int]));
        assert(nodes@.take(i + 1).drop_last() =~= nodes@.take(i as int));
        if dom.kind(id) == NodeKind::Element {
            out.push(id);
        }
        i += 1;
    }
    assert(nodes@.take(i as int) =~= nodes@);
    proof {
        lemma_elements_of(dom, nodes@);
    }
    out
}

/// The elements of some nodes are those of them that are elements.
pub proof fn lemma_elements_of(dom: &Dom, nodes: Seq<NodeId>)
    ensures
        forall|x: NodeId| #[trigger]
            elements_of(dom, nodes).contains(x) <==> nodes.contains(x) && dom.kind_at(x)
                == NodeKind::Element,
    decreases nodes.len(),
{
    if nodes.len() > 0 {
        let front = nodes.drop_last();
        lemma_elements_of(dom, front);
        assert(nodes =~= front + seq![nodes.last()]);
        let before = elements_of(dom, front);
        assert forall|x: NodeId| #[trigger]
            elements_of(dom, nodes).contains(x) <==> nodes.contains(x) && dom.kind_at(x)
                == NodeKind::Element by {
            lemma_contains_add(front, seq![nodes.last()], x);
            lemma_contains_add(before, seq![nodes.last()], x);
            assert(before + seq![nodes.last()] =~= before.push(nodes.last()));
            assert(seq![nodes.last()][0] == nodes.last());
            assert(before.contains(x) <==> front.contains(x) && dom.kind_at(x)
                == NodeKind::Element);
        }
    }
}

/// The text of an element's `style` attribute, where it is not blank.
pub open spec fn inline_css(dom: &Dom, id: NodeId) -> Option<Seq<char>> {
    match dom.plain_attr(id, "style"@) {
        Some(css) => if dom.kind_at(id) == NodeKind::Element && text::trimmed(css).len() > 0 {
            Some(css)
        } else {
            None
        },
        None => None,
    }
}

/// Whether an entry has taken over the `style` attribute of its element: where
/// there is none, or a blank one, it keeps what it had.
pub open spec fn took_inline(
    before: StyleEntry,
    css: Option<Seq<char>>,
    after: StyleEntry,
) -> bool {
    &&& after == (StyleEntry { inline_style: after.inline_style, ..before })
    &&& match css {
        Some(t) => text::text_of(after.inline_style) == Some(t),
        None => after.inline_style == before.inline_style,
    }
}

/// Whether an element is checked by its `checked` attribute.
pub open spec fn is_checked(dom: &Dom, id: NodeId) -> bool {
    dom.is_named(id, "input"@) && dom.plain_attr(id, "checked"@) is Some
}

/// An element's state with the state of being checked as its attribute says.
pub open spec fn state_by_attributes(dom: &Dom, id: NodeId, state: u64) -> u64 {
    if is_checked(dom, id) {
        state | CHECKED
    } else {
        state & !CHECKED
    }
}

/// The entries with one for each element among some nodes, whose state is as its
/// attributes say.
pub open spec fn populated(
    dom: &Dom,
    m: Map<NodeId, StyleEntry>,
    nodes: Seq<NodeId>,
) -> Map<NodeId, StyleEntry> {
    let here = |k: NodeId| nodes.contains(k) && dom.kind_at(k) == NodeKind::Element;
    Map::new(
        |k: NodeId| m.contains_key(k) || here(k),
        |k: NodeId|
            {
                let start = if m.contains_key(k) {
                    m[k]
                } else {
                    style_plane::blank_entry()
                };
                if here(k) {
                    StyleEntry { state: state_by_attributes(dom, k, start.state), ..start }
                } else {
                    start
                }
            },
    )
}

/// Whether `after` is `before` made ready for a traversal: every element has an
/// entry, with the state that its attributes give it, and holds the text of its
/// `style` attribute.
pub open spec fn made_ready(
    dom: &Dom,
    before: Map<NodeId, StyleEntry>,
    after: Map<NodeId, StyleEntry>,
) -> bool {
    let walk = dom.stack_order(dom.root());
    let start = populated(dom, before, walk);
    &&& after.dom() == start.dom()
    &&& forall|k: NodeId|
        start.contains_key(k) ==> took_inline(
            start[k],
            if walk.contains(k) {
                inline_css(dom, k)
            } else {
                None
            },
            #[trigger] after[k],
        )
}

/// Gives every element of a document an entry, and the state that its attributes
/// give it.
pub fn populate_for_elements(dom: &Dom, plane: &mut StylePlane)
    requires
        dom.wf(),
    ensures
        final(plane).entries@ == populated(
            dom,
            old(plane).entries@,
            dom.stack_order(dom.root()),
        ),
        final(plane).contain_intrinsic == old(plane).contain_intrinsic,
        final(plane).marker_styles == old(plane).marker_styles,
{
    let ghost before = plane.entries@;
    let walk = dom.walk_with_stack(dom.document());
    proof {
        dom.lemma_stack_order_visits(dom.root());
    }
    let mut i: usize = 0;
    assert(plane.entries@ =~= populated(dom, before, walk@.take(0)));
    while i < walk.len()
        invariant
            dom.wf(),
            i <= walk@.len(),
            walk@ == dom.stack_order(dom.root()),
            walk@.no_duplicates(),
            forall|x: NodeId| #[trigger]
                dom.stack_order(dom.root()).contains(x) ==> dom.is_within(x, dom.root()),
            plane.contain_intrinsic == old(plane).contain_intrinsic,
            plane.marker_styles == old(plane).marker_styles,
            plane.entries@ == populated(dom, before, walk@.take(i as int)),
        decreases walk.len() - i,
    {
        let id = walk[i];
        assert(walk@.contains(walk@[i as int]));
        let ghost now = plane.entries@;
        let ghost a = walk@.take(i as int);
        let ghost b = walk@.take(i + 1);
        assert forall|k: NodeId| #[trigger] b.contains(k) <==> a.contains(k) || k == id by {
            assert(b =~= a + seq![id]);
            lemma_contains_add(a, seq![id], k);
            assert(seq![id][0] == id);
        }
        assert(!a.contains(id));
        if dom.kind(id) == NodeKind::Element {
            let mut e = match plane.entries.remove(id) {
                Some(e) => e,
                None => StyleEntry::blank(),
            };
            let ghost start = e;
            let checked = dom.named(id, "input") && dom.plain_attribute(id, "checked").is_some();
            e.state = if checked {
                e.state | CHECKED
            } else {
                e.state & !CHECKED
            };
            plane.entries.insert(id, e);
            assert(e == StyleEntry { state: state_by_attributes(dom, id, start.state), ..start });
        }
        assert(plane.entries@ =~= populated(dom, before, b));
        i += 1;
    }
    assert(walk@.take(i as int) =~= walk@);
}

/// Hands the text of every `style` attribute that is not blank to the entry of
/// its element.
pub fn parse_inline_styles(dom: &Dom, plane: &mut StylePlane)
    requires
        dom.wf(),
        forall|k: NodeId| #[trigger]
            elements_of(dom, dom.stack_order(dom.root())).contains(k) ==> old(
                plane,
            ).entries@.contains_key(k),
    ensures
        final(plane).entries@.dom() == old(plane).entries@.dom(),
        forall|k: NodeId|
            old(plane).entries@.contains_key(k) ==> took_inline(
                old(plane).entries@[k],
                if dom.stack_order(dom.root()).contains(k) {
                    inline_css(dom, k)
                } else {
                    None
                },
                #[trigger] final(plane).entries@[k],
            ),
        final(plane).contain_intrinsic == old(plane).contain_intrinsic,
        final(plane).marker_styles == old(plane).marker_styles,
{
    let ghost before = plane.entries@;
    let walk = dom.walk_with_stack(dom.document());
    proof {
        dom.lemma_stack_order_visits(dom.root());
        lemma_elements_of(dom, walk@);
    }
    let mut i: usize = 0;
    while i < walk.len()
        invariant
            dom.wf(),
            i <= walk@.len(),
            walk@ == dom.stack_order(dom.root()),
            walk@.no_duplicates(),
            forall|x: NodeId| #[trigger]
                dom.stack_order(dom.root()).contains(x) ==> dom.is_within(x, dom.root()),
            forall|k: NodeId| #[trigger]
                elements_of(dom, walk@).contains(k) ==> before.contains_key(k),
            forall|x: NodeId| #[trigger]
                elements_of(dom, walk@).contains(x) <==> walk@.contains(x) && dom.kind_at(x)
                    == NodeKind::Element,
            plane.contain_intrinsic == old(plane).contain_intrinsic,
            plane.marker_styles == old(plane).marker_styles,
            plane.entries@.dom() == before.dom(),
            forall|k: NodeId|
                before.contains_key(k) ==> took_inline(
                    before[k],
                    if walk@.take(i as int).contains(k) {
                        inline_css(dom, k)
                    } else {
                        None
                    },
                    #[trigger] plane.entries@[k],
                ),
        decreases walk.len() - i,
    {
        let id = walk[i];
        assert(walk@.contains(walk@[i as int]));
        let ghost now = plane.entries@;
        if dom.kind(id) == NodeKind::Element {
            if let Some(css) = dom.plain_attribute(id, "style") {
                let chars = chars_of(css);
                if trim(chars.as_slice()).len() > 0 {
                    assert(elements_of(dom, walk@).contains(id));
                    if let Some(e) = plane.entries.remove(id) {
                        let mut e = e;
                        e.inline_style = Some(css.to_owned());
                        plane.entries.insert(id, e);
                        assert(plane.entries@ =~= now.insert(id, e));
                    }
                }
            }
        }
        assert(plane.entries@.dom() =~= before.dom());
        assert(walk@.take(i + 1) =~= walk@.take(i as int) + seq![id]);
        assert forall|k: NodeId| before.contains_key(k) implies took_inline(
            before[k],
            if walk@.take(i + 1).contains(k) {
                inline_css(dom, k)
            } else {
                None
            },
            #[trigger] plane.entries@[k],
        ) by {
            lemma_contains_add(walk@.take(i as int), seq![id], k);
            assert(seq![id][0] == id);
            assert(now[k] == now[k]);
        }
        i += 1;
    }
    assert(walk@.take(i as int) =~= walk@);
}

/// The list items among some nodes that a cascade has filled.
pub open spec fn items_of(dom: &Dom, plane: StylePlane, nodes: Seq<NodeId>) -> Seq<NodeId>
    decreases nodes.len(),
{
    if nodes.len() == 0 {
        Seq::empty()
    } else {
        let before = items_of(dom, plane, nodes.drop_last());
        if dom.is_named(nodes.last(), "li"@) && plane.primary_at(nodes.last()) is Some {
            before.push(nodes.last())
        } else {
            before
        }
    }
}

/// The markers that came out for some items: those that have one.
pub open spec fn markers_of(
    items: Seq<NodeId>,
    found: Seq<Option<ComputedStyle>>,
    n: nat,
) -> Seq<(NodeId, ComputedStyle)>
    decreases n,
{
    if n == 0 {
        Seq::empty()
    } else {
        let before = markers_of(items, found, (n - 1) as nat);
        match found[n - 1] {
            Some(s) => before.push((items[n - 1], s)),
            None => before,
        }
    }
}

/// Whether `found` is what `marker` answered for some items.
pub open spec fn answers<M: Fn(&StylePlane, NodeId) -> Option<ComputedStyle>>(
    marker: &M,
    plane: StylePlane,
    items: Seq<NodeId>,
    found: Seq<Option<ComputedStyle>>,
) -> bool {
    &&& found.len() == items.len()
    &&& forall|i: int|
        0 <= i < items.len() ==> call_ensures(*marker, (&plane, items[i]), #[trigger] found[i])
}

/// The style of the marker of every list item that has one, as `marker`
/// computes it from the item's own style.
pub fn collect_marker_styles<M: Fn(&StylePlane, NodeId) -> Option<ComputedStyle>>(
    dom: &Dom,
    plane: &StylePlane,
    marker: &M,
) -> (r: Vec<(NodeId, ComputedStyle)>)
    requires
        dom.wf(),
        forall|n: NodeId| #[trigger] call_requires(*marker, (plane, n)),
    ensures
        exists|found: Seq<Option<ComputedStyle>>|
            {
                let items = items_of(dom, *plane, dom.stack_order(dom.root()));
                &&& #[trigger] answers(
                    marker,
                    *plane,
                    items_of(dom, *plane, dom.stack_order(dom.root())),
                    found,
                )
                &&& r@ == markers_of(items, found, items.len())
            },
{
    let walk = dom.walk_with_stack(dom.document());
    proof {
        dom.lemma_stack_order_visits(dom.root());
    }
    let mut out: Vec<(NodeId, ComputedStyle)> = Vec::new();
    let ghost mut found = Seq::<Option<ComputedStyle>>::empty();
    let mut i: usize = 0;
    while i < walk.len()
        invariant
            walk@ == dom.stack_order(dom.root()),
            forall|x: NodeId| #[trigger]
                dom.stack_order(dom.root()).contains(x) ==> dom.is_within(x, dom.root()),
            forall|n: NodeId| #[trigger] call_requires(*marker, (plane, n)),
            i <= walk@.len(),
            answers(marker, *plane, items_of(dom, *plane, walk@.take(i as int)), found),
            out@ == markers_of(items_of(dom, *plane, walk@.take(i as int)), found, found.len()),
        decreases walk.len() - i,
    {
        let id = walk[i];
        assert(walk@.contains(walk@[i as int]));
        let ghost items = items_of(dom, *plane, walk@.take(i as int));
        assert(walk@.take(i + 1).drop_last() =~= walk@.take(i as int));
        if dom.named(id, "li") && plane.primary(id).is_some() {
            let answer = marker(plane, id);
            let ghost known = found;
            let ghost more = items.push(id);
            proof {
                found = known.push(answer);
                lemma_markers_prefix(items, known, more, found, known.len());
                assert forall|j: int| 0 <= j < more.len() implies call_ensures(
                    *marker,
                    (plane, more[j]),
                    #[trigger] found[j],
                ) by {
                    if j < items.len() {
                        assert(call_ensures(*marker, (plane, items[j]), known[j]));
                    }
                }
            }
            if let Some(style) = answer {
                out.push((id, style));
            }
        }
        i += 1;
    }
    assert(walk@.take(i as int) =~= walk@);
    out
}

proof fn lemma_markers_prefix(
    a: Seq<NodeId>,
    x: Seq<Option<ComputedStyle>>,
    b: Seq<NodeId>,
    y: Seq<Option<ComputedStyle>>,
    n: nat,
)
    requires
        n <= a.len() <= b.len(),
        n <= x.len() <= y.len(),
        forall|j: int| 0 <= j < n ==> a[j] == b[j] && x[j] == y[j],
    ensures
        markers_of(a, x, n) == markers_of(b, y, n),
    decreases n,
{
    if n > 0 {
        lemma_markers_prefix(a, x, b, y, (n - 1) as nat);
    }
}

/// The elements directly under the document.
pub open spec fn root_elements(dom: &Dom) -> Seq<NodeId> {
    elements_of(dom, dom.children_at(dom.root()))
}

/// Whether `passes` are the planes that `recalc` went through: the first, and
/// the one after each element directly under the document. It is told the nodes
/// whose state `changed`, with the state that they had.
pub open spec fn recalculated<F: Fn(StylePlane, NodeId, &Vec<(NodeId, u64)>) -> StylePlane>(
    dom: &Dom,
    recalc: &F,
    changed: &Vec<(NodeId, u64)>,
    passes: Seq<StylePlane>,
) -> bool {
    &&& passes.len() == root_elements(dom).len() + 1
    &&& forall|i: int|
        0 <= i < root_elements(dom).len() ==> call_ensures(
            *recalc,
            (passes[i], #[trigger] root_elements(dom)[i], changed),
            passes[i + 1],
        )
}

/// Whether a map holds some markers and nothing else.
pub open spec fn holds_markers(
    m: Map<NodeId, ComputedStyle>,
    markers: Seq<(NodeId, ComputedStyle)>,
) -> bool {
    &&& forall|k: NodeId| #[trigger]
        m.contains_key(k) <==> exists|i: int| 0 <= i < markers.len() && #[trigger] markers[i].0 == k
    &&& forall|i: int|
        0 <= i < markers.len() ==> m[(#[trigger] markers[i]).0] == markers[i].1
}

/// Whether `after` is what a cascade over `before` comes to: the plane made
/// ready went through `passes`, `found` are the markers of the list items, and
/// they replace those that were there.
pub open spec fn cascaded<
    F: Fn(StylePlane, NodeId, &Vec<(NodeId, u64)>) -> StylePlane,
    M: Fn(&StylePlane, NodeId) -> Option<ComputedStyle>,
>(
    dom: &Dom,
    before: StylePlane,
    changed: &Vec<(NodeId, u64)>,
    recalc: &F,
    marker: &M,
    passes: Seq<StylePlane>,
    found: Seq<Option<ComputedStyle>>,
    after: StylePlane,
) -> bool {
    let items = items_of(dom, passes.last(), dom.stack_order(dom.root()));
    &&& made_ready(dom, before.entries@, passes[0].entries@)
    &&& passes[0].contain_intrinsic == before.contain_intrinsic
    &&& passes[0].marker_styles == before.marker_styles
    &&& recalculated(dom, recalc, changed, passes)
    &&& answers(marker, passes.last(), items, found)
    &&& after.entries == passes.last().entries
    &&& after.contain_intrinsic == passes.last().contain_intrinsic
    &&& holds_markers(after.marker_styles@, markers_of(items, found, items.len()))
}

proof fn lemma_items_no_duplicates(dom: &Dom, plane: StylePlane, nodes: Seq<NodeId>)
    requires
        nodes.no_duplicates(),
    ensures
        items_of(dom, plane, nodes).no_duplicates(),
        forall|x: NodeId| #[trigger] items_of(dom, plane, nodes).contains(x) ==> nodes.contains(x),
    decreases nodes.len(),
{
    if nodes.len() > 0 {
        let front = nodes.drop_last();
        lemma_items_no_duplicates(dom, plane, front);
        let before = items_of(dom, plane, front);
        let all = items_of(dom, plane, nodes);
        let last = nodes.last();
        assert(nodes[nodes.len() - 1] == last);
        assert(!before.contains(last)) by {
            if before.contains(last) {
                let j = front.index_of(last);
                assert(nodes[j] == last);
            }
        }
        assert forall|x: NodeId| #[trigger] all.contains(x) implies nodes.contains(x) by {
            let j = all.index_of(x);
            if j < before.len() {
                assert(before[j] == x);
                assert(before.contains(x));
                let i = front.index_of(x);
                assert(nodes[i] == x);
            } else {
                assert(nodes[nodes.len() - 1] == x);
            }
        }
    }
}

proof fn lemma_markers_are_items(
    items: Seq<NodeId>,
    found: Seq<Option<ComputedStyle>>,
    n: nat,
)
    requires
        items.no_duplicates(),
        n <= items.len(),
    ensures
        forall|i: int, j: int|
            0 <= i < j < markers_of(items, found, n).len() ==> (#[trigger] markers_of(
                items,
                found,
                n,
            )[i]).0 != (#[trigger] markers_of(items, found, n)[j]).0,
        forall|i: int|
            0 <= i < markers_of(items, found, n).len() ==> exists|j: int|
                0 <= j < n && #[trigger] items[j] == (#[trigger] markers_of(items, found, n)[i]).0,
    decreases n,
{
    if n > 0 {
        let m = (n - 1) as nat;
        lemma_markers_are_items(items, found, m);
        let a = markers_of(items, found, m);
        let b = markers_of(items, found, n);
        assert forall|i: int| 0 <= i < b.len() implies exists|j: int|
            0 <= j < n && #[trigger] items[j] == (#[trigger] b[i]).0 by {
            if i < a.len() {
                assert(b[i] == a[i]);
                let j = choose|j: int| 0 <= j < m && #[trigger] items[j] == a[i].0;
                assert(items[j] == b[i].0);
            } else {
                assert(items[n - 1] == b[i].0);
            }
        }
        assert forall|i: int, j: int| 0 <= i < j < b.len() implies (#[trigger] b[i]).0 != (
        #[trigger] b[j]).0 by {
            assert(b[i] == a[i]);
            if j < a.len() {
                assert(b[j] == a[j]);
            } else {
                let x = choose|x: int| 0 <= x < m && #[trigger] items[x] == a[i].0;
                assert(items[x] != items[n - 1]);
            }
        }
    }
}

/// Runs a cascade over a document. `recalc` styles the tree under an element;
/// it runs for each element directly under the document. `marker` then computes
/// the style of each list item's marker.
pub fn cascade_traverse<
    F: Fn(StylePlane, NodeId, &Vec<(NodeId, u64)>) -> StylePlane,
    M: Fn(&StylePlane, NodeId) -> Option<ComputedStyle>,
>(
    dom: &Dom,
    plane: StylePlane,
    changed: &Vec<(NodeId, u64)>,
    recalc: &F,
    marker: &M,
) -> (r: StylePlane)
    requires
        dom.wf(),
        forall|p: StylePlane, n: NodeId| #[trigger] call_requires(*recalc, (p, n, changed)),
        forall|p: &StylePlane, n: NodeId| #[trigger] call_requires(*marker, (p, n)),
    ensures
        exists|passes: Seq<StylePlane>, found: Seq<Option<ComputedStyle>>|
            cascaded(dom, plane, changed, recalc, marker, passes, found, r),
{
    let ghost before = plane;
    let mut plane = plane;
    populate_for_elements(dom, &mut plane);
    proof {
        lemma_elements_of(dom, dom.stack_order(dom.root()));
    }
    parse_inline_styles(dom, &mut plane);
    assert(made_ready(dom, before.entries@, plane.entries@));
    let ghost mut passes = seq![plane];
    let top = dom.document();
    let children = dom.dom_children(top);
    assert forall|j: int| 0 <= j < children@.len() implies dom.has(#[trigger] children@[j]) by {
        assert(dom.has(dom.children_at(top)[j]));
    }
    let roots = pick_elements(dom, children);
    let mut i: usize = 0;
    while i < roots.len()
        invariant
            forall|p: StylePlane, n: NodeId| #[trigger] call_requires(*recalc, (p, n, changed)),
            roots@ == root_elements(dom),
            i <= roots@.len(),
            passes.len() == i + 1,
            passes.last() == plane,
            made_ready(dom, before.entries@, passes[0].entries@),
            passes[0].contain_intrinsic == before.contain_intrinsic,
            passes[0].marker_styles == before.marker_styles,
            forall|j: int|
                0 <= j < i ==> call_ensures(
                    *recalc,
                    (passes[j], #[trigger] root_elements(dom)[j], changed),
                    passes[j + 1],
                ),
        decreases roots.len() - i,
    {
        let ghost known = passes;
        plane = recalc(plane, roots[i], changed);
        proof {
            passes = known.push(plane);
            assert forall|j: int| 0 <= j < i + 1 implies call_ensures(
                *recalc,
                (passes[j], #[trigger] root_elements(dom)[j], changed),
                passes[j + 1],
            ) by {
                if j < i {
                    assert(call_ensures(
                        *recalc,
                        (known[j], root_elements(dom)[j], changed),
                        known[j + 1],
                    ));
                }
            }
        }
        i += 1;
    }
    let ghost done = plane;
    let markers = collect_marker_styles(dom, &plane, marker);
    let ghost items = items_of(dom, done, dom.stack_order(dom.root()));
    let ghost found = choose|found: Seq<Option<ComputedStyle>>|
        {
            &&& #[trigger] answers(
                marker,
                done,
                items_of(dom, done, dom.stack_order(dom.root())),
                found,
            )
            &&& markers@ == markers_of(items, found, items.len())
        };
    proof {
        dom.lemma_stack_order_visits(dom.root());
        lemma_items_no_duplicates(dom, done, dom.stack_order(dom.root()));
        lemma_markers_are_items(items, found, items.len());
    }
    plane.marker_styles = marker_map(markers);
    assert(cascaded(dom, before, changed, recalc, marker, passes, found, plane));
    plane
}

fn marker_map(markers: Vec<(NodeId, ComputedStyle)>) -> (r: NodeMap<ComputedStyle>)
    requires
        forall|i: int, j: int|
            0 <= i < j < markers@.len() ==> (#[trigger] markers@[i]).0 != (#[trigger] markers@[j]).0,
    ensures
        holds_markers(r@, markers@),
{
    let mut r: NodeMap<ComputedStyle> = NodeMap::new();
    let ghost all = markers@;
    let mut markers = markers;
    while markers.len() > 0
        invariant
            forall|i: int, j: int|
                0 <= i < j < all.len() ==> (#[trigger] all[i]).0 != (#[trigger] all[j]).0,
            markers@.len() <= all.len(),
            markers@ == all.take(markers@.len() as int),
            forall|k: NodeId| #[trigger]
                r@.contains_key(k) <==> exists|i: int|
                    markers@.len() <= i < all.len() && #[trigger] all[i].0 == k,
            forall|i: int|
                markers@.len() <= i < all.len() ==> r@[(#[trigger] all[i]).0] == all[i].1,
        decreases markers.len(),
    {
        let ghost n = markers@.len();
        let ghost old_map = r@;
        if let Some((id, style)) = markers.pop() {
            assert((id, style) == all[n - 1]);
            r.insert(id, style);
            assert(markers@ =~= all.take(n - 1));
            assert forall|k: NodeId| #[trigger]
                r@.contains_key(k) <==> exists|i: int|
                    n - 1 <= i < all.len() && #[trigger] all[i].0 == k by {
                assert(old_map.contains_key(k) <==> exists|i: int|
                    n <= i < all.len() && #[trigger] all[i].0 == k);
                if k == id {
                    assert(all[n - 1].0 == k);
                }
            }
        }
    }
    r
}

/// Whether `after` is what a cascade over `before` comes to that no change of
/// state is part of.
pub open spec fn cascaded_alone<
    F: Fn(StylePlane, NodeId, &Vec<(NodeId, u64)>) -> StylePlane,
    M: Fn(&StylePlane, NodeId) -> Option<ComputedStyle>,
>(dom: &Dom, before: StylePlane, recalc: &F, marker: &M, after: StylePlane) -> bool {
    exists|
        nothing: &Vec<(NodeId, u64)>,
        passes: Seq<StylePlane>,
        found: Seq<Option<ComputedStyle>>,
    |
        nothing@.len() == 0 && #[trigger] cascaded(
            dom,
            before,
            nothing,
            recalc,
            marker,
            passes,
            found,
            after,
        )
}

/// Runs a cascade that no change of state is part of.
pub fn run_cascade_with_stylist<
    F: Fn(StylePlane, NodeId, &Vec<(NodeId, u64)>) -> StylePlane,
    M: Fn(&StylePlane, NodeId) -> Option<ComputedStyle>,
>(dom: &Dom, plane: StylePlane, recalc: &F, marker: &M) -> (r: StylePlane)
    requires
        dom.wf(),
        forall|p: StylePlane, n: NodeId, c: &Vec<(NodeId, u64)>| #[trigger]
            call_requires(*recalc, (p, n, c)),
        forall|p: &StylePlane, n: NodeId| #[trigger] call_requires(*marker, (p, n)),
    ensures
        cascaded_alone(dom, plane, recalc, marker, r),
{
    let ghost before = plane;
    let nothing: Vec<(NodeId, u64)> = Vec::new();
    let after = cascade_traverse(dom, plane, &nothing, recalc, marker);
    proof {
        let (passes, found) = choose|
            passes: Seq<StylePlane>,
            found: Seq<Option<ComputedStyle>>,
        |
            cascaded(dom, before, &nothing, recalc, marker, passes, found, after);
        assert(cascaded(dom, before, &nothing, recalc, marker, passes, found, after));
    }
    after
}

/// Whether `r` is what styling a document makes of a plane: what a cascade comes
/// to, with the intrinsic sizes that the style sheets put in place.
pub open spec fn styled<
    F: Fn(StylePlane, NodeId, &Vec<(NodeId, u64)>) -> StylePlane,
    M: Fn(&StylePlane, NodeId) -> Option<ComputedStyle>,
>(
    dom: &Dom,
    plane: StylePlane,
    stylesheets: Seq<&str>,
    recalc: &F,
    marker: &M,
    r: StylePlane,
) -> bool {
    &&& exists|after: StylePlane|
        {
            &&& #[trigger] cascaded_alone(dom, plane, recalc, marker, after)
            &&& r.entries == after.entries
            &&& r.marker_styles == after.marker_styles
        }
    &&& contain_intrinsic::overrides_are(dom, stylesheets, r.contain_intrinsic@)
}

/// Styles a document: a cascade, and then the intrinsic sizes that its style
/// sheets put in place.
pub fn run_cascade<
    F: Fn(StylePlane, NodeId, &Vec<(NodeId, u64)>) -> StylePlane,
    M: Fn(&StylePlane, NodeId) -> Option<ComputedStyle>,
>(dom: &Dom, plane: StylePlane, stylesheets: &[&str], recalc: &F, marker: &M) -> (r: StylePlane)
    requires
        dom.wf(),
        forall|p: StylePlane, n: NodeId, c: &Vec<(NodeId, u64)>| #[trigger]
            call_requires(*recalc, (p, n, c)),
        forall|p: &StylePlane, n: NodeId| #[trigger] call_requires(*marker, (p, n)),
    ensures
        styled(dom, plane, stylesheets@, recalc, marker, r),
{
    let mut after = run_cascade_with_stylist(dom, plane, recalc, marker);
    let ghost first = after;
    populate_contain_intrinsic_overrides(dom, &mut after, stylesheets);
    assert(cascaded_alone(dom, plane, recalc, marker, first));
    after
}

/// Where a style sheet comes from. What an author says goes before what the
/// browser says by default.
#[derive(Clone, Copy, Debug, PartialEq, Eq, Structural)]
pub enum SheetOrigin {
    UserAgent,
    Author,
}

/// The style sheets of a document in the order in which they are added: the
/// browser's own first, then the author's in theirs.
pub fn sheets_in_order<'a>(defaults: &'a str, stylesheets: &[&'a str]) -> (r: Vec<
    (SheetOrigin, &'a str),
>)
    ensures
        r@ == seq![(SheetOrigin::UserAgent, defaults)] + stylesheets@.map(
            |i: int, s: &'a str| (SheetOrigin::Author, s),
        ),
{
    let mut out: Vec<(SheetOrigin, &'a str)> = Vec::new();
    out.push((SheetOrigin::UserAgent, defaults));
    let ghost all = seq![(SheetOrigin::UserAgent, defaults)] + stylesheets@.map(
        |i: int, s: &'a str| (SheetOrigin::Author, s),
    );
    let mut i: usize = 0;
    assert(out@ =~= all.take(1));
    while i < stylesheets.len()
        invariant
            i <= stylesheets@.len(),
            all == seq![(SheetOrigin::UserAgent, defaults)] + stylesheets@.map(
                |i: int, s: &'a str| (SheetOrigin::Author, s),
            ),
            out@ == all.take(i + 1),
        decreases stylesheets.len() - i,
    {
        out.push((SheetOrigin::Author, stylesheets[i]));
        i += 1;
        assert(out@ =~= all.take(i + 1));
    }
    assert(all.take(i + 1) =~= all);
    out
}

// ---------------------------------------------------------------------------
// Restyling
// ---------------------------------------------------------------------------
/// Whether `clean` is `before` without damage.
pub open spec fn plane_reset(before: StylePlane, clean: StylePlane) -> bool {
    &&& damage_reset(before.entries@, clean.entries@)
    &&& clean.contain_intrinsic == before.contain_intrinsic
    &&& clean.marker_styles == before.marker_styles
}

/// Whether `after` is what a cascade comes to over `start` with some nodes
/// marked.
pub open spec fn traversed<
    F: Fn(StylePlane, NodeId, &Vec<(NodeId, u64)>) -> StylePlane,
    M: Fn(&StylePlane, NodeId) -> Option<ComputedStyle>,
>(
    dom: &Dom,
    start: StylePlane,
    unhandled: Seq<NodeId>,
    hinted: Seq<NodeId>,
    bits: u32,
    below: Seq<NodeId>,
    changed: &Vec<(NodeId, u64)>,
    recalc: &F,
    marker: &M,
    after: StylePlane,
) -> bool {
    exists|mid: StylePlane, passes: Seq<StylePlane>, found: Seq<Option<ComputedStyle>>|
        {
            &&& marked(dom, start.entries@, mid.entries@, unhandled, hinted, bits, below)
            &&& mid.contain_intrinsic == start.contain_intrinsic
            &&& mid.marker_styles == start.marker_styles
            &&& #[trigger] cascaded(dom, mid, changed, recalc, marker, passes, found, after)
        }
}

/// Whether `after` is what a restyle of `before` comes to: a cascade over it
/// without damage and with some nodes marked.
pub open spec fn restyled<
    F: Fn(StylePlane, NodeId, &Vec<(NodeId, u64)>) -> StylePlane,
    M: Fn(&StylePlane, NodeId) -> Option<ComputedStyle>,
>(
    dom: &Dom,
    before: StylePlane,
    unhandled: Seq<NodeId>,
    hinted: Seq<NodeId>,
    bits: u32,
    below: Seq<NodeId>,
    changed: &Vec<(NodeId, u64)>,
    recalc: &F,
    marker: &M,
    after: StylePlane,
) -> bool {
    exists|clean: StylePlane|
        {
            &&& #[trigger] plane_reset(before, clean)
            &&& traversed(
                dom,
                clean,
                unhandled,
                hinted,
                bits,
                below,
                changed,
                recalc,
                marker,
                after,
            )
        }
}

/// Runs a cascade over a plane with some nodes marked.
fn traverse_marked<
    F: Fn(StylePlane, NodeId, &Vec<(NodeId, u64)>) -> StylePlane,
    M: Fn(&StylePlane, NodeId) -> Option<ComputedStyle>,
>(
    dom: &Dom,
    mid: StylePlane,
    changed: &Vec<(NodeId, u64)>,
    recalc: &F,
    marker: &M,
    Ghost(start): Ghost<StylePlane>,
    Ghost(unhandled): Ghost<Seq<NodeId>>,
    Ghost(hinted): Ghost<Seq<NodeId>>,
    Ghost(bits): Ghost<u32>,
    Ghost(below): Ghost<Seq<NodeId>>,
) -> (after: StylePlane)
    requires
        dom.wf(),
        forall|p: StylePlane, n: NodeId| #[trigger] call_requires(*recalc, (p, n, changed)),
        forall|p: &StylePlane, n: NodeId| #[trigger] call_requires(*marker, (p, n)),
        marked(dom, start.entries@, mid.entries@, unhandled, hinted, bits, below),
        mid.contain_intrinsic == start.contain_intrinsic,
        mid.marker_styles == start.marker_styles,
    ensures
        traversed(
            dom,
            start,
            unhandled,
            hinted,
            bits,
            below,
            changed,
            recalc,
            marker,
            after,
        ),
{
    let after = cascade_traverse(dom, mid, changed, recalc, marker);
    proof {
        let (passes, found) = choose|
            passes: Seq<StylePlane>,
            found: Seq<Option<ComputedStyle>>,
        |
            cascaded(dom, mid, changed, recalc, marker, passes, found, after);
        assert(cascaded(dom, mid, changed, recalc, marker, passes, found, after));
    }
    after
}

/// Whether `after` is what a restyle of `before` comes to that no change of
/// state is part of.
pub open spec fn restyled_alone<
    F: Fn(StylePlane, NodeId, &Vec<(NodeId, u64)>) -> StylePlane,
    M: Fn(&StylePlane, NodeId) -> Option<ComputedStyle>,
>(
    dom: &Dom,
    before: StylePlane,
    unhandled: Seq<NodeId>,
    hinted: Seq<NodeId>,
    bits: u32,
    below: Seq<NodeId>,
    recalc: &F,
    marker: &M,
    after: StylePlane,
) -> bool {
    exists|nothing: &Vec<(NodeId, u64)>|
        nothing@.len() == 0 && #[trigger] restyled(
            dom,
            before,
            unhandled,
            hinted,
            bits,
            below,
            nothing,
            recalc,
            marker,
            after,
        )
}

/// Ends a restyle that no change of state is part of: runs the cascade.
fn restyle_marked<
    F: Fn(StylePlane, NodeId, &Vec<(NodeId, u64)>) -> StylePlane,
    M: Fn(&StylePlane, NodeId) -> Option<ComputedStyle>,
>(
    dom: &Dom,
    mid: StylePlane,
    recalc: &F,
    marker: &M,
    Ghost(before): Ghost<StylePlane>,
    Ghost(clean): Ghost<StylePlane>,
    Ghost(unhandled): Ghost<Seq<NodeId>>,
    Ghost(hinted): Ghost<Seq<NodeId>>,
    Ghost(bits): Ghost<u32>,
    Ghost(below): Ghost<Seq<NodeId>>,
) -> (after: StylePlane)
    requires
        dom.wf(),
        forall|p: StylePlane, n: NodeId, c: &Vec<(NodeId, u64)>| #[trigger]
            call_requires(*recalc, (p, n, c)),
        forall|p: &StylePlane, n: NodeId| #[trigger] call_requires(*marker, (p, n)),
        plane_reset(before, clean),
        marked(dom, clean.entries@, mid.entries@, unhandled, hinted, bits, below),
        mid.contain_intrinsic == clean.contain_intrinsic,
        mid.marker_styles == clean.marker_styles,
    ensures
        restyled_alone(dom, before, unhandled, hinted, bits, below, recalc, marker, after),
{
    let nothing: Vec<(NodeId, u64)> = Vec::new();
    let after = traverse_marked(
        dom,
        mid,
        &nothing,
        recalc,
        marker,
        Ghost(clean),
        Ghost(unhandled),
        Ghost(hinted),
        Ghost(bits),
        Ghost(below),
    );
    assert(restyled(
        dom,
        before,
        unhandled,
        hinted,
        bits,
        below,
        &nothing,
        recalc,
        marker,
        after,
    ));
    after
}

/// The nodes whose attributes the first `n` of some mutations changed.
pub open spec fn attribute_nodes(mutations: Seq<DomMutation<NodeId>>, n: nat) -> Seq<NodeId>
    decreases n,
{
    if n == 0 {
        Seq::empty()
    } else {
        let before = attribute_nodes(mutations, (n - 1) as nat);
        match mutations[n - 1] {
            DomMutation::AttributeChanged { node, .. } => before.push(node),
            _ => before,
        }
    }
}

/// The nodes whose `style` attribute the first `n` of some mutations changed.
pub open spec fn style_nodes(mutations: Seq<DomMutation<NodeId>>, n: nat) -> Seq<NodeId>
    decreases n,
{
    if n == 0 {
        Seq::empty()
    } else {
        let before = style_nodes(mutations, (n - 1) as nat);
        match mutations[n - 1] {
            DomMutation::AttributeChanged { node, name, .. } => if name.local@ == "style"@ {
                before.push(node)
            } else {
                before
            },
            _ => before,
        }
    }
}

/// Whether the nodes whose attributes some mutations changed are there.
pub open spec fn attribute_nodes_known(dom: &Dom, mutations: Seq<DomMutation<NodeId>>) -> bool {
    forall|i: int|
        0 <= i < mutations.len() ==> (#[trigger] mutations[i] matches DomMutation::AttributeChanged {
            node,
            ..
        } ==> dom.has(node))
}

/// Restyles after attributes changed. The changed elements' snapshots are used
/// again, an element whose `style` attribute changed gets the hint to replace
/// its declarations, and the traversal comes down to each of them. Other
/// mutations mark nothing.
pub fn restyle_with_snapshots<
    F: Fn(StylePlane, NodeId, &Vec<(NodeId, u64)>) -> StylePlane,
    M: Fn(&StylePlane, NodeId) -> Option<ComputedStyle>,
>(
    dom: &Dom,
    plane: StylePlane,
    mutations: &[DomMutation<NodeId>],
    recalc: &F,
    marker: &M,
) -> (r: (StylePlane, RestyleOutcome))
    requires
        dom.wf(),
        attribute_nodes_known(dom, mutations@),
        forall|p: StylePlane, n: NodeId, c: &Vec<(NodeId, u64)>| #[trigger]
            call_requires(*recalc, (p, n, c)),
        forall|p: &StylePlane, n: NodeId| #[trigger] call_requires(*marker, (p, n)),
    ensures
        restyled_alone(
            dom,
            plane,
            attribute_nodes(mutations@, mutations@.len()),
            style_nodes(mutations@, mutations@.len()),
            RESTYLE_STYLE_ATTRIBUTE,
            attribute_nodes(mutations@, mutations@.len()),
            recalc,
            marker,
            r.0,
        ),
        is_outcome(r.1, r.0.entries@, damaged(r.0.entries@).len() as int),
{
    let ghost before = plane;
    let mut plane = plane;
    reset_damage(&mut plane);
    let ghost start = plane;
    let ghost clean = plane.entries@;
    proof {
        lemma_marked_nothing(dom, clean, RESTYLE_STYLE_ATTRIBUTE);
    }
    let mut i: usize = 0;
    while i < mutations.len()
        invariant
            dom.wf(),
            attribute_nodes_known(dom, mutations@),
            i <= mutations@.len(),
            plane.contain_intrinsic == before.contain_intrinsic,
            plane.marker_styles == before.marker_styles,
            marked(
                dom,
                clean,
                plane.entries@,
                attribute_nodes(mutations@, i as nat),
                style_nodes(mutations@, i as nat),
                RESTYLE_STYLE_ATTRIBUTE,
                attribute_nodes(mutations@, i as nat),
            ),
        decreases mutations.len() - i,
    {
        let ghost now = plane.entries@;
        let ghost a = attribute_nodes(mutations@, i as nat);
        let ghost h = style_nodes(mutations@, i as nat);
        assert(attribute_nodes_known(dom, mutations@));
        match &mutations[i] {
            DomMutation::AttributeChanged { node, name, old_value } => {
                let id: NodeId = *node;
                let hint = str_eq(name.local.as_str(), "style");
                mark_node(dom, &mut plane, id, true, hint, RESTYLE_STYLE_ATTRIBUTE);
                proof {
                    let one = one_if(hint, id);
                    lemma_marked_again(
                        dom,
                        clean,
                        now,
                        plane.entries@,
                        a,
                        h,
                        a,
                        seq![id],
                        one,
                        seq![id],
                        RESTYLE_STYLE_ATTRIBUTE,
                    );
                    assert(a + seq![id] =~= attribute_nodes(mutations@, (i + 1) as nat));
                    assert(h + one =~= style_nodes(mutations@, (i + 1) as nat));
                }
            },
            _ => {},
        }
        i += 1;
    }
    let after = restyle_marked(
        dom,
        plane,
        recalc,
        marker,
        Ghost(before),
        Ghost(start),
        Ghost(attribute_nodes(mutations@, mutations@.len())),
        Ghost(style_nodes(mutations@, mutations@.len())),
        Ghost(RESTYLE_STYLE_ATTRIBUTE),
        Ghost(attribute_nodes(mutations@, mutations@.len())),
    );
    let count: usize = damaged_entry_count(&after);
    let outcome = outcome_of(&after, count);
    (after, outcome)
}

/// The nodes of some changes.
pub open spec fn changed_nodes(changed: Seq<(NodeId, u64)>) -> Seq<NodeId> {
    changed.map(|i: int, c: (NodeId, u64)| c.0)
}

/// Restyles after a host's interaction changed. Where it changes no state there
/// is nothing to do but to forget the damage; else the changed elements'
/// snapshots are used again and the traversal comes down to each of them.
pub fn restyle_for_interaction<
    F: Fn(StylePlane, NodeId, &Vec<(NodeId, u64)>) -> StylePlane,
    M: Fn(&StylePlane, NodeId) -> Option<ComputedStyle>,
>(
    dom: &Dom,
    plane: StylePlane,
    state: &InteractionState,
    recalc: &F,
    marker: &M,
) -> (r: (StylePlane, RestyleOutcome))
    requires
        dom.wf(),
        forall|k: NodeId| #[trigger] plane.entries@.contains_key(k) ==> dom.has(k),
        forall|p: StylePlane, n: NodeId, c: &Vec<(NodeId, u64)>| #[trigger]
            call_requires(*recalc, (p, n, c)),
        forall|p: &StylePlane, n: NodeId| #[trigger] call_requires(*marker, (p, n)),
    ensures
        exists|clean: StylePlane, set: StylePlane, changed: &Vec<(NodeId, u64)>|
            {
                &&& #[trigger] plane_reset(plane, clean)
                &&& #[trigger] interaction_applied(dom, clean, *state, set, changed@)
                &&& if changed@.len() == 0 {
                    &&& r.0 == set
                    &&& r.1 == (RestyleOutcome {
                        needs_relayout: false,
                        damage: 0,
                        restyled_elements: 0,
                    })
                } else {
                    &&& traversed(
                        dom,
                        set,
                        changed_nodes(changed@),
                        Seq::empty(),
                        0,
                        changed_nodes(changed@),
                        changed,
                        recalc,
                        marker,
                        r.0,
                    )
                    &&& is_outcome(r.1, r.0.entries@, damaged(r.0.entries@).len() as int)
                }
            },
{
    let ghost before = plane;
    let mut plane = plane;
    reset_damage(&mut plane);
    let ghost clean = plane;
    let changed = apply_interaction(dom, &mut plane, state);
    let ghost set = plane;
    assert(plane_reset(before, clean));
    assert(interaction_applied(dom, clean, *state, set, (&changed)@));
    if changed.len() == 0 {
        return (plane, RestyleOutcome::default());
    }
    let ghost none = Seq::<NodeId>::empty();
    proof {
        lemma_marked_nothing(dom, set.entries@, 0);
        assert forall|k: NodeId| #[trigger] set.entries@.contains_key(k) implies dom.has(k) by {
            lemma_reached_is_known(dom, *state, k);
        }
        assert(changed_nodes(changed@.take(0)) =~= none);
    }
    let mut i: usize = 0;
    while i < changed.len()
        invariant
            dom.wf(),
            forall|k: NodeId| #[trigger] set.entries@.contains_key(k) ==> dom.has(k),
            interaction_set(clean.entries@, desired_map(dom, *state), set.entries@),
            lists_changed(clean.entries@, desired_map(dom, *state), changed@),
            i <= changed@.len(),
            plane.contain_intrinsic == before.contain_intrinsic,
            plane.marker_styles == before.marker_styles,
            marked(
                dom,
                set.entries@,
                plane.entries@,
                changed_nodes(changed@.take(i as int)),
                Seq::empty(),
                0,
                changed_nodes(changed@.take(i as int)),
            ),
        decreases changed.len() - i,
    {
        let ghost now = plane.entries@;
        let ghost a = changed_nodes(changed@.take(i as int));
        let id = changed[i].0;
        assert(changed@.contains(changed@[i as int]));
        assert(changed@.contains((changed@[i as int].0, changed@[i as int].1)));
        mark_node(dom, &mut plane, id, true, false, 0);
        proof {
            let e = Seq::<NodeId>::empty();
            lemma_marked_again(
                dom,
                set.entries@,
                now,
                plane.entries@,
                a,
                e,
                a,
                seq![id],
                e,
                seq![id],
                0,
            );
            assert(a + seq![id] =~= changed_nodes(changed@.take(i + 1)));
            assert(e + e =~= e);
        }
        i += 1;
    }
    assert(changed@.take(i as int) =~= changed@);
    let after = traverse_marked(
        dom,
        plane,
        &changed,
        recalc,
        marker,
        Ghost(set),
        Ghost(changed_nodes(changed@)),
        Ghost(Seq::empty()),
        Ghost(0),
        Ghost(changed_nodes(changed@)),
    );
    let count: usize = damaged_entry_count(&after);
    let outcome = outcome_of(&after, count);
    (after, outcome)
}

/// Whether `set` is `clean` with the state of an interaction, and `changed`
/// lists what that changed.
pub open spec fn interaction_applied(
    dom: &Dom,
    clean: StylePlane,
    state: InteractionState,
    set: StylePlane,
    changed: Seq<(NodeId, u64)>,
) -> bool {
    &&& interaction_set(clean.entries@, desired_map(dom, state), set.entries@)
    &&& lists_changed(clean.entries@, desired_map(dom, state), changed)
    &&& set.contain_intrinsic == clean.contain_intrinsic
    &&& set.marker_styles == clean.marker_styles
}

proof fn lemma_chain_has(dom: &Dom, id: NodeId, k: NodeId)
    requires
        dom.wf(),
        dom.has(id),
        dom.chain(id).contains(k),
    ensures
        dom.has(k),
    decreases dom.depth_at(id),
{
    let i = dom.chain(id).index_of(k);
    match dom.parent_at(id) {
        Some(p) => {
            if i > 0 {
                assert(dom.chain(p)[i - 1] == k);
                lemma_chain_has(dom, p, k);
            }
        },
        None => {},
    }
}

proof fn lemma_reached_is_known(dom: &Dom, state: InteractionState, k: NodeId)
    requires
        dom.wf(),
    ensures
        is_reached(dom, state, k) ==> dom.has(k),
{
    dom.lemma_stack_order_visits(dom.root());
    if let Some(n) = target_node(dom, state.hovered) {
        if dom.chain(n).contains(k) {
            lemma_chain_has(dom, n, k);
        }
    }
    if let Some(n) = target_node(dom, state.active) {
        if dom.chain(n).contains(k) {
            lemma_chain_has(dom, n, k);
        }
    }
    if let Some(n) = target_node(dom, state.focused) {
        if dom.chain(n).contains(k) {
            lemma_chain_has(dom, n, k);
        }
    }
}

/// How many elements stand under the first `n` of some nodes, the nodes
/// themselves among them.
pub open spec fn total_elements(dom: &Dom, roots: Seq<NodeId>, n: nat) -> nat
    decreases n,
{
    if n == 0 {
        0
    } else {
        total_elements(dom, roots, (n - 1) as nat) + elements_of(
            dom,
            dom.order(roots[n - 1]),
        ).len()
    }
}

/// How many elements stand under a node, itself among them.
pub fn count_element_subtree(dom: &Dom, root: NodeId) -> (r: usize)
    requires
        dom.wf(),
        dom.has(root),
    ensures
        r == elements_of(dom, dom.order(root)).len(),
{
    let order = dom.document_order(root);
    proof {
        dom.lemma_order_visits(root);
        assert forall|j: int| 0 <= j < order@.len() implies dom.has(#[trigger] order@[j]) by {
            assert(order@.contains(order@[j]));
        }
    }
    pick_elements(dom, &order).len()
}

proof fn lemma_total_grows(dom: &Dom, roots: Seq<NodeId>, n: nat, m: nat)
    requires
        n <= m,
    ensures
        total_elements(dom, roots, n) <= total_elements(dom, roots, m),
    decreases m,
{
    if n < m {
        lemma_total_grows(dom, roots, n, (m - 1) as nat);
    }
}

/// Restyles the subtrees that a change of structure affects: their roots get
/// the hint to restyle everything under them, and the traversal comes down to
/// each. Every element of the subtrees counts as restyled.
pub fn restyle_structural<
    F: Fn(StylePlane, NodeId, &Vec<(NodeId, u64)>) -> StylePlane,
    M: Fn(&StylePlane, NodeId) -> Option<ComputedStyle>,
>(dom: &Dom, plane: StylePlane, roots: &[NodeId], recalc: &F, marker: &M) -> (r: (
    StylePlane,
    RestyleOutcome,
))
    requires
        dom.wf(),
        forall|i: int| 0 <= i < roots@.len() ==> dom.has(#[trigger] roots@[i]),
        total_elements(dom, roots@, roots@.len()) <= usize::MAX,
        forall|p: StylePlane, n: NodeId, c: &Vec<(NodeId, u64)>| #[trigger]
            call_requires(*recalc, (p, n, c)),
        forall|p: &StylePlane, n: NodeId| #[trigger] call_requires(*marker, (p, n)),
    ensures
        restyled_alone(
            dom,
            plane,
            Seq::empty(),
            roots@,
            RESTYLE_SUBTREE,
            roots@,
            recalc,
            marker,
            r.0,
        ),
        is_outcome(r.1, r.0.entries@, total_elements(dom, roots@, roots@.len()) as int),
{
    let ghost before = plane;
    let mut plane = plane;
    reset_damage(&mut plane);
    let ghost start = plane;
    let ghost none = Seq::<NodeId>::empty();
    proof {
        lemma_marked_nothing(dom, start.entries@, RESTYLE_SUBTREE);
        assert(roots@.take(0) =~= none);
    }
    let mut total: usize = 0;
    let mut i: usize = 0;
    while i < roots.len()
        invariant
            dom.wf(),
            none == Seq::<NodeId>::empty(),
            forall|j: int| 0 <= j < roots@.len() ==> dom.has(#[trigger] roots@[j]),
            total_elements(dom, roots@, roots@.len()) <= usize::MAX,
            i <= roots@.len(),
            total == total_elements(dom, roots@, i as nat),
            plane.contain_intrinsic == start.contain_intrinsic,
            plane.marker_styles == start.marker_styles,
            marked(
                dom,
                start.entries@,
                plane.entries@,
                none,
                roots@.take(i as int),
                RESTYLE_SUBTREE,
                roots@.take(i as int),
            ),
        decreases roots.len() - i,
    {
        let root = roots[i];
        assert(dom.has(roots@[i as int]));
        let ghost now = plane.entries@;
        proof {
            lemma_total_grows(dom, roots@, (i + 1) as nat, roots@.len());
        }
        total = total + count_element_subtree(dom, root);
        mark_node(dom, &mut plane, root, false, true, RESTYLE_SUBTREE);
        proof {
            let a = roots@.take(i as int);
            lemma_marked_again(
                dom,
                start.entries@,
                now,
                plane.entries@,
                none,
                a,
                a,
                none,
                seq![root],
                seq![root],
                RESTYLE_SUBTREE,
            );
            assert(none + none =~= none);
            assert(a + seq![root] =~= roots@.take(i + 1));
        }
        i += 1;
    }
    assert(roots@.take(i as int) =~= roots@);
    let after = restyle_marked(
        dom,
        plane,
        recalc,
        marker,
        Ghost(before),
        Ghost(start),
        Ghost(none),
        Ghost(roots@),
        Ghost(RESTYLE_SUBTREE),
        Ghost(roots@),
    );
    let outcome = outcome_of(&after, total);
    (after, outcome)
}

/// The elements among some nodes whose opaque ids are among some others.
pub open spec fn animating_of(dom: &Dom, animating: Seq<u64>, nodes: Seq<NodeId>) -> Seq<NodeId>
    decreases nodes.len(),
{
    if nodes.len() == 0 {
        Seq::empty()
    } else {
        let before = animating_of(dom, animating, nodes.drop_last());
        if dom.kind_at(nodes.last()) == NodeKind::Element && animating.contains(
            nodes.last() as u64,
        ) {
            before.push(nodes.last())
        } else {
            before
        }
    }
}

/// How many of some nodes a cascade has filled.
pub open spec fn filled_count(plane: StylePlane, nodes: Seq<NodeId>) -> nat
    decreases nodes.len(),
{
    if nodes.len() == 0 {
        0
    } else {
        filled_count(plane, nodes.drop_last()) + if plane.primary_at(nodes.last()) is Some {
            1nat
        } else {
            0nat
        }
    }
}

fn contains_id(ids: &[u64], id: u64) -> (r: bool)
    ensures
        r == ids@.contains(id),
{
    let mut i: usize = 0;
    while i < ids.len()
        invariant
            i <= ids@.len(),
            forall|j: int| 0 <= j < i ==> #[trigger] ids@[j] != id,
        decreases ids.len() - i,
    {
        if ids[i] == id {
            return true;
        }
        i += 1;
    }
    false
}

/// Restyles every element that is animating, by its opaque id: it gets the hint
/// to restyle itself, and the traversal comes down to it. Where nothing is
/// animating there is nothing to do but to forget the damage.
pub fn restyle_for_animation_tick<
    F: Fn(StylePlane, NodeId, &Vec<(NodeId, u64)>) -> StylePlane,
    M: Fn(&StylePlane, NodeId) -> Option<ComputedStyle>,
>(dom: &Dom, plane: StylePlane, animating: &[u64], recalc: &F, marker: &M) -> (r: (
    StylePlane,
    RestyleOutcome,
))
    requires
        dom.wf(),
        forall|p: StylePlane, n: NodeId, c: &Vec<(NodeId, u64)>| #[trigger]
            call_requires(*recalc, (p, n, c)),
        forall|p: &StylePlane, n: NodeId| #[trigger] call_requires(*marker, (p, n)),
    ensures
        animating@.len() == 0 ==> plane_reset(plane, r.0) && r.1 == (RestyleOutcome {
            needs_relayout: false,
            damage: 0,
            restyled_elements: 0,
        }),
        animating@.len() > 0 ==> {
            let targets = animating_of(dom, animating@, dom.stack_order(dom.root()));
            &&& restyled_alone(
                dom,
                plane,
                Seq::empty(),
                targets,
                RESTYLE_SELF,
                targets,
                recalc,
                marker,
                r.0,
            )
            &&& is_outcome(r.1, r.0.entries@, filled_count(plane, targets) as int)
        },
{
    let ghost before = plane;
    let mut plane = plane;
    reset_damage(&mut plane);
    let ghost start = plane;
    assert(plane_reset(before, start));
    if animating.len() == 0 {
        return (plane, RestyleOutcome::default());
    }
    let walk = dom.walk_with_stack(dom.document());
    let ghost none = Seq::<NodeId>::empty();
    proof {
        dom.lemma_stack_order_visits(dom.root());
        lemma_marked_nothing(dom, start.entries@, RESTYLE_SELF);
    }
    let mut count: usize = 0;
    let mut i: usize = 0;
    while i < walk.len()
        invariant
            dom.wf(),
            none == Seq::<NodeId>::empty(),
            walk@ == dom.stack_order(dom.root()),
            forall|x: NodeId| #[trigger]
                dom.stack_order(dom.root()).contains(x) ==> dom.is_within(x, dom.root()),
            i <= walk@.len(),
            plane_reset(before, start),
            count <= i,
            count == filled_count(before, animating_of(dom, animating@, walk@.take(i as int))),
            plane.contain_intrinsic == start.contain_intrinsic,
            plane.marker_styles == start.marker_styles,
            marked(
                dom,
                start.entries@,
                plane.entries@,
                none,
                animating_of(dom, animating@, walk@.take(i as int)),
                RESTYLE_SELF,
                animating_of(dom, animating@, walk@.take(i as int)),
            ),
        decreases walk.len() - i,
    {
        let id = walk[i];
        assert(walk@.contains(walk@[i as int]));
        let ghost now = plane.entries@;
        let ghost a = animating_of(dom, animating@, walk@.take(i as int));
        assert(walk@.take(i + 1).drop_last() =~= walk@.take(i as int));
        if dom.kind(id) == NodeKind::Element && contains_id(animating, id as u64) {
            let filled = match plane.entries.get(id) {
                Some(e) => e.primary.is_some(),
                None => false,
            };
            proof {
                assert(now.contains_key(id) ==> now[id] == now[id]);
                assert(start.entries@.contains_key(id) ==> start.entries@[id]
                    == start.entries@[id]);
                assert(filled == (before.primary_at(id) is Some));
                assert(a.push(id).drop_last() =~= a);
            }
            if filled {
                count += 1;
            }
            mark_node(dom, &mut plane, id, false, true, RESTYLE_SELF);
            proof {
                lemma_marked_again(
                    dom,
                    start.entries@,
                    now,
                    plane.entries@,
                    none,
                    a,
                    a,
                    none,
                    seq![id],
                    seq![id],
                    RESTYLE_SELF,
                );
                assert(none + none =~= none);
                assert(a + seq![id] =~= a.push(id));
            }
        }
        i += 1;
    }
    assert(walk@.take(i as int) =~= walk@);
    let ghost targets = animating_of(dom, animating@, walk@);
    let after = restyle_marked(
        dom,
        plane,
        recalc,
        marker,
        Ghost(before),
        Ghost(start),
        Ghost(none),
        Ghost(targets),
        Ghost(RESTYLE_SELF),
        Ghost(targets),
    );
    let outcome = outcome_of(&after, count);
    (after, outcome)
}

// ---------------------------------------------------------------------------
// Laws
// ---------------------------------------------------------------------------
/// A node and what is above it are what it is within.
pub proof fn a_chain_is_what_a_node_is_within(dom: &Dom, n: NodeId, k: NodeId)
    requires
        dom.wf(),
        dom.has(n),
    ensures
        dom.chain(n).contains(k) <==> dom.has(k) && dom.is_within(n, k),
{
    if dom.chain(n).contains(k) {
        let i = dom.chain(n).index_of(k);
        dom.a_chain_goes_up_step_by_step(n, i as nat);
        dom.lemma_rise_is_within(n, i as nat);
    }
    if dom.has(k) && dom.is_within(n, k) {
        let i = (dom.depth_at(n) - dom.depth_at(k)) as nat;
        dom.a_chain_goes_up_step_by_step(n, i);
        assert(dom.chain(n)[i as int] == k);
    }
}

/// Whether an opaque id is that of a node of the document which stands in `k`, or is
/// `k` itself.
pub open spec fn points_into(dom: &Dom, source: Option<u64>, k: NodeId) -> bool {
    source matches Some(s) && s <= usize::MAX && dom.is_within(s as usize, dom.root())
        && dom.has(k) && dom.is_within(s as usize, k)
}

/// Hover and active state show on the node that is pointed at and on everything that it
/// stands in, focus on the focused node alone, and focus within on it and on everything
/// that it stands in. An id that is of no node of the document shows nowhere.
pub proof fn an_interaction_reaches_up_from_its_node(
    before: Map<NodeId, StyleEntry>,
    dom: &Dom,
    state: InteractionState,
    after: Map<NodeId, StyleEntry>,
    k: NodeId,
)
    requires
        dom.wf(),
        interaction_set(before, desired_map(dom, state), after),
        before.contains_key(k),
    ensures
        after[k].state & 0x4 == 0x4 <==> points_into(dom, state.hovered, k),
        after[k].state & 0x1 == 0x1 <==> points_into(dom, state.active, k),
        after[k].state & 0x2 == 0x2 <==> points_into(dom, state.focused, k) && state.focused == Some(
            k as u64,
        ),
        after[k].state & 0x8000_0000 == 0x8000_0000 <==> points_into(dom, state.focused, k),
        after[k].state & !0x8000_0007u64 == before[k].state & !0x8000_0007u64,
        after[k] == (StyleEntry { state: after[k].state, ..before[k] }),
{
    an_interaction_shows_where_it_points(before, dom, state, after, k);
    lemma_points_into(dom, state.hovered, k);
    lemma_points_into(dom, state.active, k);
    lemma_points_into(dom, state.focused, k);
    assert(with_blanks(before, desired_map(dom, state).dom())[k] == before[k]);
    if target_node(dom, state.focused) == Some(k) {
        assert(dom.rise(k, 0) == Some(k));
    }
}

proof fn lemma_points_into(dom: &Dom, source: Option<u64>, k: NodeId)
    requires
        dom.wf(),
    ensures
        on_chain(dom, target_node(dom, source), k) <==> points_into(dom, source, k),
        target_node(dom, source) matches Some(n) ==> source == Some(n as u64) && dom.has(n)
            && dom.is_within(n, dom.root()),
        target_node(dom, source) == Some(k) <==> points_into(dom, source, k) && source == Some(
            k as u64,
        ),
{
    if let Some(s) = source {
        if s <= usize::MAX {
            let n = s as usize;
            dom.walks_meet_exactly_the_subtree(n, dom.root());
            if dom.is_within(n, dom.root()) {
                a_chain_is_what_a_node_is_within(dom, n, k);
                assert(dom.rise(n, 0) == Some(n));
            }
        }
    }
}

/// Made ready for a traversal, every element of the document has an entry. It is
/// checked where it is an `<input>` with a `checked` attribute and not otherwise, and
/// its other states stay; it holds the text of its `style` attribute, where that is
/// more than white space; all else is as it was, or blank.
pub proof fn an_element_is_made_ready_by_its_attributes(
    dom: &Dom,
    before: Map<NodeId, StyleEntry>,
    after: Map<NodeId, StyleEntry>,
    k: NodeId,
)
    requires
        dom.wf(),
        made_ready(dom, before, after),
        dom.is_within(k, dom.root()),
        dom.kind_at(k) == NodeKind::Element,
    ensures
        after.contains_key(k),
        ({
            let start = if before.contains_key(k) {
                before[k]
            } else {
                style_plane::blank_entry()
            };
            let e = after[k];
            &&& e.state & 0x20 == 0x20 <==> dom.is_named(k, "input"@) && dom.plain_attr(
                k,
                "checked"@,
            ) is Some
            &&& e.state & !0x20u64 == start.state & !0x20u64
            &&& e == (StyleEntry { state: e.state, inline_style: e.inline_style, ..start })
            &&& match dom.plain_attr(k, "style"@) {
                Some(css) => if text::trimmed(css).len() > 0 {
                    text::text_of(e.inline_style) == Some(css)
                } else {
                    e.inline_style == start.inline_style
                },
                None => e.inline_style == start.inline_style,
            }
        }),
{
    dom.walks_meet_exactly_the_subtree(k, dom.root());
    let walk = dom.stack_order(dom.root());
    let start = populated(dom, before, walk);
    assert(start.contains_key(k));
    let first = if before.contains_key(k) {
        before[k]
    } else {
        style_plane::blank_entry()
    };
    let s = first.state;
    assert(start[k] == (StyleEntry { state: state_by_attributes(dom, k, s), ..first }));
    assert(took_inline(start[k], inline_css(dom, k), after[k]));
    assert((s | CHECKED) & 0x20 == 0x20 && (s | CHECKED) & !0x20u64 == s & !0x20u64 && (s
        & !CHECKED) & 0x20 != 0x20 && (s & !CHECKED) & !0x20u64 == s & !0x20u64) by (bit_vector);
}

/// What is no element of the document is not touched when the elements are made ready.
pub proof fn nothing_else_is_made_ready(
    dom: &Dom,
    before: Map<NodeId, StyleEntry>,
    after: Map<NodeId, StyleEntry>,
    k: NodeId,
)
    requires
        dom.wf(),
        made_ready(dom, before, after),
        !(dom.is_within(k, dom.root()) && dom.kind_at(k) == NodeKind::Element),
    ensures
        after.contains_key(k) <==> before.contains_key(k),
        before.contains_key(k) ==> after[k] == before[k],
{
    dom.walks_meet_exactly_the_subtree(k, dom.root());
    let walk = dom.stack_order(dom.root());
    let start = populated(dom, before, walk);
    if before.contains_key(k) {
        assert(start.contains_key(k));
        assert(start[k] == before[k]);
        assert(took_inline(
            start[k],
            if walk.contains(k) {
                inline_css(dom, k)
            } else {
                None
            },
            after[k],
        ));
    }
}

/// Whether a mutation changes an attribute of a node.
pub open spec fn changes_attribute_of(m: DomMutation<NodeId>, k: NodeId) -> bool {
    m matches DomMutation::AttributeChanged { node, .. } && node == k
}

/// Whether a mutation changes the `style` attribute of a node.
pub open spec fn changes_style_of(m: DomMutation<NodeId>, k: NodeId) -> bool {
    m matches DomMutation::AttributeChanged { node, name, .. } && node == k && name.local@
        == "style"@
}

proof fn lemma_attribute_nodes(mutations: Seq<DomMutation<NodeId>>, n: nat, k: NodeId)
    requires
        n <= mutations.len(),
    ensures
        attribute_nodes(mutations, n).contains(k) <==> exists|i: int|
            0 <= i < n && changes_attribute_of(#[trigger] mutations[i], k),
        style_nodes(mutations, n).contains(k) <==> exists|i: int|
            0 <= i < n && changes_style_of(#[trigger] mutations[i], k),
    decreases n,
{
    if n > 0 {
        let m = (n - 1) as nat;
        lemma_attribute_nodes(mutations, m, k);
        let a = attribute_nodes(mutations, m);
        let s = style_nodes(mutations, m);
        if let DomMutation::AttributeChanged { node, name, .. } = mutations[n - 1] {
            lemma_contains_add(a, seq![node], k);
            lemma_contains_add(s, seq![node], k);
            assert(a + seq![node] =~= a.push(node));
            assert(s + seq![node] =~= s.push(node));
            assert(seq![node][0] == node);
        }
    }
}

/// A batch of attribute changes marks what it changes: the snapshot of each node whose
/// attribute changed is to be used, everything above it is to be visited, and a node
/// whose `style` attribute changed is to take that over where it is styled. Nothing else
/// is marked.
pub proof fn a_changed_attribute_is_marked(
    dom: &Dom,
    before: Map<NodeId, StyleEntry>,
    after: Map<NodeId, StyleEntry>,
    mutations: Seq<DomMutation<NodeId>>,
    k: NodeId,
)
    requires
        dom.wf(),
        before.contains_key(k),
        attribute_nodes_known(dom, mutations),
        marked(
            dom,
            before,
            after,
            attribute_nodes(mutations, mutations.len()),
            style_nodes(mutations, mutations.len()),
            RESTYLE_STYLE_ATTRIBUTE,
            attribute_nodes(mutations, mutations.len()),
        ),
    ensures
        after[k].handled_snapshot <==> before[k].handled_snapshot && forall|i: int|
            0 <= i < mutations.len() ==> !changes_attribute_of(#[trigger] mutations[i], k),
        after[k].hint == (if before[k].primary is Some && exists|i: int|
            0 <= i < mutations.len() && changes_style_of(#[trigger] mutations[i], k) {
            before[k].hint | 0x200
        } else {
            before[k].hint
        }),
        forall|i: int|
            0 <= i < mutations.len() ==> (#[trigger] mutations[i] matches
                DomMutation::AttributeChanged { node, .. } ==> (dom.has(k) && dom.is_within(node, k)
                && node != k ==> after[k].dirty_descendants)),
        after[k] == (StyleEntry {
            handled_snapshot: after[k].handled_snapshot,
            hint: after[k].hint,
            dirty_descendants: after[k].dirty_descendants,
            ..before[k]
        }),
{
    lemma_attribute_nodes(mutations, mutations.len(), k);
    let below = attribute_nodes(mutations, mutations.len());
    assert forall|i: int| 0 <= i < mutations.len() implies (#[trigger] mutations[i] matches
        DomMutation::AttributeChanged { node, .. } ==> (dom.has(k) && dom.is_within(node, k) && node
        != k ==> after[k].dirty_descendants)) by {
        if let DomMutation::AttributeChanged { node, .. } = mutations[i] {
            if dom.has(k) && dom.is_within(node, k) && node != k {
                lemma_attribute_nodes(mutations, mutations.len(), node);
                assert(changes_attribute_of(mutations[i], node));
                assert(below.contains(node));
                let j = below.index_of(node);
                dom.lemma_parent_is_within(node, k);
                let p = dom.parent_at(node)->0;
                assert(dom.has(p));
                a_chain_is_what_a_node_is_within(dom, p, k);
                assert(is_above(dom, k, below[j]));
            }
        }
    }
}

/// An affected subtree is marked to be restyled from its root down, where the root is
/// styled, and everything above it to be visited.
pub proof fn an_affected_subtree_is_marked(
    dom: &Dom,
    before: Map<NodeId, StyleEntry>,
    after: Map<NodeId, StyleEntry>,
    roots: Seq<NodeId>,
    i: int,
    k: NodeId,
)
    requires
        dom.wf(),
        marked(dom, before, after, Seq::empty(), roots, RESTYLE_SUBTREE, roots),
        0 <= i < roots.len(),
        dom.has(roots[i]),
    ensures
        before.contains_key(roots[i]) && before[roots[i]].primary is Some
            ==> after[roots[i]].hint & 0x9 == 0x9,
        before.contains_key(k) && dom.has(k) && dom.is_within(roots[i], k) && roots[i] != k
            ==> after[k].dirty_descendants,
{
    let root = roots[i];
    assert(roots.contains(root));
    if before.contains_key(root) && before[root].primary is Some {
        let h = before[root].hint;
        assert(after[root].hint == h | RESTYLE_SUBTREE);
        assert((h | RESTYLE_SUBTREE) & 0x9 == 0x9) by (bit_vector);
    }
    if before.contains_key(k) && dom.has(k) && dom.is_within(root, k) && root != k {
        dom.lemma_parent_is_within(root, k);
        let p = dom.parent_at(root)->0;
        assert(dom.has(p));
        a_chain_is_what_a_node_is_within(dom, p, k);
        assert(is_above(dom, k, roots[i]));
    }
}

/// The elements among some nodes are those of them that are elements, in their order,
/// the animating ones those whose ids are among the given, and the list items those
/// `<li>` elements that are styled. How many nodes are styled is how many of them are.
pub proof fn some_nodes_are_picked_by_what_they_are(
    dom: &Dom,
    plane: StylePlane,
    animating: Seq<u64>,
    nodes: Seq<NodeId>,
)
    ensures
        elements_of(dom, nodes) == nodes.filter(
            |k: NodeId| dom.kind_at(k) == NodeKind::Element,
        ),
        animating_of(dom, animating, nodes) == nodes.filter(
            |k: NodeId| dom.kind_at(k) == NodeKind::Element && animating.contains(k as u64),
        ),
        items_of(dom, plane, nodes) == nodes.filter(
            |k: NodeId| dom.is_named(k, "li"@) && plane.primary_at(k) is Some,
        ),
        filled_count(plane, nodes) == nodes.filter(
            |k: NodeId| plane.primary_at(k) is Some,
        ).len(),
    decreases nodes.len(),
{
    reveal(Seq::filter);
    if nodes.len() > 0 {
        some_nodes_are_picked_by_what_they_are(dom, plane, animating, nodes.drop_last());
    }
}

/// The markers that are kept are those of the items that have one, and nothing else.
pub proof fn a_marker_is_kept_where_there_is_one(
    m: Map<NodeId, ComputedStyle>,
    items: Seq<NodeId>,
    found: Seq<Option<ComputedStyle>>,
    k: NodeId,
)
    requires
        items.no_duplicates(),
        found.len() == items.len(),
        holds_markers(m, markers_of(items, found, items.len())),
    ensures
        m.contains_key(k) <==> exists|i: int|
            0 <= i < items.len() && #[trigger] items[i] == k && found[i] is Some,
        forall|i: int|
            0 <= i < items.len() && (#[trigger] found[i]) is Some ==> m.contains_key(items[i])
                && m[items[i]] == found[i]->0,
{
    let n = items.len();
    let all = markers_of(items, found, n);
    lemma_markers_of(items, found, n);
    assert forall|i: int| 0 <= i < items.len() && (#[trigger] found[i]) is Some implies m.contains_key(
        items[i],
    ) && m[items[i]] == found[i]->0 by {
        let j = all.index_of((items[i], found[i]->0));
        assert(all[j].0 == items[i]);
    }
    if m.contains_key(k) {
        let j = choose|j: int| 0 <= j < all.len() && #[trigger] all[j].0 == k;
        assert(is_marker_of(items, found, n, all[j]));
    }
    if exists|i: int| 0 <= i < items.len() && #[trigger] items[i] == k && found[i] is Some {
        let i = choose|i: int| 0 <= i < items.len() && #[trigger] items[i] == k && found[i] is Some;
        assert(found[i] is Some);
    }
}

spec fn is_marker_of(
    items: Seq<NodeId>,
    found: Seq<Option<ComputedStyle>>,
    n: nat,
    marker: (NodeId, ComputedStyle),
) -> bool {
    exists|i: int|
        0 <= i < n && #[trigger] items[i] == marker.0 && found[i] == Some(marker.1)
}

proof fn lemma_markers_of(items: Seq<NodeId>, found: Seq<Option<ComputedStyle>>, n: nat)
    requires
        n <= items.len(),
        n <= found.len(),
    ensures
        forall|i: int|
            0 <= i < n && (#[trigger] found[i]) is Some ==> markers_of(items, found, n).contains(
                (items[i], found[i]->0),
            ),
        forall|j: int|
            0 <= j < markers_of(items, found, n).len() ==> is_marker_of(
                items,
                found,
                n,
                #[trigger] markers_of(items, found, n)[j],
            ),
    decreases n,
{
    if n > 0 {
        let m = (n - 1) as nat;
        lemma_markers_of(items, found, m);
        let before = markers_of(items, found, m);
        let all = markers_of(items, found, n);
        assert forall|i: int| 0 <= i < n && (#[trigger] found[i]) is Some implies all.contains(
            (items[i], found[i]->0),
        ) by {
            if i < m {
                let j = before.index_of((items[i], found[i]->0));
                assert(all[j] == before[j]);
            } else {
                assert(all[all.len() - 1] == (items[i], found[i]->0));
            }
        }
        assert forall|j: int| 0 <= j < all.len() implies is_marker_of(
            items,
            found,
            n,
            #[trigger] all[j],
        ) by {
            if j < before.len() {
                assert(all[j] == before[j]);
                assert(is_marker_of(items, found, m, before[j]));
            } else {
                assert(items[n - 1] == all[j].0);
            }
        }
    }
}

} // verus!
