//! Elements as they were before a batch of mutations, for a restyle that asks which
//! selectors the changed attributes matched.
use vstd::prelude::*;
use vstd::string::*;
use crate::dom::{Attribute, Dom, NodeId};
use crate::invalidate::DomMutation;
use crate::node_map::NodeMap;
use crate::text;
use crate::text::str_eq;

verus! {

/// An attribute as it was.
pub struct OldAttribute {
    pub ns: String,
    pub local: String,
    pub value: String,
}

/// An element as it was: its attributes, which kinds of them have changed since, and
/// the local names of those that have, the last change first.
pub struct Snapshot {
    pub attributes: Vec<OldAttribute>,
    pub class_changed: bool,
    pub id_changed: bool,
    pub other_changed: bool,
    pub changed: Vec<String>,
}

/// An attribute's namespace, local name and value.
pub type AttrModel = (Seq<char>, Seq<char>, Seq<char>);

impl View for OldAttribute {
    type V = AttrModel;

    open spec fn view(&self) -> AttrModel {
        (self.ns@, self.local@, self.value@)
    }
}

/// What a snapshot holds.
pub struct SnapshotModel {
    pub attributes: Seq<AttrModel>,
    pub class_changed: bool,
    pub id_changed: bool,
    pub other_changed: bool,
    pub changed: Seq<Seq<char>>,
}

impl View for Snapshot {
    type V = SnapshotModel;

    open spec fn view(&self) -> SnapshotModel {
        SnapshotModel {
            attributes: self.attributes@.map(|i: int, a: OldAttribute| a@),
            class_changed: self.class_changed,
            id_changed: self.id_changed,
            other_changed: self.other_changed,
            changed: self.changed@.map(|i: int, s: String| s@),
        }
    }
}

/// The first `n` of some attributes, those with a name left out.
pub open spec fn without(attributes: Seq<AttrModel>, ns: Seq<char>, local: Seq<char>, n: nat) -> Seq<
    AttrModel,
>
    decreases n,
{
    if n == 0 {
        Seq::empty()
    } else {
        let before = without(attributes, ns, local, (n - 1) as nat);
        if attributes[n - 1].0 == ns && attributes[n - 1].1 == local {
            before
        } else {
            before.push(attributes[n - 1])
        }
    }
}

/// An element as it is.
pub open spec fn as_it_is(dom: &Dom, id: NodeId) -> SnapshotModel {
    SnapshotModel {
        attributes: dom.attributes_at(id).map(|i: int, a: Attribute| (a.ns@, a.local@, a.value@)),
        class_changed: false,
        id_changed: false,
        other_changed: false,
        changed: Seq::empty(),
    }
}

/// An element before a change of one attribute.
pub open spec fn undone(
    s: SnapshotModel,
    ns: Seq<char>,
    local: Seq<char>,
    old_value: Option<Seq<char>>,
) -> SnapshotModel {
    let rest = without(s.attributes, ns, local, s.attributes.len());
    SnapshotModel {
        attributes: match old_value {
            Some(v) => rest.push((ns, local, v)),
            None => rest,
        },
        class_changed: s.class_changed || local == "class"@,
        id_changed: s.id_changed || local == "id"@,
        other_changed: s.other_changed || (local != "class"@ && local != "id"@),
        changed: s.changed.push(local),
    }
}

/// An element of a document as it was before the mutations from number `k` on; `None`
/// where none of them changes an attribute of it.
pub open spec fn before(dom: &Dom, mutations: Seq<DomMutation<NodeId>>, k: nat, id: NodeId) -> Option<
    SnapshotModel,
>
    decreases mutations.len() - k,
{
    if k >= mutations.len() {
        None
    } else {
        let later = before(dom, mutations, k + 1, id);
        match mutations[k as int] {
            DomMutation::AttributeChanged { node, name, old_value } if node == id && dom.has(id) => {
                let s = match later {
                    Some(s) => s,
                    None => as_it_is(dom, id),
                };
                Some(undone(s, name.ns@, name.local@, text::text_of(old_value)))
            },
            _ => later,
        }
    }
}

/// What some snapshots hold of an element.
pub open spec fn held(m: Map<NodeId, Snapshot>, id: NodeId) -> Option<SnapshotModel> {
    if m.contains_key(id) {
        Some(m[id]@)
    } else {
        None
    }
}

fn copied(s: &String) -> (r: String)
    ensures
        r@ == s@,
{
    s.as_str().to_owned()
}

fn snapshot_now(dom: &Dom, id: NodeId) -> (r: Snapshot)
    requires
        dom.has(id),
    ensures
        r@ == as_it_is(dom, id),
{
    let now = dom.attributes(id);
    let mut attributes: Vec<OldAttribute> = Vec::new();
    let mut i: usize = 0;
    while i < now.len()
        invariant
            i <= now@.len(),
            attributes@.len() == i,
            forall|j: int|
                0 <= j < i ==> (#[trigger] attributes@[j])@ == (
                    now@[j].ns@,
                    now@[j].local@,
                    now@[j].value@,
                ),
        decreases now.len() - i,
    {
        let a = &now[i];
        attributes.push(
            OldAttribute { ns: copied(&a.ns), local: copied(&a.local), value: copied(&a.value) },
        );
        i += 1;
    }
    let r = Snapshot {
        attributes,
        class_changed: false,
        id_changed: false,
        other_changed: false,
        changed: Vec::new(),
    };
    assert(r@.attributes =~= as_it_is(dom, id).attributes);
    assert(r@.changed =~= Seq::<Seq<char>>::empty());
    r
}

fn undo(s: Snapshot, ns: &str, local: &str, old_value: Option<&str>) -> (r: Snapshot)
    ensures
        r@ == undone(s@, ns@, local@, text::view_of(old_value)),
{
    let ghost all = s@.attributes;
    let mut kept: Vec<OldAttribute> = Vec::new();
    let mut i: usize = 0;
    assert(kept@.map(|i: int, a: OldAttribute| a@) =~= Seq::<AttrModel>::empty());
    while i < s.attributes.len()
        invariant
            i <= s.attributes@.len(),
            all == s.attributes@.map(|i: int, a: OldAttribute| a@),
            kept@.map(|i: int, a: OldAttribute| a@) == without(all, ns@, local@, i as nat),
        decreases s.attributes.len() - i,
    {
        let a = &s.attributes[i];
        assert(all[i as int] == a@);
        if !(str_eq(a.ns.as_str(), ns) && str_eq(a.local.as_str(), local)) {
            let ghost known = kept@;
            let one = OldAttribute {
                ns: copied(&a.ns),
                local: copied(&a.local),
                value: copied(&a.value),
            };
            kept.push(one);
            assert(kept@.map(|i: int, a: OldAttribute| a@) =~= known.map(
                |i: int, a: OldAttribute| a@,
            ).push(one@));
        }
        i += 1;
    }
    let ghost rest = kept@;
    if let Some(v) = old_value {
        let one = OldAttribute {
            ns: ns.to_owned(),
            local: local.to_owned(),
            value: v.to_owned(),
        };
        kept.push(one);
        assert(kept@.map(|i: int, a: OldAttribute| a@) =~= rest.map(
            |i: int, a: OldAttribute| a@,
        ).push(one@));
    }
    let class = str_eq(local, "class");
    let id = str_eq(local, "id");
    let mut changed = s.changed;
    let ghost names = changed@;
    changed.push(local.to_owned());
    assert(changed@.map(|i: int, s: String| s@) =~= names.map(|i: int, s: String| s@).push(local@));
    Snapshot {
        attributes: kept,
        class_changed: s.class_changed || class,
        id_changed: s.id_changed || id,
        other_changed: s.other_changed || !(class || id),
        changed,
    }
}

/// The elements whose attributes a batch of mutations changed, as they were before it:
/// the changes are undone, the last one first. A mutation of a node that is not there
/// is passed over.
pub fn build_snapshot_map(dom: &Dom, mutations: &[DomMutation<NodeId>]) -> (r: NodeMap<Snapshot>)
    ensures
        forall|id: NodeId| #[trigger] held(r@, id) == before(dom, mutations@, 0, id),
{
    let mut found: NodeMap<Snapshot> = NodeMap::new();
    let mut k: usize = mutations.len();
    while k > 0
        invariant
            k <= mutations@.len(),
            forall|id: NodeId| #[trigger] held(found@, id) == before(dom, mutations@, k as nat, id),
        decreases k,
    {
        let ghost was = found@;
        let at: usize = k - 1;
        if let DomMutation::AttributeChanged { node, name, old_value } = &mutations[at] {
            let id: NodeId = *node;
            if id < dom.len() {
                assert(held(was, id) == before(dom, mutations@, k as nat, id));
                let later = match found.remove(id) {
                    Some(s) => s,
                    None => snapshot_now(dom, id),
                };
                let old = match old_value {
                    Some(v) => Some(v.as_str()),
                    None => None,
                };
                let s = undo(later, name.ns.as_str(), name.local.as_str(), old);
                found.insert(id, s);
            }
        }
        assert forall|id: NodeId| #[trigger]
            held(found@, id) == before(dom, mutations@, at as nat, id) by {
            assert(held(was, id) == before(dom, mutations@, k as nat, id));
        }
        k = at;
    }
    found
}

// ---------------------------------------------------------------------------
// Laws
// ---------------------------------------------------------------------------
/// The value of the attribute with a name among some.
pub open spec fn value_in(attributes: Seq<AttrModel>, ns: Seq<char>, local: Seq<char>) -> Option<
    Seq<char>,
>
    decreases attributes.len(),
{
    if attributes.len() == 0 {
        None
    } else if attributes.last().0 == ns && attributes.last().1 == local {
        Some(attributes.last().2)
    } else {
        value_in(attributes.drop_last(), ns, local)
    }
}

/// Whether mutation number `k` changes an attribute of an element.
pub open spec fn changes(
    mutations: Seq<DomMutation<NodeId>>,
    k: int,
    id: NodeId,
    ns: Seq<char>,
    local: Seq<char>,
) -> bool {
    mutations[k] matches DomMutation::AttributeChanged { node, name, .. } && node == id && name.ns@
        == ns && name.local@ == local
}

proof fn lemma_without(
    attributes: Seq<AttrModel>,
    ns: Seq<char>,
    local: Seq<char>,
    n: nat,
    other_ns: Seq<char>,
    other: Seq<char>,
)
    requires
        n <= attributes.len(),
    ensures
        value_in(without(attributes, ns, local, n), other_ns, other) == (if other_ns == ns && other
            == local {
            None
        } else {
            value_in(attributes.take(n as int), other_ns, other)
        }),
    decreases n,
{
    if n > 0 {
        lemma_without(attributes, ns, local, (n - 1) as nat, other_ns, other);
        let a = without(attributes, ns, local, (n - 1) as nat);
        let head = attributes.take(n as int);
        assert(head.drop_last() =~= attributes.take(n - 1));
        assert(head.last() == attributes[n - 1]);
        assert(a.push(attributes[n - 1]).drop_last() =~= a);
    }
}

/// A snapshot has each attribute as it was before the batch: one that the batch changes
/// has the old value of its first change, and any other the value that it has now.
pub proof fn a_snapshot_is_from_before_the_batch(
    dom: &Dom,
    mutations: Seq<DomMutation<NodeId>>,
    k: nat,
    id: NodeId,
    ns: Seq<char>,
    local: Seq<char>,
    first: int,
)
    requires
        k <= mutations.len(),
        dom.has(id),
        k <= first <= mutations.len(),
        first < mutations.len() ==> changes(mutations, first, id, ns, local),
        forall|j: int| k <= j < first ==> !#[trigger] changes(mutations, j, id, ns, local),
    ensures
        before(dom, mutations, k, id) matches Some(s) ==> value_in(s.attributes, ns, local) == (
        if first < mutations.len() {
            match mutations[first] {
                DomMutation::AttributeChanged { old_value, .. } => text::text_of(old_value),
                _ => None,
            }
        } else {
            value_in(as_it_is(dom, id).attributes, ns, local)
        }),
        first < mutations.len() ==> before(dom, mutations, k, id) is Some,
    decreases mutations.len() - k,
{
    if k < mutations.len() {
        let later = before(dom, mutations, k + 1, id);
        if first > k {
            assert(!changes(mutations, k as int, id, ns, local));
            a_snapshot_is_from_before_the_batch(dom, mutations, k + 1, id, ns, local, first);
        }
        if let DomMutation::AttributeChanged { node, name, old_value } = mutations[k as int] {
            if node == id {
                let s = match later {
                    Some(s) => s,
                    None => as_it_is(dom, id),
                };
                let n = s.attributes.len();
                lemma_without(s.attributes, name.ns@, name.local@, n, ns, local);
                assert(s.attributes.take(n as int) =~= s.attributes);
                let rest = without(s.attributes, name.ns@, name.local@, n);
                if let Some(v) = old_value {
                    let pushed = rest.push((name.ns@, name.local@, v@));
                    assert(pushed.drop_last() =~= rest);
                }
            }
        }
    }
}

// ---------------------------------------------------------------------------
// What a snapshot tells
// ---------------------------------------------------------------------------
/// Whether mutation number `k` changes an attribute of an element that has a local
/// name, in whatever namespace.
pub open spec fn changes_local(
    mutations: Seq<DomMutation<NodeId>>,
    k: int,
    id: NodeId,
    local: Seq<char>,
) -> bool {
    mutations[k] matches DomMutation::AttributeChanged { node, name, .. } && node == id
        && name.local@ == local
}

/// Whether mutation number `k` changes an attribute of an element that is neither
/// its `class` nor its `id`.
pub open spec fn changes_another(mutations: Seq<DomMutation<NodeId>>, k: int, id: NodeId) -> bool {
    mutations[k] matches DomMutation::AttributeChanged { node, name, .. } && node == id
        && name.local@ != "class"@ && name.local@ != "id"@
}

/// A snapshot is taken of an element exactly where an attribute of it changes. It
/// says whether the class, the `id` or another attribute does, and names the
/// attributes that do.
pub proof fn a_snapshot_tells_what_changes(
    dom: &Dom,
    mutations: Seq<DomMutation<NodeId>>,
    k: nat,
    id: NodeId,
    local: Seq<char>,
)
    requires
        dom.has(id),
        k <= mutations.len(),
    ensures
        before(dom, mutations, k, id) is None ==> forall|j: int|
            k <= j < mutations.len() ==> !(#[trigger] mutations[j] matches DomMutation::AttributeChanged {
                node,
                ..
            } && node == id),
        before(dom, mutations, k, id) matches Some(s) ==> {
            &&& s.class_changed <==> exists|j: int|
                k <= j < mutations.len() && #[trigger] changes_local(mutations, j, id, "class"@)
            &&& s.id_changed <==> exists|j: int|
                k <= j < mutations.len() && #[trigger] changes_local(mutations, j, id, "id"@)
            &&& s.other_changed <==> exists|j: int|
                k <= j < mutations.len() && #[trigger] changes_another(mutations, j, id)
            &&& s.changed.contains(local) <==> exists|j: int|
                k <= j < mutations.len() && #[trigger] changes_local(mutations, j, id, local)
            &&& exists|j: int|
                k <= j < mutations.len() && (#[trigger] mutations[j] matches DomMutation::AttributeChanged {
                    node,
                    ..
                } && node == id)
        },
    decreases mutations.len() - k,
{
    if k < mutations.len() {
        let i = k as int;
        a_snapshot_tells_what_changes(dom, mutations, k + 1, id, local);
        let later = before(dom, mutations, k + 1, id);
        if later is None {
            assert forall|j: int, l: Seq<char>| k < j < mutations.len() implies !#[trigger] changes_local(
                mutations,
                j,
                id,
                l,
            ) by {
                assert(!(mutations[j] matches DomMutation::AttributeChanged { node, .. } && node
                    == id));
            }
            assert forall|j: int| k < j < mutations.len() implies !#[trigger] changes_another(
                mutations,
                j,
                id,
            ) by {
                assert(!(mutations[j] matches DomMutation::AttributeChanged { node, .. } && node
                    == id));
            }
        }
        if let DomMutation::AttributeChanged { node, name, .. } = mutations[i] {
            if node == id {
                let s = match later {
                    Some(s) => s,
                    None => as_it_is(dom, id),
                };
                let now = before(dom, mutations, k, id)->0;
                assert(now.changed == s.changed.push(name.local@));
                assert(changes_local(mutations, i, id, name.local@));
                if name.local@ != "class"@ && name.local@ != "id"@ {
                    assert(changes_another(mutations, i, id));
                }
                if name.local@ == local {
                    assert(now.changed[s.changed.len() as int] == local);
                } else {
                    if s.changed.contains(local) {
                        let x = s.changed.index_of(local);
                        assert(now.changed[x] == local);
                    }
                    if now.changed.contains(local) {
                        let x = now.changed.index_of(local);
                        assert(s.changed[x] == local);
                    }
                    assert(!changes_local(mutations, i, id, local));
                }
                reveal_strlit("class");
                reveal_strlit("id");
                assert("class"@.len() == 5 && "id"@.len() == 2);
            }
        }
    }
}

proof fn lemma_without_contains(
    attributes: Seq<AttrModel>,
    ns: Seq<char>,
    local: Seq<char>,
    n: nat,
    a: AttrModel,
)
    requires
        n <= attributes.len(),
    ensures
        without(attributes, ns, local, n).contains(a) <==> !(a.0 == ns && a.1 == local)
            && attributes.take(n as int).contains(a),
    decreases n,
{
    if n > 0 {
        lemma_without_contains(attributes, ns, local, (n - 1) as nat, a);
        let rest = without(attributes, ns, local, (n - 1) as nat);
        let shorter = attributes.take(n - 1);
        let x = attributes[n - 1];
        assert(attributes.take(n as int) =~= shorter.push(x));
        vstd::seq_lib::lemma_seq_contains_after_push(shorter, x, a);
        vstd::seq_lib::lemma_seq_contains_after_push(rest, x, a);
    }
}

/// An attribute that no mutation changes stands in the snapshot exactly where the
/// element has it.
pub proof fn an_unchanged_attribute_stands_in_the_snapshot(
    dom: &Dom,
    mutations: Seq<DomMutation<NodeId>>,
    k: nat,
    id: NodeId,
    a: AttrModel,
)
    requires
        dom.has(id),
        k <= mutations.len(),
        forall|j: int| k <= j < mutations.len() ==> !#[trigger] changes(mutations, j, id, a.0, a.1),
    ensures
        before(dom, mutations, k, id) matches Some(s) ==> (s.attributes.contains(a) <==> exists|
            i: int,
        |
            0 <= i < dom.attributes_at(id).len() && (#[trigger] dom.attributes_at(id)[i]).ns@ == a.0
                && dom.attributes_at(id)[i].local@ == a.1 && dom.attributes_at(id)[i].value@ == a.2),
    decreases mutations.len() - k,
{
    let now = as_it_is(dom, id).attributes;
    assert(now.contains(a) <==> exists|i: int|
        0 <= i < dom.attributes_at(id).len() && (#[trigger] dom.attributes_at(id)[i]).ns@ == a.0
            && dom.attributes_at(id)[i].local@ == a.1 && dom.attributes_at(id)[i].value@ == a.2) by {
        if now.contains(a) {
            let i = now.index_of(a);
            assert(dom.attributes_at(id)[i].ns@ == a.0);
        }
        if exists|i: int|
            0 <= i < dom.attributes_at(id).len() && (#[trigger] dom.attributes_at(id)[i]).ns@ == a.0
                && dom.attributes_at(id)[i].local@ == a.1 && dom.attributes_at(id)[i].value@ == a.2 {
            let i = choose|i: int|
                0 <= i < dom.attributes_at(id).len() && (#[trigger] dom.attributes_at(id)[i]).ns@
                    == a.0 && dom.attributes_at(id)[i].local@ == a.1
                    && dom.attributes_at(id)[i].value@ == a.2;
            assert(now[i] == a);
        }
    }
    if k < mutations.len() {
        an_unchanged_attribute_stands_in_the_snapshot(dom, mutations, k + 1, id, a);
        assert(!changes(mutations, k as int, id, a.0, a.1));
        if let DomMutation::AttributeChanged { node, name, old_value } = mutations[k as int] {
            if node == id {
                let s = match before(dom, mutations, k + 1, id) {
                    Some(s) => s,
                    None => as_it_is(dom, id),
                };
                let n = s.attributes.len();
                lemma_without_contains(s.attributes, name.ns@, name.local@, n, a);
                assert(s.attributes.take(n as int) =~= s.attributes);
                let rest = without(s.attributes, name.ns@, name.local@, n);
                if let Some(v) = old_value {
                    vstd::seq_lib::lemma_seq_contains_after_push(
                        rest,
                        (name.ns@, name.local@, v@),
                        a,
                    );
                }
            }
        }
    }
}

} // verus!
