//! A map from nodes to values, over the `rustc-hash` crate's hash map.
use rustc_hash::FxHashMap;
use vstd::prelude::*;
use crate::dom::NodeId;

verus! {

/// The hasher of `FxHashMap`.
#[verifier::external_type_specification]
#[verifier::external_body]
pub struct ExFxBuildHasher(rustc_hash::FxBuildHasher);

/// `FxHashMap::default` makes an empty map.
#[verifier::external_body]
fn fx_default<V>() -> (r: FxHashMap<NodeId, V>)
    ensures
        forall|k: NodeId| !r@.contains_key(k),
{
    FxHashMap::default()
}

/// `FxHashMap::get` finds the value stored under a key.
#[verifier::external_body]
fn fx_get<V>(m: &FxHashMap<NodeId, V>, k: NodeId) -> (r: Option<&V>)
    ensures
        r == (if m@.contains_key(k) {
            Some(&m@[k])
        } else {
            None
        }),
{
    m.get(&k)
}

/// `FxHashMap::insert` stores a value under a key, in place of the one before.
#[verifier::external_body]
fn fx_insert<V>(m: &mut FxHashMap<NodeId, V>, k: NodeId, v: V)
    ensures
        final(m)@ == old(m)@.insert(k, v),
{
    m.insert(k, v);
}

/// `FxHashMap::remove` takes the value under a key out of the map.
#[verifier::external_body]
fn fx_remove<V>(m: &mut FxHashMap<NodeId, V>, k: NodeId) -> (r: Option<V>)
    ensures
        final(m)@ == old(m)@.remove(k),
        r == (if old(m)@.contains_key(k) {
            Some(old(m)@[k])
        } else {
            None
        }),
{
    m.remove(&k)
}

/// `FxHashMap::len` counts the keys.
#[verifier::external_body]
fn fx_len<V>(m: &FxHashMap<NodeId, V>) -> (r: usize)
    ensures
        r == m@.dom().len(),
{
    m.len()
}

/// `FxHashMap::keys` hands out every key once, in no stated order.
#[verifier::external_body]
fn fx_keys<V>(m: &FxHashMap<NodeId, V>) -> (r: Vec<NodeId>)
    ensures
        r@.no_duplicates(),
        forall|k: NodeId| #[trigger] r@.contains(k) <==> m@.contains_key(k),
{
    m.keys().copied().collect()
}

/// A map from nodes to values.
#[verifier::reject_recursive_types(V)]
pub struct NodeMap<V> {
    m: FxHashMap<NodeId, V>,
}

impl<V> View for NodeMap<V> {
    type V = Map<NodeId, V>;

    closed spec fn view(&self) -> Map<NodeId, V> {
        self.m@
    }
}

/// Whether a list holds each node of a map once, with its value.
pub open spec fn lists<V>(list: Seq<(NodeId, &V)>, m: Map<NodeId, V>) -> bool {
    &&& forall|i: int, j: int|
        0 <= i < j < list.len() ==> (#[trigger] list[i]).0 != (#[trigger] list[j]).0
    &&& forall|i: int|
        0 <= i < list.len() ==> m.contains_key((#[trigger] list[i]).0) && m[list[i].0]
            == *list[i].1
    &&& forall|k: NodeId| #[trigger]
        m.contains_key(k) ==> exists|i: int| 0 <= i < list.len() && (#[trigger] list[i]).0 == k
}

impl<V> NodeMap<V> {
    /// An empty map.
    pub fn new() -> (r: Self)
        ensures
            r@ == Map::<NodeId, V>::empty(),
    {
        let r = NodeMap { m: fx_default() };
        assert(r@ =~= Map::<NodeId, V>::empty());
        r
    }

    /// The value stored for `id`.
    pub fn get(&self, id: NodeId) -> (r: Option<&V>)
        ensures
            r == (if self@.contains_key(id) {
                Some(&self@[id])
            } else {
                None
            }),
    {
        fx_get(&self.m, id)
    }

    /// Whether a value is stored for `id`.
    pub fn contains(&self, id: NodeId) -> (r: bool)
        ensures
            r == self@.contains_key(id),
    {
        fx_get(&self.m, id).is_some()
    }

    /// Stores a value for `id`.
    pub fn insert(&mut self, id: NodeId, value: V)
        ensures
            final(self)@ == old(self)@.insert(id, value),
    {
        fx_insert(&mut self.m, id, value)
    }

    /// Takes the value for `id` out of the map.
    pub fn remove(&mut self, id: NodeId) -> (r: Option<V>)
        ensures
            final(self)@ == old(self)@.remove(id),
            r == (if old(self)@.contains_key(id) {
                Some(old(self)@[id])
            } else {
                None
            }),
    {
        fx_remove(&mut self.m, id)
    }

    /// How many nodes have a value.
    pub fn len(&self) -> (r: usize)
        ensures
            r == self@.dom().len(),
    {
        fx_len(&self.m)
    }

    /// The nodes that have a value, each once.
    pub fn keys(&self) -> (r: Vec<NodeId>)
        ensures
            r@.no_duplicates(),
            forall|k: NodeId| #[trigger] r@.contains(k) <==> self@.contains_key(k),
    {
        fx_keys(&self.m)
    }

    /// The nodes that have a value, each once with it, in no stated order.
    pub fn iter(&self) -> (r: Vec<(NodeId, &V)>)
        ensures
            lists(r@, self@),
    {
        let keys = self.keys();
        let mut out: Vec<(NodeId, &V)> = Vec::new();
        let mut i: usize = 0;
        while i < keys.len()
            invariant
                keys@.no_duplicates(),
                forall|k: NodeId| #[trigger] keys@.contains(k) <==> self@.contains_key(k),
                i <= keys@.len(),
                out@.len() == i,
                forall|j: int|
                    0 <= j < i ==> (#[trigger] out@[j]).0 == keys@[j] && *out@[j].1
                        == self@[keys@[j]],
            decreases keys.len() - i,
        {
            assert(keys@.contains(keys@[i as int]));
            if let Some(value) = self.get(keys[i]) {
                out.push((keys[i], value));
            }
            i += 1;
        }
        assert forall|j: int| 0 <= j < out@.len() implies self@.contains_key(
            (#[trigger] out@[j]).0,
        ) by {
            assert(keys@.contains(keys@[j]));
        }
        assert forall|k: NodeId| #[trigger] self@.contains_key(k) implies exists|j: int|
            0 <= j < out@.len() && (#[trigger] out@[j]).0 == k by {
            assert(keys@.contains(k));
            let j = keys@.index_of(k);
            assert(out@[j].0 == k);
        }
        out
    }
}

} // verus!
