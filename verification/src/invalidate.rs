//! What a change of the document invalidates, and how a batch of
//! invalidations is reduced to the ones that do all the work.
use vstd::prelude::*;
use vstd::laws_eq::*;
use crate::dom::QualName;

verus! {

/// A change of the document.
pub enum DomMutation<Id> {
    /// An attribute was set or removed.
    AttributeChanged { node: Id, name: QualName, old_value: Option<String> },
    /// A node became a child of `parent`.
    Inserted { node: Id, parent: Id },
    /// A node stopped being a child of `former_parent`.
    Removed { node: Id, former_parent: Id },
    /// The children of `node` were rebuilt.
    SubtreeReplaced { node: Id },
    /// The character data of `node` changed.
    CharacterDataChanged { node: Id },
    /// A node moved from one parent to another, or within one.
    Moved { node: Id, from_parent: Id, to_parent: Id },
}

/// What must be recomputed after a change: a node, and how deep.
#[derive(Clone, Copy, Debug, Eq, PartialEq)]
pub enum Invalidation<Id> {
    /// Match selectors, cascade, lay out and paint this node's subtree.
    RestyleSubtree(Id),
    /// Lay out and paint this node's subtree; selector matching is unchanged.
    RelayoutSubtree(Id),
    /// Repaint this node only.
    RepaintNode(Id),
}

/// The node that an invalidation is rooted at.
pub open spec fn node_of<Id>(inv: Invalidation<Id>) -> Id {
    match inv {
        Invalidation::RestyleSubtree(n) => n,
        Invalidation::RelayoutSubtree(n) => n,
        Invalidation::RepaintNode(n) => n,
    }
}

/// How much work an invalidation implies: a restyle includes a relayout,
/// which includes a repaint.
pub open spec fn strength_of<Id>(inv: Invalidation<Id>) -> int {
    match inv {
        Invalidation::RestyleSubtree(_) => 2,
        Invalidation::RelayoutSubtree(_) => 1,
        Invalidation::RepaintNode(_) => 0,
    }
}

/// The same kind of invalidation, rooted at `node`.
pub open spec fn rooted_at<Id>(inv: Invalidation<Id>, node: Id) -> Invalidation<Id> {
    match inv {
        Invalidation::RestyleSubtree(_) => Invalidation::RestyleSubtree(node),
        Invalidation::RelayoutSubtree(_) => Invalidation::RelayoutSubtree(node),
        Invalidation::RepaintNode(_) => Invalidation::RepaintNode(node),
    }
}

/// Whether an invalidation recomputes the descendants of its node too.
pub open spec fn covers_below<Id>(inv: Invalidation<Id>) -> bool {
    !(inv is RepaintNode)
}

impl<Id: Copy> Invalidation<Id> {
    /// The node this invalidation is rooted at.
    pub fn node(self) -> (r: Id)
        ensures
            r == node_of(self),
    {
        match self {
            Invalidation::RestyleSubtree(node) => node,
            Invalidation::RelayoutSubtree(node) => node,
            Invalidation::RepaintNode(node) => node,
        }
    }

    /// The same kind of invalidation, rooted at `node`.
    pub fn lifted_to(self, node: Id) -> (r: Self)
        ensures
            r == rooted_at(self, node),
    {
        match self {
            Invalidation::RestyleSubtree(_) => Invalidation::RestyleSubtree(node),
            Invalidation::RelayoutSubtree(_) => Invalidation::RelayoutSubtree(node),
            Invalidation::RepaintNode(_) => Invalidation::RepaintNode(node),
        }
    }

    /// Whether recomputing this invalidation also recomputes the descendants
    /// of its node.
    pub fn covers_descendants(self) -> (r: bool)
        ensures
            r == covers_below(self),
    {
        match self {
            Invalidation::RepaintNode(_) => false,
            _ => true,
        }
    }

    /// How much work this invalidation implies.
    pub fn strength(self) -> (r: u8)
        ensures
            r == strength_of(self),
    {
        match self {
            Invalidation::RestyleSubtree(_) => 2,
            Invalidation::RelayoutSubtree(_) => 1,
            Invalidation::RepaintNode(_) => 0,
        }
    }
}

// ---------------------------------------------------------------------------
// Ancestry
// ---------------------------------------------------------------------------
/// The node `k` parent steps above `node`.
pub open spec fn up<Id>(parent: spec_fn(Id) -> Option<Id>, node: Id, k: nat) -> Option<Id>
    decreases k,
{
    if k == 0 {
        Some(node)
    } else {
        match up(parent, node, (k - 1) as nat) {
            Some(n) => parent(n),
            None => None,
        }
    }
}

/// Whether `ancestor` is one or more parent steps above `node`.
pub open spec fn is_above<Id>(parent: spec_fn(Id) -> Option<Id>, ancestor: Id, node: Id) -> bool {
    exists|k: nat| k > 0 && #[trigger] up(parent, node, k) == Some(ancestor)
}

/// Whether every answer of the function `f` is what `parent` says.
pub open spec fn answers<Id, F: Fn(Id) -> Option<Id>>(
    f: F,
    parent: spec_fn(Id) -> Option<Id>,
) -> bool {
    forall|id: Id, r: Option<Id>| #[trigger] f.ensures((id,), r) ==> r == parent(id)
}

/// Whether a walk along `parent` ends: some rank falls with each step.
pub open spec fn ends<Id>(parent: spec_fn(Id) -> Option<Id>) -> bool {
    exists|rank: spec_fn(Id) -> nat| falls(parent, rank)
}

/// Whether `rank` falls with each step along `parent`.
pub open spec fn falls<Id>(parent: spec_fn(Id) -> Option<Id>, rank: spec_fn(Id) -> nat) -> bool {
    forall|id: Id|
        (#[trigger] parent(id)) matches Some(p) ==> rank(p) < rank(id)
}

/// Whether the function `f` is fit to walk a tree upwards: it can be called on
/// every node, always gives the same answer for a node, and every walk ends.
pub open spec fn walks_up<Id, F: Fn(Id) -> Option<Id>>(f: F) -> bool {
    &&& forall|id: Id| #[trigger] f.requires((id,))
    &&& exists|parent: spec_fn(Id) -> Option<Id>| #[trigger] answers(f, parent) && ends(parent)
}

proof fn lemma_up_past_top<Id>(parent: spec_fn(Id) -> Option<Id>, node: Id, j: nat, k: nat)
    requires
        up(parent, node, j) is None,
        j <= k,
    ensures
        up(parent, node, k) is None,
    decreases k,
{
    if j < k {
        lemma_up_past_top(parent, node, j, (k - 1) as nat);
    }
}

fn is_ancestor<Id: Copy + Eq, F: Fn(Id) -> Option<Id>>(
    ancestor: Id,
    node: Id,
    parent_of: &F,
) -> (r: bool)
    requires
        obeys_concrete_eq::<Id>(),
        walks_up(*parent_of),
    ensures
        forall|parent: spec_fn(Id) -> Option<Id>| #[trigger]
            answers(*parent_of, parent) && ends(parent) ==> r == is_above(parent, ancestor, node),
{
    proof {
        reveal(obeys_concrete_eq);
    }
    let ghost parent = choose|parent: spec_fn(Id) -> Option<Id>| #[trigger]
        answers(*parent_of, parent) && ends(parent);
    let ghost rank = choose|rank: spec_fn(Id) -> nat| falls(parent, rank);
    let ghost mut k: nat = 0;
    let mut cur: Id = node;
    let mut next: Option<Id> = parent_of(cur);
    while next.is_some()
        invariant
            obeys_concrete_eq::<Id>(),
            forall|id: Id| #[trigger] parent_of.requires((id,)),
            answers(*parent_of, parent),
            falls(parent, rank),
            parent_of.ensures((cur,), next),
            forall|other: spec_fn(Id) -> Option<Id>| #[trigger]
                answers(*parent_of, other) ==> {
                    &&& up(other, node, k) == Some(cur)
                    &&& forall|j: nat|
                        0 < j <= k ==> #[trigger] up(other, node, j) != Some(ancestor)
                },
        decreases rank(cur),
    {
        proof {
            reveal(obeys_concrete_eq);
        }
        let p: Id = next.unwrap();
        assert forall|other: spec_fn(Id) -> Option<Id>| #[trigger]
            answers(*parent_of, other) implies up(other, node, k + 1) == Some(p) by {
            assert(other(cur) == Some(p));
        }
        assert(parent(cur) == Some(p));
        if p == ancestor {
            assert forall|other: spec_fn(Id) -> Option<Id>| #[trigger]
                answers(*parent_of, other) && ends(other) implies is_above(
                other,
                ancestor,
                node,
            ) by {
                assert(up(other, node, k + 1) == Some(p));
            }
            return true;
        }
        proof {
            k = k + 1;
        }
        cur = p;
        next = parent_of(cur);
    }
    assert forall|other: spec_fn(Id) -> Option<Id>| #[trigger]
        answers(*parent_of, other) && ends(other) implies !is_above(other, ancestor, node) by {
        assert(other(cur) is None);
        assert(up(other, node, k + 1) is None);
        assert forall|j: nat| j > 0 implies #[trigger] up(other, node, j) != Some(ancestor) by {
            if j > k {
                lemma_up_past_top(other, node, k + 1, j);
            }
        }
    }
    false
}

// ---------------------------------------------------------------------------
// Coalescing
// ---------------------------------------------------------------------------
/// Whether recomputing `other` already does the work of `inv`: it is rooted at
/// an ancestor, goes down to descendants, and is at least as strong.
pub open spec fn subsumes<Id>(
    parent: spec_fn(Id) -> Option<Id>,
    other: Invalidation<Id>,
    inv: Invalidation<Id>,
) -> bool {
    &&& node_of(other) != node_of(inv)
    &&& covers_below(other)
    &&& strength_of(other) >= strength_of(inv)
    &&& is_above(parent, node_of(other), node_of(inv))
}

/// Whether some member of `all` subsumes `inv`.
pub open spec fn is_subsumed<Id>(
    parent: spec_fn(Id) -> Option<Id>,
    all: Seq<Invalidation<Id>>,
    inv: Invalidation<Id>,
) -> bool {
    exists|j: int| 0 <= j < all.len() && subsumes(parent, #[trigger] all[j], inv)
}

/// Whether another member of `all` at the same node stands for member `i`: a
/// stronger one, or the same one earlier.
pub open spec fn is_outdone<Id>(all: Seq<Invalidation<Id>>, i: int) -> bool {
    exists|j: int|
        0 <= j < all.len() && node_of(#[trigger] all[j]) == node_of(all[i]) && (strength_of(all[j])
            > strength_of(all[i]) || (strength_of(all[j]) == strength_of(all[i]) && j < i))
}

/// What stays of the first `n` members of `all`: those that no member of `all`
/// subsumes, and of those at one node the strongest.
pub open spec fn coalesced<Id>(
    parent: spec_fn(Id) -> Option<Id>,
    all: Seq<Invalidation<Id>>,
    n: nat,
) -> Seq<Invalidation<Id>>
    decreases n,
{
    if n == 0 {
        Seq::empty()
    } else {
        let before = coalesced(parent, all, (n - 1) as nat);
        if is_subsumed(parent, all, all[n - 1]) || is_outdone(all, n - 1) {
            before
        } else {
            before.push(all[n - 1])
        }
    }
}

/// Reduces a batch of invalidations. An invalidation is dropped where another
/// one, rooted at an ancestor, recomputes its subtree at least as deeply; of
/// several at one node the strongest stays. `parent_of` walks the document
/// upwards.
pub fn coalesce<Id: Copy + Eq>(
    invalidations: &[Invalidation<Id>],
    parent_of: impl Fn(Id) -> Option<Id>,
) -> (r: Vec<Invalidation<Id>>)
    requires
        obeys_concrete_eq::<Id>(),
        walks_up(parent_of),
    ensures
        forall|parent: spec_fn(Id) -> Option<Id>| #[trigger]
            answers(parent_of, parent) && ends(parent) ==> r@ == coalesced(
                parent,
                invalidations@,
                invalidations@.len(),
            ),
{
    let mut kept: Vec<Invalidation<Id>> = Vec::new();
    let mut i: usize = 0;
    while i < invalidations.len()
        invariant
            obeys_concrete_eq::<Id>(),
            walks_up(parent_of),
            i <= invalidations@.len(),
            forall|parent: spec_fn(Id) -> Option<Id>| #[trigger]
                answers(parent_of, parent) && ends(parent) ==> kept@ == coalesced(
                    parent,
                    invalidations@,
                    i as nat,
                ),
        decreases invalidations.len() - i,
    {
        proof {
            reveal(obeys_concrete_eq);
        }
        let inv = invalidations[i];
        let mut subsumed = false;
        let mut j: usize = 0;
        while j < invalidations.len() && !subsumed
            invariant
                obeys_concrete_eq::<Id>(),
                walks_up(parent_of),
                j <= invalidations@.len(),
                forall|parent: spec_fn(Id) -> Option<Id>| #[trigger]
                    answers(parent_of, parent) && ends(parent) ==> {
                        &&& subsumed ==> is_subsumed(parent, invalidations@, inv)
                        &&& !subsumed ==> forall|k: int|
                            0 <= k < j ==> !subsumes(parent, #[trigger] invalidations@[k], inv)
                    },
            decreases invalidations.len() - j,
        {
            proof {
                reveal(obeys_concrete_eq);
            }
            let other = invalidations[j];
            if other.node() != inv.node() && other.covers_descendants() && other.strength()
                >= inv.strength() && is_ancestor(other.node(), inv.node(), &parent_of) {
                assert forall|parent: spec_fn(Id) -> Option<Id>| #[trigger]
                    answers(parent_of, parent) && ends(parent) implies is_subsumed(
                    parent,
                    invalidations@,
                    inv,
                ) by {
                    assert(subsumes(parent, invalidations@[j as int], inv));
                }
                subsumed = true;
            } else {
                assert forall|parent: spec_fn(Id) -> Option<Id>| #[trigger]
                    answers(parent_of, parent) && ends(parent) implies !subsumes(
                    parent,
                    invalidations@[j as int],
                    inv,
                ) by {}
            }
            j += 1;
        }
        let mut outdone = false;
        let mut k: usize = 0;
        while k < invalidations.len() && !outdone
            invariant
                obeys_concrete_eq::<Id>(),
                i < invalidations@.len(),
                inv == invalidations@[i as int],
                k <= invalidations@.len(),
                outdone ==> is_outdone(invalidations@, i as int),
                !outdone ==> forall|m: int|
                    0 <= m < k && node_of(#[trigger] invalidations@[m]) == node_of(inv) ==> {
                        &&& strength_of(invalidations@[m]) <= strength_of(inv)
                        &&& m < i ==> strength_of(invalidations@[m]) != strength_of(inv)
                    },
            decreases invalidations.len() - k,
        {
            proof {
                reveal(obeys_concrete_eq);
            }
            let other = invalidations[k];
            if other.node() == inv.node() && (other.strength() > inv.strength() || (
            other.strength() == inv.strength() && k < i)) {
                assert(node_of(invalidations@[k as int]) == node_of(inv));
                outdone = true;
            }
            k += 1;
        }
        if !subsumed && !outdone {
            kept.push(inv);
        }
        i += 1;
    }
    kept
}

proof fn lemma_up_add<Id>(parent: spec_fn(Id) -> Option<Id>, a: Id, b: Id, j: nat, k: nat)
    requires
        up(parent, a, j) == Some(b),
    ensures
        up(parent, a, j + k) == up(parent, b, k),
    decreases k,
{
    if k > 0 {
        lemma_up_add(parent, a, b, j, (k - 1) as nat);
        assert((j + k - 1) as nat == j + (k - 1) as nat);
    }
}

proof fn lemma_above_transitive<Id>(parent: spec_fn(Id) -> Option<Id>, a: Id, b: Id, c: Id)
    requires
        is_above(parent, a, b),
        is_above(parent, b, c),
    ensures
        is_above(parent, a, c),
{
    let k = choose|k: nat| k > 0 && #[trigger] up(parent, b, k) == Some(a);
    let j = choose|j: nat| j > 0 && #[trigger] up(parent, c, j) == Some(b);
    lemma_up_add(parent, c, b, j, k);
    assert(up(parent, c, j + k) == Some(a));
}

proof fn lemma_rank_falls<Id>(
    parent: spec_fn(Id) -> Option<Id>,
    rank: spec_fn(Id) -> nat,
    a: Id,
    node: Id,
    k: nat,
)
    requires
        falls(parent, rank),
        k > 0,
        up(parent, node, k) == Some(a),
    ensures
        rank(a) < rank(node),
    decreases k,
{
    let below = up(parent, node, (k - 1) as nat);
    assert(below is Some);
    let b = below->0;
    assert(parent(b) == Some(a));
    if k > 1 {
        lemma_rank_falls(parent, rank, b, node, (k - 1) as nat);
    }
}

proof fn lemma_coalesced_grows<Id>(
    parent: spec_fn(Id) -> Option<Id>,
    all: Seq<Invalidation<Id>>,
    m: nat,
    n: nat,
)
    requires
        m <= n <= all.len(),
    ensures
        coalesced(parent, all, m).len() <= coalesced(parent, all, n).len(),
        forall|j: int|
            0 <= j < coalesced(parent, all, m).len() ==> #[trigger] coalesced(parent, all, n)[j]
                == coalesced(parent, all, m)[j],
    decreases n,
{
    if m < n {
        lemma_coalesced_grows(parent, all, m, (n - 1) as nat);
    }
}

/// Whether member `i` of a batch stays.
pub open spec fn stays<Id>(
    parent: spec_fn(Id) -> Option<Id>,
    all: Seq<Invalidation<Id>>,
    i: int,
) -> bool {
    &&& 0 <= i < all.len()
    &&& !is_subsumed(parent, all, all[i])
    &&& !is_outdone(all, i)
}

/// Whether an invalidation is one of the first `n` members of a batch that stay.
pub open spec fn is_staying<Id>(
    parent: spec_fn(Id) -> Option<Id>,
    all: Seq<Invalidation<Id>>,
    n: nat,
    inv: Invalidation<Id>,
) -> bool {
    exists|i: int| i < n && #[trigger] stays(parent, all, i) && all[i] == inv
}

proof fn lemma_kept_stay<Id>(
    parent: spec_fn(Id) -> Option<Id>,
    all: Seq<Invalidation<Id>>,
    n: nat,
)
    requires
        n <= all.len(),
    ensures
        forall|j: int|
            0 <= j < coalesced(parent, all, n).len() ==> is_staying(
                parent,
                all,
                n,
                #[trigger] coalesced(parent, all, n)[j],
            ),
        forall|i: int, j: int|
            0 <= i < j < coalesced(parent, all, n).len() ==> node_of(
                #[trigger] coalesced(parent, all, n)[i],
            ) != node_of(#[trigger] coalesced(parent, all, n)[j]),
    decreases n,
{
    if n > 0 {
        lemma_kept_stay(parent, all, (n - 1) as nat);
        let before = coalesced(parent, all, (n - 1) as nat);
        let now = coalesced(parent, all, n);
        assert forall|j: int| 0 <= j < now.len() implies is_staying(
            parent,
            all,
            n,
            #[trigger] now[j],
        ) by {
            if j < before.len() {
                assert(now[j] == before[j]);
                let i = choose|i: int|
                    i < n - 1 && #[trigger] stays(parent, all, i) && all[i] == before[j];
                assert(stays(parent, all, i));
            } else {
                assert(stays(parent, all, n - 1));
            }
        }
        assert forall|i: int, j: int| 0 <= i < j < now.len() implies node_of(#[trigger] now[i])
            != node_of(#[trigger] now[j]) by {
            assert(now[i] == before[i]);
            if j < before.len() {
                assert(now[j] == before[j]);
            } else {
                let a = choose|a: int|
                    a < n - 1 && #[trigger] stays(parent, all, a) && all[a] == before[i];
                assert(now[j] == all[n - 1]);
                if node_of(all[a]) == node_of(all[n - 1]) {
                    assert(!is_outdone(all, a));
                    assert(!is_outdone(all, n - 1));
                    assert(false);
                }
            }
        }
    }
}

/// Coalescing keeps only invalidations of the batch, none that another member
/// of the batch subsumes, and at most one at each node.
pub proof fn coalesced_is_a_minimal_part<Id>(
    parent: spec_fn(Id) -> Option<Id>,
    all: Seq<Invalidation<Id>>,
    n: nat,
)
    requires
        n <= all.len(),
    ensures
        forall|j: int|
            0 <= j < coalesced(parent, all, n).len() ==> {
                &&& all.contains(#[trigger] coalesced(parent, all, n)[j])
                &&& !is_subsumed(parent, all, coalesced(parent, all, n)[j])
            },
        forall|i: int, j: int|
            0 <= i < j < coalesced(parent, all, n).len() ==> node_of(
                #[trigger] coalesced(parent, all, n)[i],
            ) != node_of(#[trigger] coalesced(parent, all, n)[j]),
{
    lemma_kept_stay(parent, all, n);
    let now = coalesced(parent, all, n);
    assert forall|j: int| 0 <= j < now.len() implies all.contains(#[trigger] now[j])
        && !is_subsumed(parent, all, now[j]) by {
        let i = choose|i: int| i < n && #[trigger] stays(parent, all, i) && all[i] == now[j];
        assert(all.contains(all[i]));
    }
}

/// Of several members of a batch at one node, one stands for all: it is the
/// strongest, and nothing at the node stands for it.
proof fn lemma_strongest_at_node<Id>(all: Seq<Invalidation<Id>>, i: int) -> (m: int)
    requires
        0 <= i < all.len(),
    ensures
        0 <= m < all.len(),
        node_of(all[m]) == node_of(all[i]),
        strength_of(all[m]) >= strength_of(all[i]),
        !is_outdone(all, m),
    decreases 2 - strength_of(all[i]), i,
{
    if is_outdone(all, i) {
        let j = choose|j: int|
            0 <= j < all.len() && node_of(#[trigger] all[j]) == node_of(all[i]) && (strength_of(
                all[j],
            ) > strength_of(all[i]) || (strength_of(all[j]) == strength_of(all[i]) && j < i));
        lemma_strongest_at_node(all, j)
    } else {
        i
    }
}

proof fn lemma_kept_what_stays<Id>(
    parent: spec_fn(Id) -> Option<Id>,
    all: Seq<Invalidation<Id>>,
    i: int,
)
    requires
        stays(parent, all, i),
    ensures
        coalesced(parent, all, all.len()).contains(all[i]),
{
    let at = coalesced(parent, all, (i + 1) as nat);
    lemma_coalesced_grows(parent, all, (i + 1) as nat, all.len());
    assert(at[at.len() - 1] == all[i]);
    assert(coalesced(parent, all, all.len())[at.len() - 1] == all[i]);
}

/// An invalidation that nothing in the batch subsumes is kept, or a stronger one
/// at its node is. So a weaker ancestor never hides a stronger descendant, nor a
/// weaker invalidation a stronger one at the same node.
pub proof fn coalesced_keeps_what_nothing_subsumes<Id>(
    parent: spec_fn(Id) -> Option<Id>,
    all: Seq<Invalidation<Id>>,
    i: int,
)
    requires
        0 <= i < all.len(),
        !is_subsumed(parent, all, all[i]),
    ensures
        exists|j: int|
            0 <= j < coalesced(parent, all, all.len()).len() && {
                let kept = #[trigger] coalesced(parent, all, all.len())[j];
                &&& node_of(kept) == node_of(all[i])
                &&& strength_of(kept) >= strength_of(all[i])
            },
{
    let m = lemma_strongest_at_node(all, i);
    assert(!is_subsumed(parent, all, all[m])) by {
        if is_subsumed(parent, all, all[m]) {
            let o = choose|o: int|
                0 <= o < all.len() && subsumes(parent, #[trigger] all[o], all[m]);
            assert(subsumes(parent, all[o], all[i]));
        }
    }
    lemma_kept_what_stays(parent, all, m);
    let end = coalesced(parent, all, all.len());
    let j = end.index_of(all[m]);
    assert(end[j] == all[m]);
}

/// No work is lost: each invalidation of the batch is done by a kept one, which
/// is at least as strong and is rooted at the same node or subsumes it.
pub proof fn coalesced_loses_no_work<Id>(
    parent: spec_fn(Id) -> Option<Id>,
    all: Seq<Invalidation<Id>>,
    i: int,
)
    requires
        0 <= i < all.len(),
        ends(parent),
    ensures
        exists|j: int|
            0 <= j < coalesced(parent, all, all.len()).len() && {
                let kept = #[trigger] coalesced(parent, all, all.len())[j];
                &&& strength_of(kept) >= strength_of(all[i])
                &&& node_of(kept) == node_of(all[i]) || subsumes(parent, kept, all[i])
            },
{
    let rank = choose|rank: spec_fn(Id) -> nat| falls(parent, rank);
    lemma_no_work_lost(parent, rank, all, i);
}

proof fn lemma_no_work_lost<Id>(
    parent: spec_fn(Id) -> Option<Id>,
    rank: spec_fn(Id) -> nat,
    all: Seq<Invalidation<Id>>,
    i: int,
)
    requires
        0 <= i < all.len(),
        falls(parent, rank),
    ensures
        exists|j: int|
            0 <= j < coalesced(parent, all, all.len()).len() && {
                let kept = #[trigger] coalesced(parent, all, all.len())[j];
                &&& strength_of(kept) >= strength_of(all[i])
                &&& node_of(kept) == node_of(all[i]) || subsumes(parent, kept, all[i])
            },
    decreases rank(node_of(all[i])),
{
    let end = coalesced(parent, all, all.len());
    if is_subsumed(parent, all, all[i]) {
        let o = choose|o: int| 0 <= o < all.len() && subsumes(parent, #[trigger] all[o], all[i]);
        let steps = choose|k: nat|
            k > 0 && #[trigger] up(parent, node_of(all[i]), k) == Some(node_of(all[o]));
        lemma_rank_falls(parent, rank, node_of(all[o]), node_of(all[i]), steps);
        lemma_no_work_lost(parent, rank, all, o);
        let j = choose|j: int|
            0 <= j < end.len() && {
                let kept = #[trigger] end[j];
                &&& strength_of(kept) >= strength_of(all[o])
                &&& node_of(kept) == node_of(all[o]) || subsumes(parent, kept, all[o])
            };
        let kept = end[j];
        if node_of(kept) != node_of(all[o]) {
            lemma_above_transitive(parent, node_of(kept), node_of(all[o]), node_of(all[i]));
        }
        let total = choose|k: nat|
            k > 0 && #[trigger] up(parent, node_of(all[i]), k) == Some(node_of(kept));
        lemma_rank_falls(parent, rank, node_of(kept), node_of(all[i]), total);
        assert(strength_of(kept) >= strength_of(all[i]));
        assert(covers_below(kept));
        assert(subsumes(parent, kept, all[i]));
    } else {
        coalesced_keeps_what_nothing_subsumes(parent, all, i);
    }
}

/// Whether an invalidation is kept of a batch that holds the members of `all`,
/// whatever their order.
pub open spec fn is_kept_of<Id>(
    parent: spec_fn(Id) -> Option<Id>,
    all: Seq<Invalidation<Id>>,
    inv: Invalidation<Id>,
) -> bool {
    &&& all.contains(inv)
    &&& !is_subsumed(parent, all, inv)
    &&& forall|j: int|
        0 <= j < all.len() && node_of(#[trigger] all[j]) == node_of(inv) ==> strength_of(all[j])
            <= strength_of(inv)
}

proof fn lemma_kept_of<Id>(
    parent: spec_fn(Id) -> Option<Id>,
    all: Seq<Invalidation<Id>>,
    inv: Invalidation<Id>,
)
    ensures
        coalesced(parent, all, all.len()).contains(inv) <==> is_kept_of(parent, all, inv),
{
    let end = coalesced(parent, all, all.len());
    lemma_kept_stay(parent, all, all.len());
    if end.contains(inv) {
        let j = end.index_of(inv);
        let i = choose|i: int|
            i < all.len() && #[trigger] stays(parent, all, i) && all[i] == end[j];
        assert(all.contains(all[i]));
    }
    if is_kept_of(parent, all, inv) {
        let m = lemma_strongest_at_node(all, all.index_of(inv));
        assert(all[m] == inv);
        lemma_kept_what_stays(parent, all, m);
    }
}

/// What coalescing keeps does not depend on the order of the batch: of batches
/// with the same members the same invalidations are kept.
pub proof fn coalesced_is_the_same_in_any_order<Id>(
    parent: spec_fn(Id) -> Option<Id>,
    a: Seq<Invalidation<Id>>,
    b: Seq<Invalidation<Id>>,
)
    requires
        a.to_multiset() == b.to_multiset(),
    ensures
        coalesced(parent, a, a.len()).to_multiset() == coalesced(parent, b, b.len()).to_multiset(),
{
    broadcast use vstd::seq_lib::group_to_multiset_ensures;

    let ka = coalesced(parent, a, a.len());
    let kb = coalesced(parent, b, b.len());
    assert forall|x: Invalidation<Id>| a.contains(x) == b.contains(x) by {
        assert(a.contains(x) <==> a.to_multiset().count(x) > 0);
        assert(b.contains(x) <==> b.to_multiset().count(x) > 0);
    }
    assert forall|x: Invalidation<Id>| ka.contains(x) == kb.contains(x) by {
        lemma_same_kept(parent, a, b, x);
        lemma_same_kept(parent, b, a, x);
        lemma_kept_of(parent, a, x);
        lemma_kept_of(parent, b, x);
    }
    lemma_kept_stay(parent, a, a.len());
    lemma_kept_stay(parent, b, b.len());
    assert(ka.no_duplicates());
    assert(kb.no_duplicates());
    ka.lemma_multiset_has_no_duplicates();
    kb.lemma_multiset_has_no_duplicates();
    assert forall|x: Invalidation<Id>| ka.to_multiset().count(x) == kb.to_multiset().count(x) by {
        assert(ka.contains(x) <==> ka.to_multiset().count(x) > 0);
        assert(kb.contains(x) <==> kb.to_multiset().count(x) > 0);
        if ka.contains(x) {
            assert(ka.to_multiset().contains(x));
            assert(kb.to_multiset().contains(x));
        }
    }
    assert(ka.to_multiset() =~= kb.to_multiset());
}

proof fn lemma_same_kept<Id>(
    parent: spec_fn(Id) -> Option<Id>,
    a: Seq<Invalidation<Id>>,
    b: Seq<Invalidation<Id>>,
    x: Invalidation<Id>,
)
    requires
        forall|y: Invalidation<Id>| #[trigger] a.contains(y) == b.contains(y),
    ensures
        is_kept_of(parent, a, x) ==> is_kept_of(parent, b, x),
{
    if is_kept_of(parent, a, x) {
        assert(!is_subsumed(parent, b, x)) by {
            if is_subsumed(parent, b, x) {
                let o = choose|o: int| 0 <= o < b.len() && subsumes(parent, #[trigger] b[o], x);
                assert(b.contains(b[o]));
                let j = a.index_of(b[o]);
                assert(a.contains(b[o]));
                assert(subsumes(parent, a[j], x));
            }
        }
        assert forall|j: int| 0 <= j < b.len() && node_of(#[trigger] b[j]) == node_of(
            x,
        ) implies strength_of(b[j]) <= strength_of(x) by {
            assert(b.contains(b[j]));
            assert(a.contains(b[j]));
            let i = a.index_of(b[j]);
            assert(node_of(a[i]) == node_of(x));
        }
    }
}

// ---------------------------------------------------------------------------
// Classification
// ---------------------------------------------------------------------------
/// What a change invalidates.
pub open spec fn classified<Id>(mutation: DomMutation<Id>) -> Seq<Invalidation<Id>> {
    match mutation {
        DomMutation::AttributeChanged { node, .. } => seq![Invalidation::RestyleSubtree(node)],
        DomMutation::Inserted { parent, .. } => seq![Invalidation::RestyleSubtree(parent)],
        DomMutation::Removed { former_parent, .. } => seq![
            Invalidation::RestyleSubtree(former_parent),
        ],
        DomMutation::SubtreeReplaced { node } => seq![Invalidation::RestyleSubtree(node)],
        DomMutation::CharacterDataChanged { node } => seq![Invalidation::RelayoutSubtree(node)],
        DomMutation::Moved { from_parent, to_parent, .. } => if from_parent != to_parent {
            seq![Invalidation::RestyleSubtree(to_parent), Invalidation::RestyleSubtree(from_parent)]
        } else {
            seq![Invalidation::RestyleSubtree(to_parent)]
        },
    }
}

/// What a change invalidates: one scope, or two where a node moved from one
/// parent to another.
pub fn classify<Id: Copy + PartialEq>(mutation: &DomMutation<Id>) -> (r: Vec<Invalidation<Id>>)
    requires
        obeys_concrete_eq::<Id>(),
    ensures
        r@ == classified(*mutation),
{
    proof {
        reveal(obeys_concrete_eq);
    }
    let mut out: Vec<Invalidation<Id>> = Vec::new();
    match mutation {
        DomMutation::AttributeChanged { node, .. } => out.push(Invalidation::RestyleSubtree(*node)),
        DomMutation::Inserted { parent, .. } => out.push(Invalidation::RestyleSubtree(*parent)),
        DomMutation::Removed { former_parent, .. } => out.push(
            Invalidation::RestyleSubtree(*former_parent),
        ),
        DomMutation::SubtreeReplaced { node } => out.push(Invalidation::RestyleSubtree(*node)),
        DomMutation::CharacterDataChanged { node } => out.push(
            Invalidation::RelayoutSubtree(*node),
        ),
        DomMutation::Moved { from_parent, to_parent, .. } => {
            out.push(Invalidation::RestyleSubtree(*to_parent));
            if *from_parent != *to_parent {
                out.push(Invalidation::RestyleSubtree(*from_parent));
            }
        },
    }
    assert(out@ =~= classified(*mutation));
    out
}

/// A move invalidates what taking the node out and putting it in again would.
pub proof fn a_move_is_a_removal_and_an_insertion<Id>(node: Id, from_parent: Id, to_parent: Id)
    ensures
        classified(DomMutation::Moved { node, from_parent, to_parent }).to_set() == classified(
            DomMutation::Removed { node, former_parent: from_parent },
        ).to_set() + classified(DomMutation::Inserted { node, parent: to_parent }).to_set(),
{
    let moved = classified(DomMutation::Moved { node, from_parent, to_parent });
    let removed = classified(DomMutation::Removed { node, former_parent: from_parent });
    let inserted = classified(DomMutation::Inserted { node, parent: to_parent });
    assert(moved[0] == inserted[0]);
    assert(removed[0] == moved[moved.len() - 1]);
    assert forall|x: Invalidation<Id>| moved.to_set().contains(x) == (removed.to_set()
        + inserted.to_set()).contains(x) by {
        if moved.contains(x) {
            let k = choose|k: int| 0 <= k < moved.len() && moved[k] == x;
            if k == 0 {
                assert(inserted.contains(inserted[0]));
            } else {
                assert(removed.contains(removed[0]));
            }
        }
        if removed.contains(x) {
            assert(moved.contains(moved[moved.len() - 1]));
        }
        if inserted.contains(x) {
            assert(moved.contains(moved[0]));
        }
    }
    assert(moved.to_set() =~= removed.to_set() + inserted.to_set());
}

/// A change of text invalidates the layout of the node that holds it. Every other
/// change invalidates the styles of the nodes that it is made at: the element whose
/// attribute it is, the parents that gain or lose a child, the root of what was
/// replaced.
pub proof fn a_change_invalidates_where_it_is_made<Id>(
    mutation: DomMutation<Id>,
    inv: Invalidation<Id>,
)
    ensures
        classified(mutation).contains(inv) <==> match inv {
            Invalidation::RestyleSubtree(n) => match mutation {
                DomMutation::AttributeChanged { node, .. } => n == node,
                DomMutation::Inserted { parent, .. } => n == parent,
                DomMutation::Removed { former_parent, .. } => n == former_parent,
                DomMutation::Moved { from_parent, to_parent, .. } => n == from_parent || n
                    == to_parent,
                DomMutation::SubtreeReplaced { node } => n == node,
                DomMutation::CharacterDataChanged { .. } => false,
            },
            Invalidation::RelayoutSubtree(n) => mutation == (
            DomMutation::<Id>::CharacterDataChanged { node: n }),
            Invalidation::RepaintNode(_) => false,
        },
        classified(mutation).no_duplicates(),
{
    let all = classified(mutation);
    assert(all.len() >= 1);
    assert(all.contains(all[0]));
    if all.len() > 1 {
        assert(all.contains(all[1]));
    }
}

/// Restyling does the work of a layout, and a layout that of painting: of two
/// invalidations at one node the one that does more stays.
pub proof fn the_strongest_invalidation_of_a_node_stays<Id>(
    parent: spec_fn(Id) -> Option<Id>,
    n: Id,
)
    ensures
        coalesced(
            parent,
            seq![Invalidation::RepaintNode(n), Invalidation::RestyleSubtree(n)],
            2,
        ) == seq![Invalidation::RestyleSubtree(n)],
        coalesced(
            parent,
            seq![Invalidation::RelayoutSubtree(n), Invalidation::RestyleSubtree(n)],
            2,
        ) == seq![Invalidation::RestyleSubtree(n)],
        coalesced(
            parent,
            seq![Invalidation::RepaintNode(n), Invalidation::RelayoutSubtree(n)],
            2,
        ) == seq![Invalidation::RelayoutSubtree(n)],
{
    lemma_stronger_stays(parent, Invalidation::RepaintNode(n), Invalidation::RestyleSubtree(n));
    lemma_stronger_stays(parent, Invalidation::RelayoutSubtree(n), Invalidation::RestyleSubtree(n));
    lemma_stronger_stays(parent, Invalidation::RepaintNode(n), Invalidation::RelayoutSubtree(n));
}

proof fn lemma_stronger_stays<Id>(
    parent: spec_fn(Id) -> Option<Id>,
    weak: Invalidation<Id>,
    strong: Invalidation<Id>,
)
    requires
        node_of(weak) == node_of(strong),
        strength_of(weak) < strength_of(strong),
    ensures
        coalesced(parent, seq![weak, strong], 2) == seq![strong],
{
    let all = seq![weak, strong];
    reveal_with_fuel(coalesced, 3);
    assert(!is_subsumed(parent, all, weak));
    assert(!is_subsumed(parent, all, strong));
    assert(strength_of(all[1]) > strength_of(all[0]));
    assert(is_outdone(all, 0));
    assert(!is_outdone(all, 1));
}

} // verus!
