//! What every forest keeps true of its links, whatever has been done to it.

use crate::model::{Forest, NodeId};
use crate::teardown::{held, lemma_purge_outcome, owner, purge, push_unowned, unowned};
use vstd::prelude::*;

verus! {

/// Whether the links of `node` agree with those of its neighbours.
///
/// An owning link leads to a living node that points back. A weak link
/// may outlive its target; while the target is alive, it points back too.
pub open spec fn links_agree(forest: Forest, node: NodeId) -> bool {
    let state = forest[node];
    &&& state.next_sibling matches Some(after) ==> {
        &&& forest.contains_key(after)
        &&& forest[after].previous_sibling == Some(node)
        &&& forest[after].parent == state.parent
    }
    &&& state.first_child matches Some(first) ==> {
        &&& forest.contains_key(first)
        &&& forest[first].parent == Some(node)
        &&& forest[first].previous_sibling is None
    }
    &&& state.previous_sibling matches Some(before) ==> (forest.contains_key(before)
        ==> forest[before].next_sibling == Some(node))
    &&& state.last_child matches Some(last) ==> {
        &&& forest.contains_key(last)
        &&& forest[last].parent == Some(node)
        &&& forest[last].next_sibling is None
    }
    &&& state.parent matches Some(parent) ==> (forest.contains_key(parent) ==> {
        &&& state.previous_sibling is None ==> forest[parent].first_child == Some(node)
        &&& state.previous_sibling matches Some(before) ==> forest.contains_key(before)
        &&& state.next_sibling is None ==> forest[parent].last_child == Some(node)
    })
    &&& state.first_child is None <==> state.last_child is None
}

/// Whether something keeps `node` alive: a handle, or another node.
pub open spec fn kept_alive(forest: Forest, node: NodeId) -> bool {
    forest[node].handles >= 1 || held(forest, node)
}

/// Whether `rank` falls from `node` to the sibling after it.
pub open spec fn falls(forest: Forest, rank: spec_fn(NodeId) -> nat, node: NodeId) -> bool {
    forest[node].next_sibling matches Some(after) ==> rank(after) < rank(node)
}

/// Whether `rank` falls along every next-sibling link.
pub open spec fn ordered(forest: Forest, rank: spec_fn(NodeId) -> nat) -> bool {
    forall|node: NodeId| forest.contains_key(node) ==> #[trigger] falls(forest, rank, node)
}

/// Whether no node comes after itself: the nodes can be numbered so that
/// the number falls along every next-sibling link.
pub open spec fn acyclic(forest: Forest) -> bool {
    exists|rank: spec_fn(NodeId) -> nat| ordered(forest, rank)
}

/// A forest in which no next-sibling link is new has no sibling after
/// itself, if the forest it came from had none.
pub proof fn lemma_acyclic_kept(before: Forest, after: Forest)
    requires
        acyclic(before),
        forall|node: NodeId| #[trigger]
            after.contains_key(node) ==> after[node].next_sibling is None || (before.contains_key(node)
                && after[node].next_sibling == before[node].next_sibling),
    ensures
        acyclic(after),
{
    let rank = choose|rank: spec_fn(NodeId) -> nat| ordered(before, rank);
    assert forall|node: NodeId| after.contains_key(node) implies #[trigger] falls(after, rank, node) by {
        if after[node].next_sibling is Some {
            assert(falls(before, rank, node));
        }
    }
    assert(ordered(after, rank));
}

/// The invariant of a forest: finitely many nodes are alive, their links
/// agree, each of them is owned by a handle or by another node, and none
/// is its own sibling, however far along.
pub open spec fn tree_wf(forest: Forest) -> bool {
    &&& forest.dom().finite()
    &&& acyclic(forest)
    &&& forall|node: NodeId| forest.contains_key(node) ==> #[trigger] links_agree(forest, node)
    &&& forall|node: NodeId| forest.contains_key(node) ==> #[trigger] kept_alive(forest, node)
}

/// What the invariant says of one node and of the living nodes that it
/// links to.
pub proof fn lemma_around(forest: Forest, node: NodeId)
    requires
        tree_wf(forest),
        forest.contains_key(node),
    ensures
        links_agree(forest, node),
        kept_alive(forest, node),
        forest[node].next_sibling matches Some(x) ==> forest.contains_key(x) && links_agree(forest, x),
        forest[node].first_child matches Some(x) ==> forest.contains_key(x) && links_agree(forest, x),
        forest[node].last_child matches Some(x) ==> forest.contains_key(x) && links_agree(forest, x),
        forest[node].previous_sibling matches Some(x) ==> (forest.contains_key(x) ==> links_agree(forest, x)),
        forest[node].parent matches Some(x) ==> (forest.contains_key(x) ==> links_agree(forest, x)),
{
    assert(links_agree(forest, node));
    assert(kept_alive(forest, node));
    if let Some(x) = forest[node].next_sibling {
        assert(links_agree(forest, x));
    }
    if let Some(x) = forest[node].first_child {
        assert(links_agree(forest, x));
    }
    if let Some(x) = forest[node].last_child {
        assert(links_agree(forest, x));
    }
    if let Some(x) = forest[node].previous_sibling {
        if forest.contains_key(x) {
            assert(links_agree(forest, x));
        }
    }
    if let Some(x) = forest[node].parent {
        if forest.contains_key(x) {
            assert(links_agree(forest, x));
        }
    }
}

/// The invariant of a forest in which the nodes of `pending` have lost
/// their last owner and are still to be destroyed.
pub open spec fn wf_pending(forest: Forest, pending: Seq<NodeId>) -> bool {
    &&& forest.dom().finite()
    &&& acyclic(forest)
    &&& forall|node: NodeId| forest.contains_key(node) ==> #[trigger] links_agree(forest, node)
    &&& forall|node: NodeId| forest.contains_key(node) ==> #[trigger] kept_alive(forest, node) || pending.contains(node)
    &&& forall|i: int| 0 <= i < pending.len() && forest.contains_key(#[trigger] pending[i])
        ==> !kept_alive(forest, pending[i])
}

/// What is left to do after the last node of `pending` was dealt with:
/// the forest without it, and the nodes that are pending then.
pub open spec fn next_round(forest: Forest, pending: Seq<NodeId>) -> (Forest, Seq<NodeId>) {
    let node = pending.last();
    let rest = pending.drop_last();
    if !forest.contains_key(node) {
        (forest, rest)
    } else {
        let left = forest.remove(node);
        (left, push_unowned(left, push_unowned(left, rest, forest[node].next_sibling), forest[node].first_child))
    }
}

/// Dealing with one pending node leaves a forest of the same kind, with
/// fewer nodes or fewer of them pending.
pub proof fn lemma_next_round(forest: Forest, pending: Seq<NodeId>)
    requires
        wf_pending(forest, pending),
        pending.len() > 0,
    ensures
        wf_pending(next_round(forest, pending).0, next_round(forest, pending).1),
        purge(forest, pending) == purge(next_round(forest, pending).0, next_round(forest, pending).1),
        next_round(forest, pending).0.dom().len() < forest.dom().len() || (next_round(forest, pending).0
            == forest && next_round(forest, pending).1.len() < pending.len()),
{
    let node = pending.last();
    let rest = pending.drop_last();
    if !forest.contains_key(node) {
        assert forall|other: NodeId| forest.contains_key(other) implies #[trigger] kept_alive(forest, other)
            || rest.contains(other) by {
            if pending.contains(other) {
                let i = choose|i: int| 0 <= i < pending.len() && pending[i] == other;
                assert(rest[i] == other);
            }
        }
        assert forall|i: int| 0 <= i < rest.len() && forest.contains_key(#[trigger] rest[i])
            implies !kept_alive(forest, rest[i]) by {
            assert(rest[i] == pending[i]);
        }
    } else {
        let left = forest.remove(node);
        let rest1 = push_unowned(left, rest, forest[node].next_sibling);
        let rest2 = push_unowned(left, rest1, forest[node].first_child);
        assert(pending[pending.len() - 1] == node);
        assert(!kept_alive(forest, node));
        assert(links_agree(forest, node));
        assert forall|other: NodeId| left.contains_key(other) implies #[trigger] links_agree(left, other) by {
            assert(forest.contains_key(other));
            assert(links_agree(forest, other));
            let state = forest[other];
            if let Some(parent) = state.parent {
                if forest.contains_key(parent) {
                    assert(links_agree(forest, parent));
                }
            }
            if let Some(before) = state.previous_sibling {
                if forest.contains_key(before) {
                    assert(links_agree(forest, before));
                }
            }
        }
        assert forall|other: NodeId| left.contains_key(other) implies #[trigger] kept_alive(left, other)
            || rest2.contains(other) by {
            assert(forest.contains_key(other));
            assert(links_agree(forest, other));
            if kept_alive(forest, other) {
                if !kept_alive(left, other) {
                    if forest[node].first_child == Some(other) {
                        assert(unowned(left, forest[node].first_child));
                        assert(rest2.last() == other);
                    } else {
                        assert(forest[node].next_sibling == Some(other));
                        assert(unowned(left, forest[node].next_sibling));
                        assert(rest1.last() == other);
                        assert(rest1[rest1.len() - 1] == other);
                        if unowned(left, forest[node].first_child) {
                            assert(rest2[rest1.len() - 1] == other);
                        }
                    }
                }
            } else {
                let i = choose|i: int| 0 <= i < pending.len() && pending[i] == other;
                assert(rest[i] == other);
                assert(rest1[i] == other);
                assert(rest2[i] == other);
            }
        }
        assert forall|i: int| 0 <= i < rest2.len() && left.contains_key(#[trigger] rest2[i])
            implies !kept_alive(left, rest2[i]) by {
            let other = rest2[i];
            assert(links_agree(forest, other));
            if i < rest.len() {
                assert(rest2[i] == pending[i]);
            }
        }
        lemma_acyclic_kept(forest, left);
    }
}

/// Destroying the nodes that have lost their last owner restores the
/// invariant.
pub proof fn lemma_purge_wf(forest: Forest, pending: Seq<NodeId>)
    requires
        wf_pending(forest, pending),
    ensures
        tree_wf(purge(forest, pending)),
    decreases forest.dom().len(), pending.len(),
{
    if pending.len() > 0 {
        lemma_next_round(forest, pending);
        lemma_purge_wf(next_round(forest, pending).0, next_round(forest, pending).1);
    }
}

/// Whether each node of `group` is alive and owned by a handle or by
/// another node of `group`.
pub open spec fn supported(forest: Forest, group: Set<NodeId>) -> bool {
    forall|node: NodeId| #[trigger]
        group.contains(node) ==> forest.contains_key(node) && (forest[node].handles >= 1
            || match forest[node].previous_sibling {
            Some(before) => group.contains(before),
            None => forest[node].parent matches Some(parent) && group.contains(parent)
                && forest[parent].first_child == Some(node),
        })
}

/// Destroying pending nodes spares a group of nodes that own each other,
/// as long as none of the group is pending.
pub proof fn lemma_purge_spares(forest: Forest, pending: Seq<NodeId>, group: Set<NodeId>)
    requires
        wf_pending(forest, pending),
        supported(forest, group),
        forall|i: int| 0 <= i < pending.len() ==> !group.contains(#[trigger] pending[i]),
    ensures
        forall|node: NodeId| #[trigger] group.contains(node) ==> purge(forest, pending).contains_key(node),
    decreases forest.dom().len(), pending.len(),
{
    if pending.len() > 0 {
        lemma_next_round(forest, pending);
        let node = pending.last();
        let rest = pending.drop_last();
        let left = next_round(forest, pending).0;
        let later = next_round(forest, pending).1;
        assert(pending[pending.len() - 1] == node);
        if forest.contains_key(node) {
            assert(links_agree(forest, node));
            let rest1 = push_unowned(left, rest, forest[node].next_sibling);
            assert forall|i: int| 0 <= i < later.len() implies !group.contains(#[trigger] later[i]) by {
                if i < rest.len() {
                    assert(later[i] == pending[i]);
                } else {
                    assert(!group.contains(node));
                    if group.contains(later[i]) {
                        assert(links_agree(forest, later[i]));
                    }
                }
            }
            assert forall|other: NodeId| #[trigger] group.contains(other) implies left.contains_key(other) && (
            left[other].handles >= 1 || match left[other].previous_sibling {
                Some(before) => group.contains(before),
                None => left[other].parent matches Some(parent) && group.contains(parent)
                    && left[parent].first_child == Some(other),
            }) by {
                if let Some(parent) = forest[other].parent {
                    if group.contains(parent) {
                    }
                }
            }
        } else {
            assert forall|i: int| 0 <= i < later.len() implies !group.contains(#[trigger] later[i]) by {
                assert(later[i] == pending[i]);
            }
        }
        lemma_purge_spares(left, later, group);
    }
}

/// Nothing is destroyed without need: a node that is destroyed was
/// pending, or no handle owned it and the node that owned it is destroyed
/// too.
pub proof fn lemma_purge_needed(forest: Forest, pending: Seq<NodeId>)
    requires
        wf_pending(forest, pending),
    ensures
        forall|node: NodeId|
            forest.contains_key(node) && !(#[trigger] purge(forest, pending).contains_key(node)) ==> pending.contains(
                node,
            ) || (forest[node].handles == 0 && held(forest, node) && !purge(forest, pending).contains_key(
                owner(forest, node),
            )),
    decreases forest.dom().len(), pending.len(),
{
    if pending.len() > 0 {
        lemma_next_round(forest, pending);
        let popped = pending.last();
        let rest = pending.drop_last();
        let left = next_round(forest, pending).0;
        let later = next_round(forest, pending).1;
        lemma_purge_needed(left, later);
        lemma_purge_outcome(left, later);
        assert(pending[pending.len() - 1] == popped);
        assert forall|node: NodeId|
            forest.contains_key(node) && !(#[trigger] purge(forest, pending).contains_key(node)) implies pending.contains(
            node,
        ) || (forest[node].handles == 0 && held(forest, node) && !purge(forest, pending).contains_key(
            owner(forest, node),
        )) by {
            if node != popped {
                assert(left.contains_key(node));
                assert(links_agree(forest, node));
                if later.contains(node) {
                    let i = choose|i: int| 0 <= i < later.len() && later[i] == node;
                    if i < rest.len() {
                        assert(later[i] == rest[i]);
                        assert(pending[i] == node);
                    } else {
                        assert(forest.contains_key(popped));
                        assert(links_agree(forest, popped));
                    }
                }
            }
        }
    }
}

} // verus!
