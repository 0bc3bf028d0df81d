//! Taking a node out of the place where it is linked.

use crate::handle::NodeRef;
use crate::model::{owners_kept, relink, resolve, Field, Forest, NodeId, NodeState};
use crate::shape::{
    falls, kept_alive, lemma_around, lemma_purge_spares, lemma_purge_wf, links_agree, ordered, supported, tree_wf,
    wf_pending,
};
use crate::store::Arena;
use crate::teardown::{held, lemma_purge_outcome, purge, settle};
use vstd::prelude::*;

verus! {

/// `forest` with the links of `node` to its parent and to its two siblings
/// emptied. What `node` knows of its children stays.
pub open spec fn cut(forest: Forest, node: NodeId) -> Forest {
    forest.insert(
        node,
        NodeState { parent: None, previous_sibling: None, next_sibling: None, ..forest[node] },
    )
}

/// `forest` after `node` was cut out and the neighbours that it left were
/// stitched together: the sibling after it, or else the parent's last-child
/// link, now looks back to the sibling before it; the sibling before it,
/// or else the parent's first-child link, now owns the sibling after it.
pub open spec fn unlinked(forest: Forest, node: NodeId) -> Forest {
    let state = forest[node];
    let before = resolve(forest, state.previous_sibling);
    let after = resolve(forest, state.next_sibling);
    let parent = resolve(forest, state.parent);
    let cut_out = cut(forest, node);
    let backward = if let Some(after) = after {
        relink(cut_out, after, Field::PreviousSibling, state.previous_sibling)
    } else if let Some(parent) = parent {
        relink(cut_out, parent, Field::LastChild, state.previous_sibling)
    } else {
        cut_out
    };
    if let Some(before) = before {
        relink(backward, before, Field::NextSibling, state.next_sibling)
    } else if let Some(parent) = parent {
        relink(backward, parent, Field::FirstChild, state.next_sibling)
    } else {
        backward
    }
}

/// The sibling after `node` where, once `node` is cut out, no living node
/// is left to own it: `node` has neither a living sibling before it nor a
/// living parent.
pub open spec fn dropped(forest: Forest, node: NodeId) -> Option<NodeId> {
    let state = forest[node];
    if resolve(forest, state.previous_sibling) is None && resolve(forest, state.parent) is None {
        state.next_sibling
    } else {
        None
    }
}

/// `forest` after `node` was detached: it has left its parent and its
/// siblings, and keeps its children.
pub open spec fn detached(forest: Forest, node: NodeId) -> Forest {
    match dropped(forest, node) {
        Some(after) => settle(unlinked(forest, node), after),
        None => unlinked(forest, node),
    }
}

/// The nodes that have lost their last owner once `node` is cut out: the
/// sibling that was dropped, if no handle owns it.
pub open spec fn orphaned(forest: Forest, node: NodeId) -> Seq<NodeId> {
    let stitched = unlinked(forest, node);
    match dropped(forest, node) {
        Some(after) if stitched.contains_key(after) && stitched[after].handles == 0 && !held(stitched, after) =>
            seq![after],
        _ => Seq::empty(),
    }
}

/// Cutting a node out leaves a forest in which at most the sibling that
/// was dropped is without an owner; detaching the node destroys that
/// sibling then. The node that was cut out is loose, and no node has
/// other handles or another payload than before.
pub proof fn lemma_unlinked(forest: Forest, node: NodeId)
    requires
        tree_wf(forest),
        forest.contains_key(node),
        forest[node].handles >= 1,
    ensures
        unlinked(forest, node).dom() == forest.dom(),
        wf_pending(unlinked(forest, node), orphaned(forest, node)),
        detached(forest, node) == purge(unlinked(forest, node), orphaned(forest, node)),
        forall|other: NodeId| #[trigger]
            forest.contains_key(other) ==> unlinked(forest, node)[other].handles == forest[other].handles
                && unlinked(forest, node)[other].data == forest[other].data,
        unlinked(forest, node)[node].parent is None,
        unlinked(forest, node)[node].previous_sibling is None,
        unlinked(forest, node)[node].next_sibling is None,
{
    let state = forest[node];
    let stitched = unlinked(forest, node);
    let pending = orphaned(forest, node);
    lemma_around(forest, node);
    assert(stitched.dom() =~= forest.dom());
    let rank = choose|rank: spec_fn(NodeId) -> nat| ordered(forest, rank);
    assert(falls(forest, rank, node));
    if let Some(before) = state.previous_sibling {
        if forest.contains_key(before) {
            assert(falls(forest, rank, before));
        }
    }
    assert forall|other: NodeId| stitched.contains_key(other) implies #[trigger] falls(stitched, rank, other) by {
        assert(falls(forest, rank, other));
    }
    assert(ordered(stitched, rank));
    assert forall|other: NodeId| stitched.contains_key(other) implies #[trigger] links_agree(stitched, other) by {
        lemma_around(forest, other);
    }
    assert forall|other: NodeId| stitched.contains_key(other) implies #[trigger] kept_alive(stitched, other)
        || pending.contains(other) by {
        lemma_around(forest, other);
        if dropped(forest, node) == Some(other) && !kept_alive(stitched, other) {
            assert(pending[0] == other);
        }
    }
}

/// Detaching a node that a handle owns keeps the invariant. The node
/// stays alive and is loose; so does every other node that a handle owns;
/// a node that stays is as cutting and stitching left it.
pub proof fn lemma_detached(forest: Forest, node: NodeId)
    requires
        tree_wf(forest),
        forest.contains_key(node),
        forest[node].handles >= 1,
    ensures
        tree_wf(detached(forest, node)),
        forall|other: NodeId| #[trigger]
            detached(forest, node).contains_key(other) ==> forest.contains_key(other) && detached(
                forest,
                node,
            )[other] == unlinked(forest, node)[other],
        forall|other: NodeId| #[trigger]
            forest.contains_key(other) && dropped(forest, node) is None ==> detached(
                forest,
                node,
            ).contains_key(other),
        detached(forest, node).contains_key(node),
        detached(forest, node)[node].parent is None,
        detached(forest, node)[node].previous_sibling is None,
        detached(forest, node)[node].next_sibling is None,
        owners_kept(forest, detached(forest, node), None),
{
    lemma_unlinked(forest, node);
    let stitched = unlinked(forest, node);
    let pending = orphaned(forest, node);
    lemma_purge_wf(stitched, pending);
    lemma_purge_outcome(stitched, pending);
    assert forall|other: NodeId| forest.contains_key(other) && forest[other].handles >= 1 implies !pending.contains(
        other,
    ) by {
        if pending.contains(other) {
            let i = choose|i: int| 0 <= i < pending.len() && pending[i] == other;
        }
    }
}

/// Detaching a node spares a group of nodes that own each other once the
/// node is cut out, as long as the sibling that is dropped is not one of
/// the group.
pub proof fn lemma_detached_spares(forest: Forest, node: NodeId, group: Set<NodeId>)
    requires
        tree_wf(forest),
        forest.contains_key(node),
        forest[node].handles >= 1,
        supported(unlinked(forest, node), group),
        dropped(forest, node) matches Some(after) ==> !group.contains(after),
    ensures
        forall|other: NodeId| #[trigger] group.contains(other) ==> detached(forest, node).contains_key(other),
{
    lemma_unlinked(forest, node);
    lemma_purge_spares(unlinked(forest, node), orphaned(forest, node), group);
}

impl NodeRef {
    /// Detach a node from its parent and siblings. Children are not affected.
    ///
    /// To remove a node and its descendants, detach it and give up every
    /// handle to it.
    pub fn detach(&self, arena: &mut Arena)
        requires
            old(arena).wf(),
            old(arena).owns(self),
        ensures
            final(arena).wf(),
            final(arena).owns(self),
            final(arena)@ == detached(old(arena)@, self@),
            owners_kept(old(arena)@, final(arena)@, None),
            forall|x: NodeId| final(arena).issued(x) == old(arena).issued(x),
    {
        let id = self.id();
        let parent_weak = arena.take_link(id, Field::Parent);
        let previous_sibling_weak = arena.take_link(id, Field::PreviousSibling);
        let next_sibling_strong = arena.take_link(id, Field::NextSibling);
        assert(arena@ =~= cut(old(arena)@, id));

        let previous_sibling = arena.resolve(previous_sibling_weak);
        let next_sibling = arena.resolve(next_sibling_strong);
        let parent = arena.resolve(parent_weak);

        if let Some(after) = next_sibling {
            arena.set_link(after, Field::PreviousSibling, previous_sibling_weak);
        } else if let Some(parent) = parent {
            arena.set_link(parent, Field::LastChild, previous_sibling_weak);
        }

        if let Some(before) = previous_sibling {
            arena.set_link(before, Field::NextSibling, next_sibling_strong);
        } else if let Some(parent) = parent {
            arena.set_link(parent, Field::FirstChild, next_sibling_strong);
        } else if let Some(after) = next_sibling_strong {
            assert(arena@ == unlinked(old(arena)@, id));
            arena.settle(after);
        }
        proof {
            lemma_detached(old(arena)@, id);
        }
    }
}

} // verus!
