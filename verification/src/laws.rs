//! What holds of every forest, stated over the functions that describe the
//! operations.

use crate::create::{lemma_released, released};
use crate::detach::{detached, dropped, lemma_detached, lemma_unlinked};
use crate::model::{Field, Forest, NodeId};
use crate::navigate::neighbour;
use crate::model::one_less;
use crate::shape::{kept_alive, lemma_acyclic_kept, lemma_purge_needed, links_agree, tree_wf, wf_pending};
use crate::teardown::{held, owner};
use vstd::prelude::*;

verus! {

/// A node that is detached from a parent other than itself has, from then
/// on, no parent, no previous sibling and no next sibling. No node is
/// destroyed by that. The node keeps its first and its last child, and
/// each of its children keeps its parent and its two siblings.
pub proof fn law_detach_isolates(forest: Forest, node: NodeId)
    requires
        tree_wf(forest),
        forest.contains_key(node),
        forest[node].handles >= 1,
        neighbour(forest, node, Field::Parent) matches Some(parent) && parent != node,
    ensures
        detached(forest, node).dom() == forest.dom(),
        neighbour(detached(forest, node), node, Field::Parent) is None,
        neighbour(detached(forest, node), node, Field::PreviousSibling) is None,
        neighbour(detached(forest, node), node, Field::NextSibling) is None,
        detached(forest, node)[node].first_child == forest[node].first_child,
        detached(forest, node)[node].last_child == forest[node].last_child,
        forall|child: NodeId| #[trigger]
            forest.contains_key(child) && forest[child].parent == Some(node) ==> {
                &&& detached(forest, node)[child].parent == Some(node)
                &&& detached(forest, node)[child].previous_sibling == forest[child].previous_sibling
                &&& detached(forest, node)[child].next_sibling == forest[child].next_sibling
            },
{
    lemma_unlinked(forest, node);
    lemma_detached(forest, node);
    assert(dropped(forest, node) is None);
    assert(links_agree(forest, node));
    assert forall|child: NodeId| #[trigger]
        forest.contains_key(child) && forest[child].parent == Some(node) implies {
        &&& detached(forest, node)[child].parent == Some(node)
        &&& detached(forest, node)[child].previous_sibling == forest[child].previous_sibling
        &&& detached(forest, node)[child].next_sibling == forest[child].next_sibling
    } by {
        assert(links_agree(forest, child));
    }
}

/// The links of living neighbours answer each other. The sibling after a
/// node has that node before it, and the other way round. The first child
/// of a node has that node as its parent and no sibling before it; a node
/// without a sibling before it is the first child of its parent. The same
/// holds of the last child and the sibling after.
pub proof fn law_reciprocity(forest: Forest, node: NodeId, other: NodeId)
    requires
        tree_wf(forest),
        forest.contains_key(node),
        forest.contains_key(other),
    ensures
        neighbour(forest, node, Field::NextSibling) == Some(other) <==> neighbour(
            forest,
            other,
            Field::PreviousSibling,
        ) == Some(node),
        neighbour(forest, other, Field::FirstChild) == Some(node) <==> neighbour(forest, node, Field::Parent)
            == Some(other) && neighbour(forest, node, Field::PreviousSibling) is None,
        neighbour(forest, other, Field::LastChild) == Some(node) <==> neighbour(forest, node, Field::Parent)
            == Some(other) && neighbour(forest, node, Field::NextSibling) is None,
{
    assert(links_agree(forest, node));
    assert(links_agree(forest, other));
}

/// When the last handle to a node that no other node owns is given up,
/// the node is destroyed: it is alive no more, and no link leads to it,
/// whichever node still names it.
pub proof fn law_no_dangling_links(forest: Forest, node: NodeId, other: NodeId, field: Field)
    requires
        tree_wf(forest),
        forest.contains_key(node),
        forest[node].handles == 1,
        !held(forest, node),
    ensures
        !released(forest, node).contains_key(node),
        neighbour(released(forest, node), other, field) != Some(node),
{
    lemma_released(forest, node);
}

/// Giving up a handle destroys nothing without need. A node other than
/// the released one is destroyed only if no handle owned it and the node
/// that owned it is destroyed too; and every node that is left is still
/// owned by a handle or by a node that is left.
pub proof fn law_release_destroys_only_the_unowned(forest: Forest, node: NodeId, other: NodeId)
    requires
        tree_wf(forest),
        forest.contains_key(node),
        forest.contains_key(other),
        other != node,
    ensures
        !released(forest, node).contains_key(other) ==> forest[other].handles == 0 && held(forest, other)
            && !released(forest, node).contains_key(owner(forest, other)),
        released(forest, node).contains_key(other) ==> kept_alive(released(forest, node), other),
{
    lemma_released(forest, node);
    let fewer = forest.insert(node, forest[node].with_handles(one_less(forest[node].handles)));
    if released(forest, node).contains_key(other) {
        assert(kept_alive(released(forest, node), other));
    } else {
        let pending = seq![node];
        assert(pending[0] == node);
        lemma_acyclic_kept(forest, fewer);
        assert forall|x: NodeId| fewer.contains_key(x) implies #[trigger] links_agree(fewer, x) by {
            assert(links_agree(forest, x));
        }
        assert forall|x: NodeId| fewer.contains_key(x) implies #[trigger] kept_alive(fewer, x) || pending.contains(
            x,
        ) by {
            assert(kept_alive(forest, x));
        }
        assert(held(fewer, node) == held(forest, node));
        assert(wf_pending(fewer, pending));
        lemma_purge_needed(fewer, pending);
        if pending.contains(other) {
            let i = choose|i: int| 0 <= i < pending.len() && pending[i] == other;
        }
        assert(links_agree(forest, other));
    }
}

} // verus!
