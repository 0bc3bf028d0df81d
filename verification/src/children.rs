//! The children of a node, in their order.

use crate::detach::{detached, dropped, lemma_detached, lemma_detached_spares, lemma_unlinked, unlinked};
use crate::insert::{
    appended, consumed, inserted_after, inserted_before, lemma_appended, lemma_inserted_after,
    lemma_inserted_before, lemma_prepended, prepended, put_before, unanchored,
};
use crate::model::{Field, Forest, NodeId};
use crate::navigate::neighbour;
use crate::shape::{falls, links_agree, ordered, supported, tree_wf};
use vstd::prelude::*;

verus! {

/// Whether `children[i]` is linked as the child of `parent` at place `i`:
/// its parent is `parent`, and its siblings are the children before and
/// after it in `children`, or missing at either end.
pub open spec fn child_at(forest: Forest, parent: NodeId, children: Seq<NodeId>, i: int) -> bool {
    let child = children[i];
    &&& forest.contains_key(child)
    &&& forest[child].parent == Some(parent)
    &&& forest[child].previous_sibling == if i == 0 {
        None
    } else {
        Some(children[i - 1])
    }
    &&& forest[child].next_sibling == if i == children.len() - 1 {
        None
    } else {
        Some(children[i + 1])
    }
}

/// Whether the children of `parent` are exactly `children`, in that order:
/// the first and the last of them are its first and its last child, and
/// walking the next-sibling links from the first visits them in order, as
/// walking the previous-sibling links from the last visits them in reverse.
pub open spec fn child_list(forest: Forest, parent: NodeId, children: Seq<NodeId>) -> bool {
    &&& forest.contains_key(parent)
    &&& forest[parent].first_child == if children.len() == 0 {
        None
    } else {
        Some(children[0])
    }
    &&& forest[parent].last_child == if children.len() == 0 {
        None
    } else {
        Some(children.last())
    }
    &&& forall|i: int| 0 <= i < children.len() ==> #[trigger] child_at(forest, parent, children, i)
}

/// A living node whose parent is `parent` is one of the children of
/// `parent`.
pub proof fn lemma_child_is_listed(
    forest: Forest,
    parent: NodeId,
    children: Seq<NodeId>,
    rank: spec_fn(NodeId) -> nat,
    node: NodeId,
)
    requires
        tree_wf(forest),
        ordered(forest, rank),
        child_list(forest, parent, children),
        forest.contains_key(node),
        forest[node].parent == Some(parent),
    ensures
        children.contains(node),
    decreases rank(node),
{
    assert(links_agree(forest, node));
    assert(falls(forest, rank, node));
    match forest[node].next_sibling {
        None => {
            assert(children.len() > 0);
            assert(children[children.len() - 1] == node);
        },
        Some(after) => {
            assert(links_agree(forest, after));
            lemma_child_is_listed(forest, parent, children, rank, after);
            let i = choose|i: int| 0 <= i < children.len() && children[i] == after;
            assert(child_at(forest, parent, children, i));
            assert(children[i - 1] == node);
        },
    }
}

/// Detaching a node that is not among the children of `parent` leaves
/// those children as they are.
pub proof fn lemma_detach_elsewhere(forest: Forest, parent: NodeId, children: Seq<NodeId>, node: NodeId)
    requires
        tree_wf(forest),
        child_list(forest, parent, children),
        forest[parent].handles >= 1 || dropped(forest, node) is None,
        forest.contains_key(node),
        forest[node].handles >= 1,
        !children.contains(node),
    ensures
        child_list(detached(forest, node), parent, children),
        detached(forest, node)[parent].handles == forest[parent].handles,
        forall|i: int|
            0 <= i < children.len() ==> detached(forest, node)[#[trigger] children[i]].handles
                == forest[children[i]].handles,
{
    let rank = choose|rank: spec_fn(NodeId) -> nat| ordered(forest, rank);
    if forest[node].parent == Some(parent) {
        lemma_child_is_listed(forest, parent, children, rank, node);
    }
    lemma_unlinked(forest, node);
    lemma_detached(forest, node);
    let stitched = unlinked(forest, node);
    let free = detached(forest, node);
    assert(links_agree(forest, node));
    assert(links_agree(forest, parent));
    assert forall|i: int| 0 <= i < children.len() implies #[trigger] child_at(stitched, parent, children, i) by {
        assert(child_at(forest, parent, children, i));
        assert(links_agree(forest, children[i]));
    }
    assert(stitched[parent].first_child == forest[parent].first_child);
    assert(stitched[parent].last_child == forest[parent].last_child);
    let group = Set::new(|x: NodeId| x == parent || children.contains(x));
    if let Some(after) = dropped(forest, node) {
        assert forall|x: NodeId| #[trigger] group.contains(x) implies stitched.contains_key(x) && (
        stitched[x].handles >= 1 || match stitched[x].previous_sibling {
            Some(before) => group.contains(before),
            None => stitched[x].parent matches Some(p) && group.contains(p) && stitched[p].first_child == Some(
                x,
            ),
        }) by {
            if x != parent {
                let i = choose|i: int| 0 <= i < children.len() && children[i] == x;
                assert(child_at(stitched, parent, children, i));
                if i > 0 {
                    assert(children.contains(children[i - 1]));
                }
            }
        }
        assert(supported(stitched, group));
        assert(links_agree(forest, after));
        if children.contains(after) {
            let i = choose|i: int| 0 <= i < children.len() && children[i] == after;
            assert(child_at(forest, parent, children, i));
            if i > 0 {
                assert(children.contains(children[i - 1]));
            }
        }
        if group.contains(after) {
            // The dropped sibling is `parent` itself, which a handle owns: nothing is destroyed.
            assert(after == parent);
            assert(free == stitched);
        } else {
            lemma_detached_spares(forest, node, group);
        }
    }
    assert(group.contains(parent));
    assert forall|i: int| 0 <= i < children.len() implies #[trigger] child_at(free, parent, children, i) by {
        assert(child_at(stitched, parent, children, i));
        assert(group.contains(children[i]));
    }
    assert forall|i: int| 0 <= i < children.len() implies free[#[trigger] children[i]].handles
        == forest[children[i]].handles by {
        assert(child_at(forest, parent, children, i));
        assert(group.contains(children[i]));
    }
}

/// Appending a node that is not yet among the children of `parent` puts
/// it after them and leaves their order as it was.
pub proof fn law_append_extends(forest: Forest, parent: NodeId, children: Seq<NodeId>, child: NodeId)
    requires
        tree_wf(forest),
        child_list(forest, parent, children),
        forest[parent].handles >= 1,
        forest.contains_key(child),
        forest[child].handles >= 1,
        !children.contains(child),
    ensures
        child_list(appended(forest, parent, child), parent, children.push(child)),
{
    lemma_detach_elsewhere(forest, parent, children, child);
    lemma_detached(forest, child);
    lemma_appended(forest, parent, child);
    let free = detached(forest, child);
    let after = appended(forest, parent, child);
    let longer = children.push(child);
    assert(links_agree(free, parent));
    assert forall|i: int| 0 <= i < longer.len() implies #[trigger] child_at(after, parent, longer, i) by {
        if i < children.len() {
            assert(child_at(free, parent, children, i));
            assert(children.contains(children[i]));
        }
        if children.len() > 0 {
            assert(child_at(free, parent, children, children.len() - 1));
        }
    }
}

/// `forest` after the nodes of `children` were appended to `parent`, one
/// after the other.
pub open spec fn appended_all(forest: Forest, parent: NodeId, children: Seq<NodeId>) -> Forest
    decreases children.len(),
{
    if children.len() == 0 {
        forest
    } else {
        appended(appended_all(forest, parent, children.drop_last()), parent, children.last())
    }
}

/// Appending different nodes to a childless node, one after the other,
/// makes them its children in that order: the first appended is its first
/// child, the last appended its last child, and the sibling links lead
/// through them in the order of appending, forwards and backwards.
pub proof fn law_append_order(forest: Forest, parent: NodeId, children: Seq<NodeId>)
    requires
        tree_wf(forest),
        child_list(forest, parent, Seq::empty()),
        forest[parent].handles >= 1,
        children.no_duplicates(),
        !children.contains(parent),
        forall|i: int|
            0 <= i < children.len() ==> forest.contains_key(#[trigger] children[i]) && forest[children[i]].handles
                >= 1,
    ensures
        tree_wf(appended_all(forest, parent, children)),
        child_list(appended_all(forest, parent, children), parent, children),
        appended_all(forest, parent, children)[parent].handles == forest[parent].handles,
        forall|other: NodeId| #[trigger]
            forest.contains_key(other) && forest[other].handles >= 1 && !children.contains(other)
                ==> appended_all(forest, parent, children).contains_key(other) && appended_all(
                forest,
                parent,
                children,
            )[other].handles == forest[other].handles,
    decreases children.len(),
{
    if children.len() == 0 {
        assert(children =~= Seq::empty());
    } else {
        let earlier = children.drop_last();
        let child = children.last();
        assert forall|i: int| 0 <= i < earlier.len() implies forest.contains_key(#[trigger] earlier[i])
            && forest[earlier[i]].handles >= 1 by {
            assert(earlier[i] == children[i]);
        }
        assert(!earlier.contains(parent)) by {
            if earlier.contains(parent) {
                let i = choose|i: int| 0 <= i < earlier.len() && earlier[i] == parent;
                assert(children[i] == parent);
            }
        }
        assert(!earlier.contains(child)) by {
            if earlier.contains(child) {
                let i = choose|i: int| 0 <= i < earlier.len() && earlier[i] == child;
                assert(children[i] == child);
            }
        }
        law_append_order(forest, parent, earlier);
        let before = appended_all(forest, parent, earlier);
        assert(children[children.len() - 1] == child);
        assert(forest.contains_key(child) && forest[child].handles >= 1);
        law_append_extends(before, parent, earlier, child);
        lemma_appended(before, parent, child);
        assert(earlier.push(child) =~= children);
        assert forall|other: NodeId| #[trigger]
            forest.contains_key(other) && forest[other].handles >= 1 && !children.contains(other)
            implies appended_all(forest, parent, children).contains_key(other) && appended_all(
            forest,
            parent,
            children,
        )[other].handles == forest[other].handles by {
            if earlier.contains(other) {
                let i = choose|i: int| 0 <= i < earlier.len() && earlier[i] == other;
                assert(children[i] == other);
            }
            assert(before.contains_key(other));
            assert(appended(before, parent, child).contains_key(other));
        }
    }
}

/// The children of a node are all different: the ranks of a forest fall
/// from each of them to the next.
pub proof fn lemma_children_fall(
    forest: Forest,
    parent: NodeId,
    children: Seq<NodeId>,
    rank: spec_fn(NodeId) -> nat,
    i: int,
    j: int,
)
    requires
        tree_wf(forest),
        ordered(forest, rank),
        child_list(forest, parent, children),
        0 <= i < j < children.len(),
    ensures
        rank(children[j]) < rank(children[i]),
    decreases j - i,
{
    assert(child_at(forest, parent, children, j - 1));
    assert(falls(forest, rank, children[j - 1]));
    if i < j - 1 {
        lemma_children_fall(forest, parent, children, rank, i, j - 1);
    }
}

/// No node is listed twice among the children of a node.
pub proof fn lemma_children_differ(forest: Forest, parent: NodeId, children: Seq<NodeId>, i: int, j: int)
    requires
        tree_wf(forest),
        child_list(forest, parent, children),
        0 <= i < children.len(),
        0 <= j < children.len(),
        i != j,
    ensures
        children[i] != children[j],
{
    let rank = choose|rank: spec_fn(NodeId) -> nat| ordered(forest, rank);
    if i < j {
        lemma_children_fall(forest, parent, children, rank, i, j);
    } else {
        lemma_children_fall(forest, parent, children, rank, j, i);
    }
}

/// Detaching a child takes it out of the list of its parent's children
/// and leaves the others in their order.
pub proof fn law_detach_removes(forest: Forest, parent: NodeId, children: Seq<NodeId>, i: int)
    requires
        tree_wf(forest),
        child_list(forest, parent, children),
        0 <= i < children.len(),
        forest[children[i]].handles >= 1,
    ensures
        detached(forest, children[i]).dom() == forest.dom(),
        child_list(detached(forest, children[i]), parent, children.remove(i)),
        !children.remove(i).contains(children[i]),
        detached(forest, children[i])[parent].handles == forest[parent].handles,
{
    let node = children[i];
    let fewer = children.remove(i);
    let rank = choose|rank: spec_fn(NodeId) -> nat| ordered(forest, rank);
    assert(child_at(forest, parent, children, i));
    lemma_unlinked(forest, node);
    lemma_detached(forest, node);
    assert(dropped(forest, node) is None);
    let free = detached(forest, node);
    assert(links_agree(forest, node));
    assert(links_agree(forest, parent));
    assert forall|j: int| 0 <= j < children.len() && j != i implies children[j] != node by {
        lemma_children_differ(forest, parent, children, i, j);
    }
    if fewer.contains(node) {
        let j = choose|j: int| 0 <= j < fewer.len() && fewer[j] == node;
        if j < i {
            assert(children[j] == node);
        } else {
            assert(children[j + 1] == node);
        }
    }
    assert forall|j: int| 0 <= j < fewer.len() implies #[trigger] child_at(free, parent, fewer, j) by {
        let k = if j < i {
            j
        } else {
            j + 1
        };
        assert(fewer[j] == children[k]);
        assert(child_at(forest, parent, children, k));
        assert(links_agree(forest, children[k]));
        if j > 0 {
            assert(fewer[j - 1] == children[if j - 1 < i { j - 1 } else { j }]);
        }
        if j < fewer.len() - 1 {
            assert(fewer[j + 1] == children[if j + 1 < i { j + 1 } else { j + 2 }]);
        }
    }
    if fewer.len() > 0 {
        assert(fewer[0] == children[if 0 < i { 0int } else { 1int }]);
        assert(fewer[fewer.len() - 1] == children[if fewer.len() - 1 < i { fewer.len() - 1 } else { fewer.len() as int }]);
    }
}

/// A child that is detached and appended to its parent again becomes the
/// last child; the other children keep their order.
pub proof fn law_reappend_moves_last(forest: Forest, parent: NodeId, children: Seq<NodeId>, i: int)
    requires
        tree_wf(forest),
        child_list(forest, parent, children),
        forest[parent].handles >= 1,
        0 <= i < children.len(),
        forest[children[i]].handles >= 1,
    ensures
        child_list(
            appended(detached(forest, children[i]), parent, children[i]),
            parent,
            children.remove(i).push(children[i]),
        ),
{
    let node = children[i];
    assert(child_at(forest, parent, children, i));
    law_detach_removes(forest, parent, children, i);
    lemma_detached(forest, node);
    law_append_extends(detached(forest, node), parent, children.remove(i), node);
}

/// A node with a parent that is detached and then inserted before the
/// sibling that came after it is where it was: every link of the forest is
/// as before, and only the handle that brought the node back is used up.
pub proof fn law_reinsert_restores(forest: Forest, node: NodeId, after: NodeId)
    requires
        tree_wf(forest),
        forest.contains_key(node),
        forest[node].handles >= 1,
        forest[node].next_sibling == Some(after),
        forest[after].handles >= 1,
        neighbour(forest, node, Field::Parent) is Some,
    ensures
        inserted_before(detached(forest, node), after, node) == consumed(forest, node),
{
    let rank = choose|rank: spec_fn(NodeId) -> nat| ordered(forest, rank);
    assert(falls(forest, rank, node));
    assert(links_agree(forest, node));
    assert(links_agree(forest, after));
    lemma_unlinked(forest, node);
    lemma_detached(forest, node);
    let free = detached(forest, node);
    assert(dropped(forest, node) is None);
    assert(free == unlinked(forest, node));
    lemma_unlinked(free, node);
    lemma_detached(free, node);
    assert(dropped(free, node) is None);
    assert(detached(free, node) =~= free);
    if let Some(before) = forest[node].previous_sibling {
        assert(forest.contains_key(before));
        assert(links_agree(forest, before));
    }
    if let Some(parent) = forest[node].parent {
        assert(links_agree(forest, parent));
    }
    assert(!unanchored(free, after));
    assert(put_before(detached(free, node), after, node) =~= consumed(forest, node));
}

/// Prepending a node that is not yet among the children of `parent` puts
/// it before them and leaves their order as it was.
pub proof fn law_prepend_extends(forest: Forest, parent: NodeId, children: Seq<NodeId>, child: NodeId)
    requires
        tree_wf(forest),
        child_list(forest, parent, children),
        forest[parent].handles >= 1,
        forest.contains_key(child),
        forest[child].handles >= 1,
        !children.contains(child),
    ensures
        child_list(prepended(forest, parent, child), parent, seq![child] + children),
{
    lemma_detach_elsewhere(forest, parent, children, child);
    lemma_detached(forest, child);
    lemma_prepended(forest, parent, child);
    let free = detached(forest, child);
    let after = prepended(forest, parent, child);
    let longer = seq![child] + children;
    assert(links_agree(free, parent));
    assert forall|i: int| 0 <= i < longer.len() implies #[trigger] child_at(after, parent, longer, i) by {
        if i > 0 {
            assert(longer[i] == children[i - 1]);
            assert(child_at(free, parent, children, i - 1));
            assert(children.contains(children[i - 1]));
            if i > 1 {
                assert(longer[i - 1] == children[i - 2]);
            }
            if i < longer.len() - 1 {
                assert(longer[i + 1] == children[i]);
            }
        }
        if children.len() > 0 {
            assert(longer[1] == children[0]);
            assert(child_at(free, parent, children, 0));
        }
    }
    assert(longer[0] == child);
    if children.len() > 0 {
        assert(longer[longer.len() - 1] == children[children.len() - 1]);
        assert(child_at(free, parent, children, children.len() - 1));
    }
}

/// Inserting a node that is not yet among the children of `parent` after
/// one of them puts it right behind that child and leaves the order of
/// the others as it was.
pub proof fn law_insert_after_places(forest: Forest, parent: NodeId, children: Seq<NodeId>, i: int, sibling: NodeId)
    requires
        tree_wf(forest),
        child_list(forest, parent, children),
        0 <= i < children.len(),
        forest[children[i]].handles >= 1,
        forest.contains_key(sibling),
        forest[sibling].handles >= 1,
        !children.contains(sibling),
        forest[parent].handles >= 1 || dropped(forest, sibling) is None,
    ensures
        child_list(inserted_after(forest, children[i], sibling), parent, children.insert(i + 1, sibling)),
{
    let node = children[i];
    assert(child_at(forest, parent, children, i));
    lemma_detach_elsewhere(forest, parent, children, sibling);
    lemma_detached(forest, sibling);
    lemma_inserted_after(forest, node, sibling);
    let free = detached(forest, sibling);
    let after = inserted_after(forest, node, sibling);
    let longer = children.insert(i + 1, sibling);
    assert(links_agree(free, parent));
    assert(child_at(free, parent, children, i));
    assert(links_agree(free, node));
    assert(longer[i + 1] == sibling);
    assert(longer.len() == children.len() + 1);
    assert forall|j: int| 0 <= j < longer.len() implies #[trigger] child_at(after, parent, longer, j) by {
        if j != i + 1 {
            let k = if j <= i {
                j
            } else {
                j - 1
            };
            assert(longer[j] == children[k]);
            assert(child_at(free, parent, children, k));
            assert(children.contains(children[k]));
            if k != i {
                lemma_children_differ(free, parent, children, k, i);
            }
            if k != i + 1 && i + 1 < children.len() {
                lemma_children_differ(free, parent, children, k, i + 1);
            }
            if j > 0 && j - 1 != i + 1 {
                assert(longer[j - 1] == children[if j - 1 <= i { j - 1 } else { j - 2 }]);
            }
            if j < longer.len() - 1 && j + 1 != i + 1 {
                assert(longer[j + 1] == children[if j + 1 <= i { j + 1 } else { j }]);
            }
        } else {
            assert(longer[j - 1] == children[i]);
            if j < longer.len() - 1 {
                assert(longer[j + 1] == children[i + 1]);
                assert(child_at(free, parent, children, i + 1));
            }
        }
    }
    assert(longer[0] == children[0]);
    assert(longer[i + 1] == sibling);
    if i + 1 < children.len() {
        assert(longer[longer.len() - 1] == children[children.len() - 1]);
    }
}

/// Inserting a node that is not yet among the children of `parent` before
/// one of them puts it right in front of that child and leaves the order
/// of the others as it was.
pub proof fn law_insert_before_places(forest: Forest, parent: NodeId, children: Seq<NodeId>, i: int, sibling: NodeId)
    requires
        tree_wf(forest),
        child_list(forest, parent, children),
        0 <= i < children.len(),
        forest[children[i]].handles >= 1,
        forest.contains_key(sibling),
        forest[sibling].handles >= 1,
        !children.contains(sibling),
        forest[parent].handles >= 1 || dropped(forest, sibling) is None,
    ensures
        child_list(inserted_before(forest, children[i], sibling), parent, children.insert(i, sibling)),
{
    let node = children[i];
    assert(child_at(forest, parent, children, i));
    lemma_detach_elsewhere(forest, parent, children, sibling);
    lemma_detached(forest, sibling);
    lemma_inserted_before(forest, node, sibling);
    let free = detached(forest, sibling);
    let after = inserted_before(forest, node, sibling);
    let longer = children.insert(i, sibling);
    assert(links_agree(free, parent));
    assert(child_at(free, parent, children, i));
    assert(links_agree(free, node));
    assert(!unanchored(free, node));
    assert(after == put_before(free, node, sibling));
    assert(longer[i] == sibling);
    assert(longer.len() == children.len() + 1);
    assert forall|j: int| 0 <= j < longer.len() implies #[trigger] child_at(after, parent, longer, j) by {
        if j != i {
            let k = if j < i {
                j
            } else {
                j - 1
            };
            assert(longer[j] == children[k]);
            assert(child_at(free, parent, children, k));
            assert(children.contains(children[k]));
            if k != i {
                lemma_children_differ(free, parent, children, k, i);
            }
            if k != i - 1 && i > 0 {
                lemma_children_differ(free, parent, children, k, i - 1);
            }
            if j > 0 && j - 1 != i {
                assert(longer[j - 1] == children[if j - 1 < i { j - 1 } else { j - 2 }]);
            }
            if j < longer.len() - 1 && j + 1 != i {
                assert(longer[j + 1] == children[if j + 1 < i { j + 1 } else { j }]);
            }
        } else {
            assert(longer[j + 1] == children[i]);
            if j > 0 {
                assert(longer[j - 1] == children[i - 1]);
                assert(child_at(free, parent, children, i - 1));
            }
        }
    }
    assert(longer[i] == sibling);
    assert(longer[longer.len() - 1] == children[children.len() - 1]);
    if i > 0 {
        assert(longer[0] == children[0]);
    }
}

} // verus!
