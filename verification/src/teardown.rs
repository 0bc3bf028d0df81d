//! Destroying a node that nothing owns any more, together with everything
//! that only it kept alive, without recursion.

use crate::model::{Field, Forest, NodeId};
use crate::store::Arena;
use vstd::prelude::*;

verus! {

/// Whether another living node owns `node`: its previous sibling through
/// the next-sibling link, or its parent through the first-child link.
pub open spec fn held(forest: Forest, node: NodeId) -> bool {
    match forest[node].previous_sibling {
        Some(before) => forest.contains_key(before) && forest[before].next_sibling == Some(node),
        None => forest[node].parent matches Some(parent) && forest.contains_key(parent)
            && forest[parent].first_child == Some(node),
    }
}

/// The node that owns `node`, where one does: the sibling before it, or
/// the parent of a first child.
pub open spec fn owner(forest: Forest, node: NodeId) -> NodeId {
    match forest[node].previous_sibling {
        Some(before) => before,
        None => forest[node].parent->0,
    }
}

/// Whether `link` names a living node that no handle owns. Once the owner
/// of such a link is gone, nothing keeps the node alive.
pub open spec fn unowned(forest: Forest, link: Option<NodeId>) -> bool {
    link matches Some(target) && forest.contains_key(target) && forest[target].handles == 0
}

/// `pending` with the target of `link` on top, if nothing else owns it.
pub open spec fn push_unowned(forest: Forest, pending: Seq<NodeId>, link: Option<NodeId>) -> Seq<NodeId> {
    if unowned(forest, link) {
        pending.push(link->0)
    } else {
        pending
    }
}

/// The forest that is left when every node of `pending` is destroyed, and
/// after each of them its first child and its next sibling, as far as no
/// handle owns them, and so on. The last node of `pending` goes first, and
/// the children of a node go before its following siblings.
pub open spec fn purge(forest: Forest, pending: Seq<NodeId>) -> Forest
    decreases forest.dom().len(), pending.len(),
    when forest.dom().finite()
{
    if pending.len() == 0 {
        forest
    } else {
        let node = pending.last();
        let rest = pending.drop_last();
        if !forest.contains_key(node) {
            purge(forest, rest)
        } else {
            let left = forest.remove(node);
            let rest = push_unowned(left, rest, forest[node].next_sibling);
            let rest = push_unowned(left, rest, forest[node].first_child);
            purge(left, rest)
        }
    }
}

/// The nodes that are still to be looked at: those that wait, and on top
/// of them the node at hand.
pub open spec fn waiting(stack: Seq<NodeId>, current: Option<NodeId>) -> Seq<NodeId> {
    match current {
        Some(node) => stack.push(node),
        None => stack,
    }
}

/// The forest after `node` lost an owner: if a handle or another node
/// still owns it, nothing happens; if not, it is destroyed with all that
/// only it kept alive.
pub open spec fn settle(forest: Forest, node: NodeId) -> Forest {
    if forest.contains_key(node) && forest[node].handles == 0 && !held(forest, node) {
        purge(forest, seq![node])
    } else {
        forest
    }
}

/// Destroying nodes changes no node that stays, destroys every node that
/// was pending, and spares every node that a handle owns.
pub proof fn lemma_purge_outcome(forest: Forest, pending: Seq<NodeId>)
    requires
        forest.dom().finite(),
    ensures
        purge(forest, pending).dom().finite(),
        forall|node: NodeId| #[trigger]
            purge(forest, pending).contains_key(node) ==> forest.contains_key(node) && purge(
                forest,
                pending,
            )[node] == forest[node],
        forall|i: int| 0 <= i < pending.len() ==> !purge(forest, pending).contains_key(#[trigger] pending[i]),
        forall|node: NodeId| #[trigger]
            forest.contains_key(node) && forest[node].handles >= 1 && !pending.contains(node) ==> purge(
                forest,
                pending,
            ).contains_key(node),
    decreases forest.dom().len(), pending.len(),
{
    if pending.len() == 0 {
    } else {
        let node = pending.last();
        let rest = pending.drop_last();
        if !forest.contains_key(node) {
            lemma_purge_outcome(forest, rest);
            assert forall|i: int| 0 <= i < pending.len() implies !purge(forest, pending).contains_key(
                #[trigger] pending[i],
            ) by {
                if i < rest.len() {
                    assert(rest[i] == pending[i]);
                }
            }
            assert forall|other: NodeId| #[trigger]
                forest.contains_key(other) && forest[other].handles >= 1 && !pending.contains(other)
                implies purge(forest, pending).contains_key(other) by {
                if rest.contains(other) {
                    let i = choose|i: int| 0 <= i < rest.len() && rest[i] == other;
                    assert(pending[i] == other);
                }
            }
        } else {
            let left = forest.remove(node);
            let rest1 = push_unowned(left, rest, forest[node].next_sibling);
            let rest2 = push_unowned(left, rest1, forest[node].first_child);
            lemma_purge_outcome(left, rest2);
            assert forall|i: int| 0 <= i < pending.len() implies !purge(forest, pending).contains_key(
                #[trigger] pending[i],
            ) by {
                if i < rest.len() {
                    assert(rest[i] == pending[i]);
                    assert(rest1[i] == pending[i]);
                    assert(rest2[i] == pending[i]);
                }
            }
            assert forall|other: NodeId| #[trigger]
                forest.contains_key(other) && forest[other].handles >= 1 && !pending.contains(other)
                implies purge(forest, pending).contains_key(other) by {
                assert(pending[pending.len() - 1] == node);
                if rest2.contains(other) {
                    let i = choose|i: int| 0 <= i < rest2.len() && rest2[i] == other;
                    if i < rest.len() {
                        assert(pending[i] == other);
                    }
                }
            }
        }
    }
}

impl Arena {
    /// Whether `link` names a living node that no handle owns.
    pub(crate) fn is_unowned(&self, link: Option<NodeId>) -> (free: bool)
        ensures
            free == unowned(self@, link),
    {
        match link {
            Some(target) => self.contains(target) && self.handles(target) == 0,
            None => false,
        }
    }

    /// Whether another living node owns the living node `node`.
    pub(crate) fn is_held(&self, node: NodeId) -> (kept: bool)
        requires
            self@.contains_key(node),
        ensures
            kept == held(self@, node),
    {
        match self.link(node, Field::PreviousSibling) {
            Some(before) => self.contains(before) && self.link(before, Field::NextSibling) == Some(node),
            None => match self.link(node, Field::Parent) {
                Some(parent) => self.contains(parent) && self.link(parent, Field::FirstChild) == Some(node),
                None => false,
            },
        }
    }

    /// Destroys `start` and, after it, every node that it alone kept
    /// alive.
    ///
    /// Nothing here calls itself. The node at hand is destroyed; if no
    /// handle owns its first child, that child is next, and the sibling
    /// after the node waits on an explicit stack; if not, the sibling is
    /// next, where no handle owns it; if not either, a sibling that waits
    /// is taken up again. So the stack holds at most one node for each
    /// level above the node at hand, however many siblings a level has.
    pub(crate) fn purge(&mut self, start: NodeId)
        requires
            old(self).sound(),
        ensures
            final(self).sound(),
            final(self)@ == purge(old(self)@, seq![start]),
            forall|x: NodeId| final(self).issued(x) == old(self).issued(x),
    {
        let mut stack: Vec<NodeId> = Vec::new();
        let mut current = Some(start);
        // How many first-child links lead from `start` down to the node at
        // hand, and the same for each node that waits.
        let ghost mut depth: nat = 0;
        let ghost mut depths: Seq<nat> = Seq::empty();
        proof {
            self.lemma_finite();
            assert(waiting(stack@, current) =~= seq![start]);
        }
        while current.is_some()
            invariant
                self.sound(),
                self@.dom().finite(),
                current is None ==> stack@.len() == 0,
                purge(self@, waiting(stack@, current)) == purge(old(self)@, seq![start]),
                forall|x: NodeId| self.issued(x) == old(self).issued(x),
                depths.len() == stack@.len(),
                forall|i: int| 0 <= i < depths.len() ==> i <= #[trigger] depths[i] < depth,
                forall|i: int, j: int| 0 <= i < j < depths.len() ==> depths[i] < depths[j],
                stack@.len() <= depth,
            decreases self@.dom().len(), waiting(stack@, current).len(),
        {
            let ghost before = self@;
            let ghost pending = waiting(stack@, current);
            let node = current.unwrap();
            assert(pending.last() == node && pending.drop_last() =~= stack@);
            if self.contains(node) {
                let next_sibling = self.link(node, Field::NextSibling);
                let first_child = self.link(node, Field::FirstChild);
                self.remove(node);
                if self.is_unowned(first_child) {
                    if self.is_unowned(next_sibling) {
                        stack.push(next_sibling.unwrap());
                        proof {
                            depths = depths.push(depth);
                        }
                    }
                    current = first_child;
                    proof {
                        depth = depth + 1;
                    }
                } else if self.is_unowned(next_sibling) {
                    current = next_sibling;
                } else {
                    current = stack.pop();
                    proof {
                        if current is Some {
                            depth = depths.last();
                            depths = depths.drop_last();
                        }
                    }
                }
                proof {
                    self.lemma_finite();
                    assert(waiting(stack@, current) =~= push_unowned(
                        self@,
                        push_unowned(self@, pending.drop_last(), before[node].next_sibling),
                        before[node].first_child,
                    ));
                }
            } else {
                current = stack.pop();
                proof {
                    if current is Some {
                        depth = depths.last();
                        depths = depths.drop_last();
                    }
                    assert(waiting(stack@, current) =~= pending.drop_last());
                }
            }
        }
        assert(waiting(stack@, current) =~= Seq::empty());
    }

    /// Destroys `node`, and what only it kept alive, if neither a handle
    /// nor another node owns it any more.
    pub(crate) fn settle(&mut self, node: NodeId)
        requires
            old(self).sound(),
        ensures
            final(self).sound(),
            final(self)@ == settle(old(self)@, node),
            forall|x: NodeId| final(self).issued(x) == old(self).issued(x),
    {
        if self.contains(node) && self.handles(node) == 0 && !self.is_held(node) {
            self.purge(node);
        }
    }
}

} // verus!
