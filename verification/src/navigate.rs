//! Walking from a node to its parent, its children and its siblings.
//!
//! A record tells where its links lead without changing anything; a handle
//! gives a new handle to the neighbour, which is counted.

use crate::create::{duplicated, lemma_duplicated};
use crate::handle::NodeRef;
use crate::model::{resolve, Field, Forest, NodeId};
use crate::node::Node;
use crate::store::Arena;
use vstd::prelude::*;

verus! {

/// The node that one link of `node` leads to, if that node is alive.
pub open spec fn neighbour(forest: Forest, node: NodeId, field: Field) -> Option<NodeId> {
    resolve(forest, forest[node].link(field))
}

/// Whether `found` and `after` are what following the link `field` of
/// `node` in `before` gives: a new handle to the neighbour, counted in
/// `after`; or nothing, with `after` the same as `before`.
pub open spec fn follows(before: Forest, node: NodeId, field: Field, found: Option<NodeRef>, after: Forest) -> bool {
    match found {
        Some(handle) => neighbour(before, node, field) == Some(handle@) && after == duplicated(before, handle@),
        None => neighbour(before, node, field) is None && after == before,
    }
}

/// Whether `found` and `after` are what asking for a handle to `target`
/// in `before` gives: a new handle, counted in `after`, if `target` is
/// alive; or nothing, with `after` the same as `before`.
pub open spec fn upgrades(before: Forest, target: NodeId, found: Option<NodeRef>, after: Forest) -> bool {
    match found {
        Some(handle) => before.contains_key(target) && handle@ == target && after == duplicated(before, target),
        None => !before.contains_key(target) && after == before,
    }
}

impl Node {
    /// The parent of this node, unless this node is the root of the tree.
    pub fn parent(&self, arena: &Arena) -> (found: Option<NodeId>)
        ensures
            found == resolve(arena@, self@.parent),
    {
        arena.resolve(self.link(Field::Parent))
    }

    /// The first child of this node, unless it has no child.
    pub fn first_child(&self, arena: &Arena) -> (found: Option<NodeId>)
        ensures
            found == resolve(arena@, self@.first_child),
    {
        arena.resolve(self.link(Field::FirstChild))
    }

    /// The last child of this node, unless it has no child.
    pub fn last_child(&self, arena: &Arena) -> (found: Option<NodeId>)
        ensures
            found == resolve(arena@, self@.last_child),
    {
        arena.resolve(self.link(Field::LastChild))
    }

    /// The previous sibling of this node, unless it is a first child.
    pub fn previous_sibling(&self, arena: &Arena) -> (found: Option<NodeId>)
        ensures
            found == resolve(arena@, self@.previous_sibling),
    {
        arena.resolve(self.link(Field::PreviousSibling))
    }

    /// The next sibling of this node, unless it is a last child.
    pub fn next_sibling(&self, arena: &Arena) -> (found: Option<NodeId>)
        ensures
            found == resolve(arena@, self@.next_sibling),
    {
        arena.resolve(self.link(Field::NextSibling))
    }
}

impl NodeRef {
    /// A new handle to the node `target`, if it is alive.
    pub fn upgrade(arena: &mut Arena, target: NodeId) -> (found: Option<NodeRef>)
        requires
            old(arena).wf(),
        ensures
            final(arena).wf(),
            upgrades(old(arena)@, target, found, final(arena)@),
            found matches Some(handle) ==> final(arena).owns(&handle),
            forall|x: NodeId| final(arena).issued(x) == old(arena).issued(x),
    {
        if arena.contains(target) {
            arena.add_handle(target);
            proof {
                lemma_duplicated(old(arena)@, target);
            }
            Some(NodeRef::counted(target))
        } else {
            None
        }
    }

    /// A new handle to the node that one link of this node leads to.
    fn follow(&self, arena: &mut Arena, field: Field) -> (found: Option<NodeRef>)
        requires
            old(arena).wf(),
            old(arena)@.contains_key(self@),
        ensures
            final(arena).wf(),
            follows(old(arena)@, self@, field, found, final(arena)@),
            found matches Some(handle) ==> final(arena).owns(&handle),
            forall|x: NodeId| final(arena).issued(x) == old(arena).issued(x),
    {
        match arena.link(self.id(), field) {
            Some(target) => NodeRef::upgrade(arena, target),
            None => None,
        }
    }

    /// Return a reference to the parent node, unless this node is the root of the tree.
    pub fn parent(&self, arena: &mut Arena) -> (found: Option<NodeRef>)
        requires
            old(arena).wf(),
            old(arena)@.contains_key(self@),
        ensures
            final(arena).wf(),
            follows(old(arena)@, self@, Field::Parent, found, final(arena)@),
            found matches Some(handle) ==> final(arena).owns(&handle),
            forall|x: NodeId| final(arena).issued(x) == old(arena).issued(x),
    {
        self.follow(arena, Field::Parent)
    }

    /// Return a reference to the first child of this node, unless it has no child.
    pub fn first_child(&self, arena: &mut Arena) -> (found: Option<NodeRef>)
        requires
            old(arena).wf(),
            old(arena)@.contains_key(self@),
        ensures
            final(arena).wf(),
            follows(old(arena)@, self@, Field::FirstChild, found, final(arena)@),
            found matches Some(handle) ==> final(arena).owns(&handle),
            forall|x: NodeId| final(arena).issued(x) == old(arena).issued(x),
    {
        self.follow(arena, Field::FirstChild)
    }

    /// Return a reference to the last child of this node, unless it has no child.
    pub fn last_child(&self, arena: &mut Arena) -> (found: Option<NodeRef>)
        requires
            old(arena).wf(),
            old(arena)@.contains_key(self@),
        ensures
            final(arena).wf(),
            follows(old(arena)@, self@, Field::LastChild, found, final(arena)@),
            found matches Some(handle) ==> final(arena).owns(&handle),
            forall|x: NodeId| final(arena).issued(x) == old(arena).issued(x),
    {
        self.follow(arena, Field::LastChild)
    }

    /// Return a reference to the previous sibling of this node, unless it is a first child.
    pub fn previous_sibling(&self, arena: &mut Arena) -> (found: Option<NodeRef>)
        requires
            old(arena).wf(),
            old(arena)@.contains_key(self@),
        ensures
            final(arena).wf(),
            follows(old(arena)@, self@, Field::PreviousSibling, found, final(arena)@),
            found matches Some(handle) ==> final(arena).owns(&handle),
            forall|x: NodeId| final(arena).issued(x) == old(arena).issued(x),
    {
        self.follow(arena, Field::PreviousSibling)
    }

    /// Return a reference to the next sibling of this node, unless it is a last child.
    pub fn next_sibling(&self, arena: &mut Arena) -> (found: Option<NodeRef>)
        requires
            old(arena).wf(),
            old(arena)@.contains_key(self@),
        ensures
            final(arena).wf(),
            follows(old(arena)@, self@, Field::NextSibling, found, final(arena)@),
            found matches Some(handle) ==> final(arena).owns(&handle),
            forall|x: NodeId| final(arena).issued(x) == old(arena).issued(x),
    {
        self.follow(arena, Field::NextSibling)
    }
}

} // verus!
