//! Linking a node into a new place: as the last or the first child of a
//! node, or as the sibling after or before one.
//!
//! The node is detached from where it was, linked in, and the handle that
//! brought it is used up: from then on its new neighbour owns it.

use crate::detach::{detached, lemma_detached};
use crate::handle::NodeRef;
use crate::model::{one_less, owners_kept, relink, resolve, Field, Forest, NodeId};
use crate::shape::{
    acyclic, falls, kept_alive, lemma_around, lemma_purge_wf, links_agree, ordered, tree_wf, wf_pending,
};
use crate::store::Arena;
use crate::teardown::{held, lemma_purge_outcome, settle};
use vstd::prelude::*;

verus! {

/// `forest` after the handle that brought `node` was used up.
pub open spec fn consumed(forest: Forest, node: NodeId) -> Forest {
    forest.insert(node, forest[node].with_handles(one_less(forest[node].handles)))
}

/// Whether `node` is alive and linked to neither a parent nor a sibling,
/// as a node is that was just detached.
pub open spec fn loose(forest: Forest, node: NodeId) -> bool {
    &&& forest.contains_key(node)
    &&& forest[node].parent is None
    &&& forest[node].previous_sibling is None
    &&& forest[node].next_sibling is None
}

/// `free` after the loose node `child` became the last child of `parent`:
/// the last child so far, or else the first-child link of `parent`, owns
/// it now.
pub open spec fn hung_last(free: Forest, parent: NodeId, child: NodeId) -> Forest {
    let owned = relink(free, child, Field::Parent, Some(parent));
    let last = owned[parent].last_child;
    let ended = relink(owned, parent, Field::LastChild, Some(child));
    let linked = match resolve(ended, last) {
        Some(before) => relink(
            relink(ended, child, Field::PreviousSibling, last),
            before,
            Field::NextSibling,
            Some(child),
        ),
        None => relink(ended, parent, Field::FirstChild, Some(child)),
    };
    consumed(linked, child)
}

/// `free` after the loose node `child` became the first child of
/// `parent`: it owns the first child so far, and the first-child link of
/// `parent` owns it.
pub open spec fn hung_first(free: Forest, parent: NodeId, child: NodeId) -> Forest {
    let owned = relink(free, child, Field::Parent, Some(parent));
    let first = owned[parent].first_child;
    let emptied = relink(owned, parent, Field::FirstChild, None);
    let linked = match resolve(emptied, first) {
        Some(after) => relink(
            relink(emptied, after, Field::PreviousSibling, Some(child)),
            child,
            Field::NextSibling,
            first,
        ),
        None => relink(emptied, parent, Field::LastChild, Some(child)),
    };
    consumed(relink(linked, parent, Field::FirstChild, Some(child)), child)
}

/// `free` after the loose node `sibling` was linked in after `node`: it
/// owns the sibling that came after `node` so far, and `node` owns it.
pub open spec fn put_after(free: Forest, node: NodeId, sibling: NodeId) -> Forest {
    let owned = relink(free, sibling, Field::Parent, free[node].parent);
    let backed = relink(owned, sibling, Field::PreviousSibling, Some(node));
    let next = backed[node].next_sibling;
    let emptied = relink(backed, node, Field::NextSibling, None);
    let linked = match resolve(emptied, next) {
        Some(after) => relink(
            relink(emptied, after, Field::PreviousSibling, Some(sibling)),
            sibling,
            Field::NextSibling,
            next,
        ),
        None => match resolve(emptied, emptied[node].parent) {
            Some(parent) => relink(emptied, parent, Field::LastChild, Some(sibling)),
            None => emptied,
        },
    };
    consumed(relink(linked, node, Field::NextSibling, Some(sibling)), sibling)
}

/// `free` after the loose node `sibling` was linked in before `node`: it
/// owns `node`, and the sibling that came before `node` so far, or else
/// the first-child link of the parent, owns it.
pub open spec fn put_before(free: Forest, node: NodeId, sibling: NodeId) -> Forest {
    let owned = relink(free, sibling, Field::Parent, free[node].parent);
    let fronted = relink(owned, sibling, Field::NextSibling, Some(node));
    let previous = fronted[node].previous_sibling;
    let backed = relink(fronted, node, Field::PreviousSibling, Some(sibling));
    let linked = match resolve(backed, previous) {
        Some(before) => relink(
            relink(backed, sibling, Field::PreviousSibling, previous),
            before,
            Field::NextSibling,
            Some(sibling),
        ),
        None => match resolve(backed, backed[node].parent) {
            Some(parent) => relink(backed, parent, Field::FirstChild, Some(sibling)),
            None => backed,
        },
    };
    consumed(linked, sibling)
}

/// Whether `node` has neither a living sibling before it nor a living
/// parent, so that no node can own a sibling that is put before it.
pub open spec fn unanchored(forest: Forest, node: NodeId) -> bool {
    resolve(forest, forest[node].previous_sibling) is None && resolve(forest, forest[node].parent) is None
}

/// `forest` after `child` became the last child of `parent`.
pub open spec fn appended(forest: Forest, parent: NodeId, child: NodeId) -> Forest {
    hung_last(detached(forest, child), parent, child)
}

/// `forest` after `child` became the first child of `parent`.
pub open spec fn prepended(forest: Forest, parent: NodeId, child: NodeId) -> Forest {
    hung_first(detached(forest, child), parent, child)
}

/// `forest` after `sibling` became the sibling after `node`.
pub open spec fn inserted_after(forest: Forest, node: NodeId, sibling: NodeId) -> Forest {
    put_after(detached(forest, sibling), node, sibling)
}

/// `forest` after `sibling` became the sibling before `node`. Where no
/// node can own `sibling` there, it lives on only if another handle owns
/// it.
pub open spec fn inserted_before(forest: Forest, node: NodeId, sibling: NodeId) -> Forest {
    let free = detached(forest, sibling);
    if unanchored(free, node) {
        settle(put_before(free, node, sibling), sibling)
    } else {
        put_before(free, node, sibling)
    }
}

/// What the invariant says of one node once a loose node was hung in as the last child.
proof fn lemma_hung_last_node(free: Forest, parent: NodeId, child: NodeId, other: NodeId)
    requires
        tree_wf(free),
        free.contains_key(parent),
        loose(free, child),
        free.contains_key(other),
    ensures
        links_agree(hung_last(free, parent, child), other),
        kept_alive(hung_last(free, parent, child), other),
{
    lemma_around(free, other);
    lemma_around(free, parent);
    lemma_around(free, child);
}

/// No node comes after itself once a loose node was hung in as the last child.
proof fn lemma_hung_last_order(free: Forest, parent: NodeId, child: NodeId)
    requires
        tree_wf(free),
        free.contains_key(parent),
        loose(free, child),
    ensures
        acyclic(hung_last(free, parent, child)),
{
    let after = hung_last(free, parent, child);
    let rank = choose|rank: spec_fn(NodeId) -> nat| ordered(free, rank);
    let shifted = |k: NodeId|
        if k == child {
            0nat
        } else {
            rank(k) + 1
        };
    lemma_around(free, parent);
    lemma_around(free, child);
    assert forall|other: NodeId| after.contains_key(other) implies #[trigger] falls(after, shifted, other) by {
        assert(falls(free, rank, other));
        assert(links_agree(free, other));
    }
    assert(ordered(after, shifted));
}

/// Hanging a loose node in as the last child keeps the invariant.
pub proof fn lemma_hung_last(free: Forest, parent: NodeId, child: NodeId)
    requires
        tree_wf(free),
        free.contains_key(parent),
        loose(free, child),
    ensures
        tree_wf(hung_last(free, parent, child)),
        hung_last(free, parent, child).dom() == free.dom(),
        owners_kept(free, hung_last(free, parent, child), Some(child)),
{
    let after = hung_last(free, parent, child);
    assert(after.dom() =~= free.dom());
    lemma_hung_last_order(free, parent, child);
    assert forall|other: NodeId| after.contains_key(other) implies #[trigger] links_agree(after, other) by {
        lemma_hung_last_node(free, parent, child, other);
    }
    assert forall|other: NodeId| after.contains_key(other) implies #[trigger] kept_alive(after, other) by {
        lemma_hung_last_node(free, parent, child, other);
    }
}

/// What the invariant says of one node once a loose node was hung in as the first child.
proof fn lemma_hung_first_node(free: Forest, parent: NodeId, child: NodeId, other: NodeId)
    requires
        tree_wf(free),
        free.contains_key(parent),
        loose(free, child),
        free.contains_key(other),
    ensures
        links_agree(hung_first(free, parent, child), other),
        kept_alive(hung_first(free, parent, child), other),
{
    lemma_around(free, other);
    lemma_around(free, parent);
    lemma_around(free, child);
}

/// No node comes after itself once a loose node was hung in as the first child.
proof fn lemma_hung_first_order(free: Forest, parent: NodeId, child: NodeId)
    requires
        tree_wf(free),
        free.contains_key(parent),
        loose(free, child),
    ensures
        acyclic(hung_first(free, parent, child)),
{
    let after = hung_first(free, parent, child);
    let rank = choose|rank: spec_fn(NodeId) -> nat| ordered(free, rank);
    let shifted = |k: NodeId|
        if k == child && free[parent].first_child is Some {
            rank(free[parent].first_child->0) + 1
        } else {
            rank(k)
        };
    lemma_around(free, parent);
    lemma_around(free, child);
    assert forall|other: NodeId| after.contains_key(other) implies #[trigger] falls(after, shifted, other) by {
        assert(falls(free, rank, other));
        assert(links_agree(free, other));
    }
    assert(ordered(after, shifted));
}

/// Hanging a loose node in as the first child keeps the invariant.
pub proof fn lemma_hung_first(free: Forest, parent: NodeId, child: NodeId)
    requires
        tree_wf(free),
        free.contains_key(parent),
        loose(free, child),
    ensures
        tree_wf(hung_first(free, parent, child)),
        hung_first(free, parent, child).dom() == free.dom(),
        owners_kept(free, hung_first(free, parent, child), Some(child)),
{
    let after = hung_first(free, parent, child);
    assert(after.dom() =~= free.dom());
    lemma_hung_first_order(free, parent, child);
    assert forall|other: NodeId| after.contains_key(other) implies #[trigger] links_agree(after, other) by {
        lemma_hung_first_node(free, parent, child, other);
    }
    assert forall|other: NodeId| after.contains_key(other) implies #[trigger] kept_alive(after, other) by {
        lemma_hung_first_node(free, parent, child, other);
    }
}

/// What the invariant says of one node once a loose node was put after another one.
proof fn lemma_put_after_node(free: Forest, node: NodeId, sibling: NodeId, other: NodeId)
    requires
        tree_wf(free),
        free.contains_key(node),
        loose(free, sibling),
        node != sibling,
        free.contains_key(other),
    ensures
        links_agree(put_after(free, node, sibling), other),
        kept_alive(put_after(free, node, sibling), other),
{
    lemma_around(free, other);
    lemma_around(free, node);
    lemma_around(free, sibling);
}

/// No node comes after itself once a loose node was put after another one.
proof fn lemma_put_after_order(free: Forest, node: NodeId, sibling: NodeId)
    requires
        tree_wf(free),
        free.contains_key(node),
        loose(free, sibling),
        node != sibling,
    ensures
        acyclic(put_after(free, node, sibling)),
{
    let after = put_after(free, node, sibling);
    let rank = choose|rank: spec_fn(NodeId) -> nat| ordered(free, rank);
    let shifted = |k: NodeId|
        if k == sibling {
            rank(node)
        } else if rank(k) >= rank(node) {
            rank(k) + 1
        } else {
            rank(k)
        };
    lemma_around(free, node);
    lemma_around(free, sibling);
    assert(falls(free, rank, node));
    assert forall|other: NodeId| after.contains_key(other) implies #[trigger] falls(after, shifted, other) by {
        assert(falls(free, rank, other));
        assert(links_agree(free, other));
    }
    assert(ordered(after, shifted));
}

/// Putting a loose node after another one keeps the invariant.
pub proof fn lemma_put_after(free: Forest, node: NodeId, sibling: NodeId)
    requires
        tree_wf(free),
        free.contains_key(node),
        loose(free, sibling),
        node != sibling,
    ensures
        tree_wf(put_after(free, node, sibling)),
        put_after(free, node, sibling).dom() == free.dom(),
        owners_kept(free, put_after(free, node, sibling), Some(sibling)),
{
    let after = put_after(free, node, sibling);
    assert(after.dom() =~= free.dom());
    lemma_put_after_order(free, node, sibling);
    assert forall|other: NodeId| after.contains_key(other) implies #[trigger] links_agree(after, other) by {
        lemma_put_after_node(free, node, sibling, other);
    }
    assert forall|other: NodeId| after.contains_key(other) implies #[trigger] kept_alive(after, other) by {
        lemma_put_after_node(free, node, sibling, other);
    }
}

/// What the invariant says of one node once a loose node was put before another one.
proof fn lemma_put_before_node(free: Forest, node: NodeId, sibling: NodeId, other: NodeId)
    requires
        tree_wf(free),
        free.contains_key(node),
        loose(free, sibling),
        node != sibling,
        free.contains_key(other),
    ensures
        links_agree(put_before(free, node, sibling), other),
        kept_alive(put_before(free, node, sibling), other) || (other == sibling && unanchored(free, node)),
{
    lemma_around(free, other);
    lemma_around(free, node);
    lemma_around(free, sibling);
}

/// No node comes after itself once a loose node was put before another one.
proof fn lemma_put_before_order(free: Forest, node: NodeId, sibling: NodeId)
    requires
        tree_wf(free),
        free.contains_key(node),
        loose(free, sibling),
        node != sibling,
    ensures
        acyclic(put_before(free, node, sibling)),
{
    let after = put_before(free, node, sibling);
    let rank = choose|rank: spec_fn(NodeId) -> nat| ordered(free, rank);
    let shifted = |k: NodeId|
        if k == sibling {
            rank(node) + 1
        } else if rank(k) > rank(node) {
            rank(k) + 1
        } else {
            rank(k)
        };
    lemma_around(free, node);
    lemma_around(free, sibling);
    if let Some(before) = free[node].previous_sibling {
        if free.contains_key(before) {
            assert(falls(free, rank, before));
        }
    }
    assert forall|other: NodeId| after.contains_key(other) implies #[trigger] falls(after, shifted, other) by {
        assert(falls(free, rank, other));
        assert(links_agree(free, other));
    }
    assert(ordered(after, shifted));
}

/// Putting a loose node before another one keeps the invariant, once the
/// node is destroyed again where nothing came to own it.
pub proof fn lemma_put_before(free: Forest, node: NodeId, sibling: NodeId)
    requires
        tree_wf(free),
        free.contains_key(node),
        free[node].handles >= 1,
        loose(free, sibling),
        node != sibling,
    ensures
        tree_wf(
            if unanchored(free, node) {
                settle(put_before(free, node, sibling), sibling)
            } else {
                put_before(free, node, sibling)
            },
        ),
        owners_kept(
            free,
            if unanchored(free, node) {
                settle(put_before(free, node, sibling), sibling)
            } else {
                put_before(free, node, sibling)
            },
            Some(sibling),
        ),
{
    let placed = put_before(free, node, sibling);
    assert(placed.dom() =~= free.dom());
    lemma_put_before_order(free, node, sibling);
    assert forall|other: NodeId| placed.contains_key(other) implies #[trigger] links_agree(placed, other) by {
        lemma_put_before_node(free, node, sibling, other);
    }
    assert forall|other: NodeId| placed.contains_key(other) implies #[trigger] kept_alive(placed, other) || (
    other == sibling && unanchored(free, node)) by {
        lemma_put_before_node(free, node, sibling, other);
    }
    if unanchored(free, node) && placed[sibling].handles == 0 && !held(placed, sibling) {
        let pending = seq![sibling];
        assert(pending[0] == sibling);
        assert(wf_pending(placed, pending));
        lemma_purge_wf(placed, pending);
        lemma_purge_outcome(placed, pending);
        assert forall|other: NodeId|
            free.contains_key(other) && free[other].handles >= 1 && other != sibling implies #[trigger] settle(
            placed,
            sibling,
        ).contains_key(other) by {
            if pending.contains(other) {
                let i = choose|i: int| 0 <= i < pending.len() && pending[i] == other;
            }
        }
    } else {
        assert(kept_alive(placed, sibling));
    }
}

/// Appending keeps the invariant.
pub proof fn lemma_appended(forest: Forest, parent: NodeId, child: NodeId)
    requires
        tree_wf(forest),
        forest.contains_key(parent),
        forest[parent].handles >= 1,
        forest.contains_key(child),
        forest[child].handles >= 1,
    ensures
        tree_wf(appended(forest, parent, child)),
        appended(forest, parent, child).dom() == detached(forest, child).dom(),
        owners_kept(forest, appended(forest, parent, child), Some(child)),
        appended(forest, parent, child).contains_key(child),
{
    lemma_detached(forest, child);
    lemma_hung_last(detached(forest, child), parent, child);
}

/// Prepending keeps the invariant.
pub proof fn lemma_prepended(forest: Forest, parent: NodeId, child: NodeId)
    requires
        tree_wf(forest),
        forest.contains_key(parent),
        forest[parent].handles >= 1,
        forest.contains_key(child),
        forest[child].handles >= 1,
    ensures
        tree_wf(prepended(forest, parent, child)),
        prepended(forest, parent, child).dom() == detached(forest, child).dom(),
        owners_kept(forest, prepended(forest, parent, child), Some(child)),
        prepended(forest, parent, child).contains_key(child),
{
    lemma_detached(forest, child);
    lemma_hung_first(detached(forest, child), parent, child);
}

/// Inserting a node after another one keeps the invariant.
pub proof fn lemma_inserted_after(forest: Forest, node: NodeId, sibling: NodeId)
    requires
        tree_wf(forest),
        forest.contains_key(node),
        forest[node].handles >= 1,
        forest.contains_key(sibling),
        forest[sibling].handles >= 1,
        node != sibling,
    ensures
        tree_wf(inserted_after(forest, node, sibling)),
        inserted_after(forest, node, sibling).dom() == detached(forest, sibling).dom(),
        owners_kept(forest, inserted_after(forest, node, sibling), Some(sibling)),
        inserted_after(forest, node, sibling).contains_key(sibling),
{
    lemma_detached(forest, sibling);
    lemma_put_after(detached(forest, sibling), node, sibling);
}

/// Inserting a node before another one keeps the invariant.
pub proof fn lemma_inserted_before(forest: Forest, node: NodeId, sibling: NodeId)
    requires
        tree_wf(forest),
        forest.contains_key(node),
        forest[node].handles >= 1,
        forest.contains_key(sibling),
        forest[sibling].handles >= 1,
        node != sibling,
    ensures
        tree_wf(inserted_before(forest, node, sibling)),
        inserted_before(forest, node, sibling).contains_key(node),
        owners_kept(forest, inserted_before(forest, node, sibling), Some(sibling)),
{
    lemma_detached(forest, sibling);
    lemma_put_before(detached(forest, sibling), node, sibling);
}

impl NodeRef {
    /// Append a new child to this node, after existing children.
    ///
    /// The new child is detached from its previous position. The handle
    /// that brings it is used up: the tree owns the child from now on.
    pub fn append(&self, arena: &mut Arena, new_child: NodeRef)
        requires
            old(arena).wf(),
            old(arena).owns(self),
            old(arena).owns(&new_child),
        ensures
            final(arena).wf(),
            final(arena)@ == appended(old(arena)@, self@, new_child@),
            owners_kept(old(arena)@, final(arena)@, Some(new_child@)),
            forall|x: NodeId| final(arena).issued(x) == old(arena).issued(x),
    {
        let parent = self.id();
        let child = new_child.id();
        new_child.detach(arena);
        proof {
            lemma_detached(old(arena)@, child);
            arena.lemma_issued(parent);
            arena.lemma_issued(child);
        }
        arena.set_link(child, Field::Parent, Some(parent));
        let last_child_weak = arena.replace_link(parent, Field::LastChild, Some(child));
        match arena.resolve(last_child_weak) {
            Some(last_child) => {
                arena.set_link(child, Field::PreviousSibling, last_child_weak);
                arena.set_link(last_child, Field::NextSibling, Some(child));
            },
            None => {
                arena.set_link(parent, Field::FirstChild, Some(child));
            },
        }
        arena.remove_handle(child);
        proof {
            lemma_appended(old(arena)@, parent, child);
        }
    }

    /// Prepend a new child to this node, before existing children.
    ///
    /// The new child is detached from its previous position. The handle
    /// that brings it is used up: the tree owns the child from now on.
    pub fn prepend(&self, arena: &mut Arena, new_child: NodeRef)
        requires
            old(arena).wf(),
            old(arena).owns(self),
            old(arena).owns(&new_child),
        ensures
            final(arena).wf(),
            final(arena)@ == prepended(old(arena)@, self@, new_child@),
            owners_kept(old(arena)@, final(arena)@, Some(new_child@)),
            forall|x: NodeId| final(arena).issued(x) == old(arena).issued(x),
    {
        let parent = self.id();
        let child = new_child.id();
        new_child.detach(arena);
        proof {
            lemma_detached(old(arena)@, child);
            arena.lemma_issued(parent);
            arena.lemma_issued(child);
        }
        arena.set_link(child, Field::Parent, Some(parent));
        let first_child_strong = arena.take_link(parent, Field::FirstChild);
        match arena.resolve(first_child_strong) {
            Some(first_child) => {
                arena.set_link(first_child, Field::PreviousSibling, Some(child));
                arena.set_link(child, Field::NextSibling, first_child_strong);
            },
            None => {
                arena.set_link(parent, Field::LastChild, Some(child));
            },
        }
        arena.set_link(parent, Field::FirstChild, Some(child));
        arena.remove_handle(child);
        proof {
            lemma_prepended(old(arena)@, parent, child);
        }
    }

    /// Insert a new sibling after this node.
    ///
    /// The new sibling is detached from its previous position, and gets
    /// the parent of this node, if there is one. The handle that brings it
    /// is used up: this node owns the sibling from now on. No node can be
    /// put beside itself.
    pub fn insert_after(&self, arena: &mut Arena, new_sibling: NodeRef)
        requires
            old(arena).wf(),
            old(arena).owns(self),
            old(arena).owns(&new_sibling),
            self@ != new_sibling@,
        ensures
            final(arena).wf(),
            final(arena)@ == inserted_after(old(arena)@, self@, new_sibling@),
            owners_kept(old(arena)@, final(arena)@, Some(new_sibling@)),
            forall|x: NodeId| final(arena).issued(x) == old(arena).issued(x),
    {
        let node = self.id();
        let sibling = new_sibling.id();
        new_sibling.detach(arena);
        proof {
            lemma_detached(old(arena)@, sibling);
            arena.lemma_issued(node);
            arena.lemma_issued(sibling);
        }
        let parent_weak = arena.link(node, Field::Parent);
        arena.set_link(sibling, Field::Parent, parent_weak);
        arena.set_link(sibling, Field::PreviousSibling, Some(node));
        let next_sibling_strong = arena.take_link(node, Field::NextSibling);
        match arena.resolve(next_sibling_strong) {
            Some(next_sibling) => {
                arena.set_link(next_sibling, Field::PreviousSibling, Some(sibling));
                arena.set_link(sibling, Field::NextSibling, next_sibling_strong);
            },
            None => {
                if let Some(parent) = arena.resolve(arena.link(node, Field::Parent)) {
                    arena.set_link(parent, Field::LastChild, Some(sibling));
                }
            },
        }
        arena.set_link(node, Field::NextSibling, Some(sibling));
        arena.remove_handle(sibling);
        proof {
            lemma_inserted_after(old(arena)@, node, sibling);
        }
    }

    /// Insert a new sibling before this node.
    ///
    /// The new sibling is detached from its previous position, and gets
    /// the parent of this node, if there is one. The handle that brings it
    /// is used up: the sibling before this node, or else the parent, owns
    /// the new sibling from now on. Where this node has neither, nothing in
    /// the tree owns the new sibling, and it is destroyed unless another
    /// handle owns it. No node can be put beside itself.
    pub fn insert_before(&self, arena: &mut Arena, new_sibling: NodeRef)
        requires
            old(arena).wf(),
            old(arena).owns(self),
            old(arena).owns(&new_sibling),
            self@ != new_sibling@,
        ensures
            final(arena).wf(),
            final(arena)@ == inserted_before(old(arena)@, self@, new_sibling@),
            owners_kept(old(arena)@, final(arena)@, Some(new_sibling@)),
            forall|x: NodeId| final(arena).issued(x) == old(arena).issued(x),
    {
        let node = self.id();
        let sibling = new_sibling.id();
        new_sibling.detach(arena);
        proof {
            lemma_detached(old(arena)@, sibling);
            arena.lemma_issued(node);
            arena.lemma_issued(sibling);
        }
        let parent_weak = arena.link(node, Field::Parent);
        arena.set_link(sibling, Field::Parent, parent_weak);
        arena.set_link(sibling, Field::NextSibling, Some(node));
        let previous_sibling_weak = arena.replace_link(node, Field::PreviousSibling, Some(sibling));
        match arena.resolve(previous_sibling_weak) {
            Some(previous_sibling) => {
                arena.set_link(sibling, Field::PreviousSibling, previous_sibling_weak);
                arena.set_link(previous_sibling, Field::NextSibling, Some(sibling));
                arena.remove_handle(sibling);
            },
            None => {
                match arena.resolve(arena.link(node, Field::Parent)) {
                    Some(parent) => {
                        arena.set_link(parent, Field::FirstChild, Some(sibling));
                        arena.remove_handle(sibling);
                    },
                    None => {
                        arena.remove_handle(sibling);
                        arena.settle(sibling);
                    },
                }
            },
        }
        proof {
            lemma_inserted_before(old(arena)@, node, sibling);
        }
    }
}

} // verus!
