//! Making nodes, and making and giving up handles to them.

use crate::data::{Doctype, DocumentData, ElementData, NodeData, QuirksMode};
use crate::handle::NodeRef;
use crate::model::{fresh_state, one_less, one_more, owners_kept, Field, Forest, NodeId};
use crate::node::Node;
use crate::shape::{kept_alive, lemma_acyclic_kept, lemma_purge_wf, links_agree, tree_wf, wf_pending};
use crate::store::Arena;
use crate::teardown::{held, lemma_purge_outcome, settle};
use std::collections::HashMap;
use string_cache::QualName;
use vstd::prelude::*;

verus! {

/// `forest` after one more handle to `node` was made.
pub open spec fn duplicated(forest: Forest, node: NodeId) -> Forest {
    forest.insert(node, forest[node].with_handles(one_more(forest[node].handles)))
}

/// `forest` after one handle to `node` was given up: where that was the
/// last owner of `node`, the node is destroyed, and with it every node
/// that it alone kept alive.
pub open spec fn released(forest: Forest, node: NodeId) -> Forest {
    settle(forest.insert(node, forest[node].with_handles(one_less(forest[node].handles))), node)
}

/// A new node without links keeps the invariant, as long as no link names
/// it already.
pub proof fn lemma_created(forest: Forest, node: NodeId, data: NodeData)
    requires
        tree_wf(forest),
        !forest.contains_key(node),
        forall|other: NodeId, field: Field|
            forest.contains_key(other) ==> #[trigger] forest[other].link(field) != Some(node),
    ensures
        tree_wf(forest.insert(node, fresh_state(data))),
{
    let grown = forest.insert(node, fresh_state(data));
    lemma_acyclic_kept(forest, grown);
    assert forall|other: NodeId| grown.contains_key(other) implies #[trigger] links_agree(grown, other) by {
        if other != node {
            assert(links_agree(forest, other));
            assert(forest[other].link(Field::Parent) != Some(node));
            assert(forest[other].link(Field::PreviousSibling) != Some(node));
            assert(forest[other].link(Field::NextSibling) != Some(node));
            assert(forest[other].link(Field::FirstChild) != Some(node));
            assert(forest[other].link(Field::LastChild) != Some(node));
        }
    }
    assert forall|other: NodeId| grown.contains_key(other) implies #[trigger] kept_alive(grown, other) by {
        if other != node {
            assert(kept_alive(forest, other));
            assert(forest[other].link(Field::Parent) != Some(node));
            assert(forest[other].link(Field::PreviousSibling) != Some(node));
        }
    }
}

/// One more handle keeps the invariant.
pub proof fn lemma_duplicated(forest: Forest, node: NodeId)
    requires
        tree_wf(forest),
        forest.contains_key(node),
    ensures
        tree_wf(duplicated(forest, node)),
{
    let after = duplicated(forest, node);
    lemma_acyclic_kept(forest, after);
    assert forall|other: NodeId| after.contains_key(other) implies #[trigger] links_agree(after, other) by {
        assert(links_agree(forest, other));
    }
    assert forall|other: NodeId| after.contains_key(other) implies #[trigger] kept_alive(after, other) by {
        assert(kept_alive(forest, other));
    }
}

/// Giving up a handle keeps the invariant. The node goes exactly when
/// that was its last handle and no other node owns it; every other node
/// that a handle owns stays, and no node that stays is changed.
pub proof fn lemma_released(forest: Forest, node: NodeId)
    requires
        tree_wf(forest),
        forest.contains_key(node),
    ensures
        tree_wf(released(forest, node)),
        released(forest, node).contains_key(node) <==> one_less(forest[node].handles) >= 1 || held(forest, node),
        forall|other: NodeId| #[trigger]
            released(forest, node).contains_key(other) && other != node ==> forest.contains_key(other)
                && released(forest, node)[other] == forest[other],
        forall|other: NodeId| #[trigger]
            forest.contains_key(other) && other != node && forest[other].handles >= 1 ==> released(
                forest,
                node,
            ).contains_key(other),
        owners_kept(forest, released(forest, node), Some(node)),
{
    let fewer = forest.insert(node, forest[node].with_handles(one_less(forest[node].handles)));
    lemma_acyclic_kept(forest, fewer);
    assert(links_agree(forest, node));
    assert forall|other: NodeId| fewer.contains_key(other) implies #[trigger] links_agree(fewer, other) by {
        assert(links_agree(forest, other));
    }
    let pending = seq![node];
    assert(pending[0] == node);
    assert forall|other: NodeId| fewer.contains_key(other) implies #[trigger] kept_alive(fewer, other) || (
    other == node) by {
        assert(kept_alive(forest, other));
    }
    assert(held(fewer, node) == held(forest, node));
    if fewer[node].handles == 0 && !held(fewer, node) {
        assert(wf_pending(fewer, pending));
        lemma_purge_wf(fewer, pending);
        lemma_purge_outcome(fewer, pending);
        assert forall|other: NodeId| #[trigger]
            forest.contains_key(other) && other != node && forest[other].handles >= 1 implies released(
            forest,
            node,
        ).contains_key(other) by {
            assert(fewer.contains_key(other) && fewer[other].handles >= 1);
            if pending.contains(other) {
                let i = choose|i: int| 0 <= i < pending.len() && pending[i] == other;
            }
        }
    } else {
    }
}

impl NodeRef {
    /// Create a new node.
    pub fn new(arena: &mut Arena, data: NodeData) -> (node: NodeRef)
        requires
            old(arena).wf(),
        ensures
            final(arena).wf(),
            !old(arena)@.contains_key(node@),
            !old(arena).issued(node@),
            final(arena)@ == old(arena)@.insert(node@, fresh_state(data)),
            final(arena).owns(&node),
            forall|x: NodeId| final(arena).issued(x) == (old(arena).issued(x) || x == node@),
    {
        let id = arena.insert(data);
        proof {
            assert forall|other: NodeId, field: Field| old(arena)@.contains_key(other) implies #[trigger] old(
                arena,
            )@[other].link(field) != Some(id) by {
                old(arena).lemma_issued(other);
            }
            if old(arena)@.contains_key(id) {
                old(arena).lemma_issued(id);
            }
            lemma_created(old(arena)@, id, data);
        }
        NodeRef::counted(id)
    }

    /// Create a new element node.
    pub fn new_element(arena: &mut Arena, name: QualName, attributes: HashMap<QualName, String>) -> (node: NodeRef)
        requires
            old(arena).wf(),
        ensures
            final(arena).wf(),
            !old(arena)@.contains_key(node@),
            final(arena)@ == old(arena)@.insert(
                node@,
                fresh_state(NodeData::Element(ElementData { name, attributes })),
            ),
            final(arena).owns(&node),
    {
        NodeRef::new(arena, NodeData::Element(ElementData { name, attributes }))
    }

    /// Create a new text node.
    pub fn new_text(arena: &mut Arena, value: String) -> (node: NodeRef)
        requires
            old(arena).wf(),
        ensures
            final(arena).wf(),
            !old(arena)@.contains_key(node@),
            final(arena)@ == old(arena)@.insert(node@, fresh_state(NodeData::Text(value))),
            final(arena).owns(&node),
    {
        NodeRef::new(arena, NodeData::Text(value))
    }

    /// Create a new comment node.
    pub fn new_comment(arena: &mut Arena, value: String) -> (node: NodeRef)
        requires
            old(arena).wf(),
        ensures
            final(arena).wf(),
            !old(arena)@.contains_key(node@),
            final(arena)@ == old(arena)@.insert(node@, fresh_state(NodeData::Comment(value))),
            final(arena).owns(&node),
    {
        NodeRef::new(arena, NodeData::Comment(value))
    }

    /// Create a new doctype node.
    pub fn new_doctype(arena: &mut Arena, name: String, public_id: String, system_id: String) -> (node: NodeRef)
        requires
            old(arena).wf(),
        ensures
            final(arena).wf(),
            !old(arena)@.contains_key(node@),
            final(arena)@ == old(arena)@.insert(
                node@,
                fresh_state(NodeData::Doctype(Doctype { name, public_id, system_id })),
            ),
            final(arena).owns(&node),
    {
        NodeRef::new(arena, NodeData::Doctype(Doctype { name, public_id, system_id }))
    }

    /// Create a new document node.
    pub fn new_document(arena: &mut Arena) -> (node: NodeRef)
        requires
            old(arena).wf(),
        ensures
            final(arena).wf(),
            !old(arena)@.contains_key(node@),
            final(arena)@ == old(arena)@.insert(
                node@,
                fresh_state(NodeData::Document(DocumentData { quirks_mode: QuirksMode::NoQuirks })),
            ),
            final(arena).owns(&node),
    {
        NodeRef::new(arena, NodeData::Document(DocumentData { quirks_mode: QuirksMode::NoQuirks }))
    }

    /// The record of the node, to read its data.
    pub fn node<'a>(&self, arena: &'a Arena) -> (node: &'a Node)
        requires
            arena@.contains_key(self@),
        ensures
            node@ == arena@[self@],
    {
        arena.node(self.id())
    }

    /// Another handle to the same node.
    pub fn duplicate(&self, arena: &mut Arena) -> (twin: NodeRef)
        requires
            old(arena).wf(),
            old(arena)@.contains_key(self@),
        ensures
            final(arena).wf(),
            twin@ == self@,
            final(arena)@ == duplicated(old(arena)@, self@),
            final(arena).owns(&twin),
            forall|x: NodeId| final(arena).issued(x) == old(arena).issued(x),
    {
        arena.add_handle(self.id());
        proof {
            lemma_duplicated(old(arena)@, self@);
        }
        NodeRef::counted(self.id())
    }

    /// Gives this handle up. If it was the last owner of its node, the
    /// node is destroyed, and with it every node that it alone kept alive.
    pub fn release(self, arena: &mut Arena)
        requires
            old(arena).wf(),
            old(arena)@.contains_key(self@),
        ensures
            final(arena).wf(),
            final(arena)@ == released(old(arena)@, self@),
            owners_kept(old(arena)@, final(arena)@, Some(self@)),
            forall|x: NodeId| final(arena).issued(x) == old(arena).issued(x),
    {
        arena.remove_handle(self.id());
        arena.settle(self.id());
        proof {
            lemma_released(old(arena)@, self@);
        }
    }
}

} // verus!
