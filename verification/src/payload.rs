//! Changing what a node carries, in place. A node never changes its kind.

use crate::data::{DocumentData, ElementData, NodeData, QuirksMode};
use crate::handle::NodeRef;
use crate::model::{Forest, NodeId, NodeState};
use crate::shape::{kept_alive, lemma_acyclic_kept, links_agree, tree_wf};
use crate::store::Arena;
use std::collections::HashMap;
use string_cache::QualName;
use vstd::prelude::*;

verus! {

/// `forest` with the payload of `node` replaced by `data`.
pub open spec fn redressed(forest: Forest, node: NodeId, data: NodeData) -> Forest {
    forest.insert(node, NodeState { data, ..forest[node] })
}

/// `data` with `value` as the contents of a text or of a comment; any
/// other payload as it is.
pub open spec fn with_contents(data: NodeData, value: String) -> NodeData {
    match data {
        NodeData::Text(_) => NodeData::Text(value),
        NodeData::Comment(_) => NodeData::Comment(value),
        _ => data,
    }
}

/// The contents of a text or of a comment.
pub open spec fn contents(data: NodeData) -> Option<String> {
    match data {
        NodeData::Text(value) => Some(value),
        NodeData::Comment(value) => Some(value),
        _ => None,
    }
}

/// `data` with `attributes` as the attributes of an element; any other
/// payload as it is.
pub open spec fn with_attributes(data: NodeData, attributes: HashMap<QualName, String>) -> NodeData {
    match data {
        NodeData::Element(element) => NodeData::Element(ElementData { name: element.name, attributes }),
        _ => data,
    }
}

/// `data` with `mode` as the quirks mode of a document; any other payload
/// as it is.
pub open spec fn with_quirks_mode(data: NodeData, mode: QuirksMode) -> NodeData {
    match data {
        NodeData::Document(_) => NodeData::Document(DocumentData { quirks_mode: mode }),
        _ => data,
    }
}

/// Another payload keeps the invariant: it does not speak of payloads.
pub proof fn lemma_redressed(forest: Forest, node: NodeId, data: NodeData)
    requires
        tree_wf(forest),
        forest.contains_key(node),
    ensures
        tree_wf(redressed(forest, node, data)),
{
    let after = redressed(forest, node, data);
    lemma_acyclic_kept(forest, after);
    assert forall|other: NodeId| after.contains_key(other) implies #[trigger] links_agree(after, other) by {
        assert(links_agree(forest, other));
    }
    assert forall|other: NodeId| after.contains_key(other) implies #[trigger] kept_alive(after, other) by {
        assert(kept_alive(forest, other));
    }
}

impl NodeRef {
    /// Gives a text or a comment new contents and returns the former
    /// ones. A node of another kind is left as it is, and nothing is
    /// returned.
    pub fn replace_contents(&self, arena: &mut Arena, value: String) -> (previous: Option<String>)
        requires
            old(arena).wf(),
            old(arena)@.contains_key(self@),
        ensures
            final(arena).wf(),
            previous == contents(old(arena)@[self@].data),
            final(arena)@ == redressed(old(arena)@, self@, with_contents(old(arena)@[self@].data, value)),
            forall|x: NodeId| final(arena).issued(x) == old(arena).issued(x),
    {
        let id = self.id();
        let (data, previous) = match arena.replace_data(id, NodeData::Text(String::new())) {
            NodeData::Text(contents) => (NodeData::Text(value), Some(contents)),
            NodeData::Comment(contents) => (NodeData::Comment(value), Some(contents)),
            other => (other, None),
        };
        arena.replace_data(id, data);
        proof {
            assert(arena@ =~= redressed(old(arena)@, self@, with_contents(old(arena)@[self@].data, value)));
            lemma_redressed(old(arena)@, self@, with_contents(old(arena)@[self@].data, value));
        }
        previous
    }

    /// Gives an element new attributes and returns the former ones. A
    /// node of another kind is left as it is, and nothing is returned.
    pub fn replace_attributes(&self, arena: &mut Arena, attributes: HashMap<QualName, String>) -> (previous: Option<
        HashMap<QualName, String>,
    >)
        requires
            old(arena).wf(),
            old(arena)@.contains_key(self@),
        ensures
            final(arena).wf(),
            previous == match old(arena)@[self@].data {
                NodeData::Element(element) => Some(element.attributes),
                _ => None,
            },
            final(arena)@ == redressed(old(arena)@, self@, with_attributes(old(arena)@[self@].data, attributes)),
            forall|x: NodeId| final(arena).issued(x) == old(arena).issued(x),
    {
        let id = self.id();
        let (data, previous) = match arena.replace_data(id, NodeData::Text(String::new())) {
            NodeData::Element(element) => (
                NodeData::Element(ElementData { name: element.name, attributes }),
                Some(element.attributes),
            ),
            other => (other, None),
        };
        arena.replace_data(id, data);
        proof {
            assert(arena@ =~= redressed(
                old(arena)@,
                self@,
                with_attributes(old(arena)@[self@].data, attributes),
            ));
            lemma_redressed(old(arena)@, self@, with_attributes(old(arena)@[self@].data, attributes));
        }
        previous
    }

    /// Sets the quirks mode of a document. A node of another kind is left
    /// as it is.
    pub fn set_quirks_mode(&self, arena: &mut Arena, mode: QuirksMode)
        requires
            old(arena).wf(),
            old(arena)@.contains_key(self@),
        ensures
            final(arena).wf(),
            final(arena)@ == redressed(old(arena)@, self@, with_quirks_mode(old(arena)@[self@].data, mode)),
            forall|x: NodeId| final(arena).issued(x) == old(arena).issued(x),
    {
        let id = self.id();
        let data = match arena.replace_data(id, NodeData::Text(String::new())) {
            NodeData::Document(_) => NodeData::Document(DocumentData { quirks_mode: mode }),
            other => other,
        };
        arena.replace_data(id, data);
        proof {
            assert(arena@ =~= redressed(old(arena)@, self@, with_quirks_mode(old(arena)@[self@].data, mode)));
            lemma_redressed(old(arena)@, self@, with_quirks_mode(old(arena)@[self@].data, mode));
        }
    }
}

} // verus!
