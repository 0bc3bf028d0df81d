//! The mathematical picture of a forest: which nodes are alive, what each
//! of them links to, and how many handles point at it.

use crate::data::NodeData;
use vstd::prelude::*;

verus! {

/// The identity of a node. Two nodes never share one, not even when
/// the first has long been destroyed.
#[derive(Clone, Copy, Debug, PartialEq, Eq, Structural)]
pub struct NodeId {
    /// The place of the node's record in the storage.
    pub index: usize,
    /// Which of the records that have lived in that place this one is.
    pub stamp: u64,
}

/// One of the five links of a node.
#[derive(Clone, Copy, Debug, PartialEq, Eq, Structural)]
pub enum Field {
    /// Weak link to the parent.
    Parent,
    /// Weak link to the sibling before.
    PreviousSibling,
    /// Owning link to the sibling after.
    NextSibling,
    /// Owning link to the first child.
    FirstChild,
    /// Weak link to the last child.
    LastChild,
}

/// Everything that is known of one living node.
pub struct NodeState {
    /// Weak link to the parent.
    pub parent: Option<NodeId>,
    /// Weak link to the sibling before.
    pub previous_sibling: Option<NodeId>,
    /// Owning link to the sibling after.
    pub next_sibling: Option<NodeId>,
    /// Owning link to the first child.
    pub first_child: Option<NodeId>,
    /// Weak link to the last child.
    pub last_child: Option<NodeId>,
    /// How many handles own the node.
    pub handles: u64,
    /// The payload.
    pub data: NodeData,
}

/// The living nodes of a forest, each with its state.
pub type Forest = Map<NodeId, NodeState>;

impl NodeState {
    /// The link that `field` names.
    pub open spec fn link(self, field: Field) -> Option<NodeId> {
        match field {
            Field::Parent => self.parent,
            Field::PreviousSibling => self.previous_sibling,
            Field::NextSibling => self.next_sibling,
            Field::FirstChild => self.first_child,
            Field::LastChild => self.last_child,
        }
    }

    /// This state with the link that `field` names set to `target`.
    pub open spec fn with_link(self, field: Field, target: Option<NodeId>) -> NodeState {
        match field {
            Field::Parent => NodeState { parent: target, ..self },
            Field::PreviousSibling => NodeState { previous_sibling: target, ..self },
            Field::NextSibling => NodeState { next_sibling: target, ..self },
            Field::FirstChild => NodeState { first_child: target, ..self },
            Field::LastChild => NodeState { last_child: target, ..self },
        }
    }

    /// This state with another number of handles.
    pub open spec fn with_handles(self, handles: u64) -> NodeState {
        NodeState { handles, ..self }
    }
}

/// The state of a node that was just created around `data`: no links,
/// and the one handle that its creator receives.
pub open spec fn fresh_state(data: NodeData) -> NodeState {
    NodeState {
        parent: None,
        previous_sibling: None,
        next_sibling: None,
        first_child: None,
        last_child: None,
        handles: 1,
        data,
    }
}

/// A handle count after one more handle was made. The count sticks at the
/// largest value, and a node that reached it is never destroyed.
pub open spec fn one_more(handles: u64) -> u64 {
    if handles < u64::MAX {
        (handles + 1) as u64
    } else {
        handles
    }
}

/// A handle count after one handle was given up.
pub open spec fn one_less(handles: u64) -> u64 {
    if 0 < handles < u64::MAX {
        (handles - 1) as u64
    } else {
        handles
    }
}

/// What a link leads to: its target while that node is alive, nothing
/// once it has been destroyed.
pub open spec fn resolve(forest: Forest, link: Option<NodeId>) -> Option<NodeId> {
    match link {
        Some(target) if forest.contains_key(target) => Some(target),
        _ => None,
    }
}

/// `forest` with the link `field` of `node` set to `target`.
pub open spec fn relink(forest: Forest, node: NodeId, field: Field, target: Option<NodeId>) -> Forest {
    forest.insert(node, forest[node].with_link(field, target))
}

/// Whether every node of `before` that a handle owns is alive in `after`
/// too, with as many handles and the same payload. The node `except`, if
/// there is one, is left out.
pub open spec fn owners_kept(before: Forest, after: Forest, except: Option<NodeId>) -> bool {
    forall|node: NodeId|
        before.contains_key(node) && before[node].handles >= 1 && Some(node) != except ==> #[trigger] after.contains_key(
            node,
        ) && after[node].handles == before[node].handles && after[node].data == before[node].data
}

} // verus!
