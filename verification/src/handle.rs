//! The handle by which a caller owns a node.

use crate::model::NodeId;
use vstd::prelude::*;
use vstd::std_specs::cmp::PartialEqSpecImpl;

verus! {

/// A strong reference to a node.
///
/// A node is destroyed when the last strong reference to it is given up.
/// Each node holds a strong reference to its first child and to its next
/// sibling, so one handle keeps alive a node, its descendants, its
/// following siblings and their descendants, and nothing else. Whoever
/// works on a document keeps a handle to its root for as long.
///
/// Two handles are equal when they own the same node.
#[derive(Debug)]
pub struct NodeRef {
    id: NodeId,
}

impl View for NodeRef {
    type V = NodeId;

    closed spec fn view(&self) -> NodeId {
        self.id
    }
}

impl NodeRef {
    /// A handle to the node `id`. Whoever makes one has counted it.
    pub(crate) fn counted(id: NodeId) -> (handle: NodeRef)
        ensures
            handle@ == id,
    {
        NodeRef { id }
    }

    /// The identity of the node that this handle owns.
    pub fn id(&self) -> (id: NodeId)
        ensures
            id == self@,
    {
        self.id
    }
}

impl PartialEq for NodeRef {
    fn eq(&self, other: &NodeRef) -> (equal: bool) {
        self.id == other.id
    }
}

impl PartialEqSpecImpl for NodeRef {
    open spec fn obeys_eq_spec() -> bool {
        true
    }

    open spec fn eq_spec(&self, other: &NodeRef) -> bool {
        self@ == other@
    }
}

impl Eq for NodeRef {

}

} // verus!
