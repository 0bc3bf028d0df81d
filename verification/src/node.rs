//! The record of one node: five link slots, a handle count and the payload.

use crate::cell::MoveCell;
use crate::data::{Doctype, DocumentData, ElementData, NodeData};
use crate::model::{fresh_state, one_less, one_more, Field, NodeId, NodeState};
use vstd::prelude::*;

verus! {

/// A node inside a tree.
///
/// A node owns its first child and its next sibling. To its parent, its
/// previous sibling and its last child it holds weak links only, so that
/// no two nodes own each other.
pub struct Node {
    parent: MoveCell<NodeId>,
    previous_sibling: MoveCell<NodeId>,
    next_sibling: MoveCell<NodeId>,
    first_child: MoveCell<NodeId>,
    last_child: MoveCell<NodeId>,
    handles: u64,
    data: NodeData,
}

impl View for Node {
    type V = NodeState;

    closed spec fn view(&self) -> NodeState {
        NodeState {
            parent: self.parent@,
            previous_sibling: self.previous_sibling@,
            next_sibling: self.next_sibling@,
            first_child: self.first_child@,
            last_child: self.last_child@,
            handles: self.handles,
            data: self.data,
        }
    }
}

impl Node {
    /// A record without links, owned by one handle.
    pub(crate) fn new(data: NodeData) -> (node: Node)
        ensures
            node@ == fresh_state(data),
    {
        Node {
            parent: MoveCell::new(),
            first_child: MoveCell::new(),
            last_child: MoveCell::new(),
            previous_sibling: MoveCell::new(),
            next_sibling: MoveCell::new(),
            handles: 1,
            data,
        }
    }

    /// Return a reference to this node's node-type-specific data.
    pub fn data(&self) -> (data: &NodeData)
        ensures
            *data == self@.data,
    {
        &self.data
    }

    /// If this node is an element, return a reference to element-specific data.
    pub fn as_element(&self) -> (element: Option<&ElementData>)
        ensures
            match element {
                Some(value) => self@.data == NodeData::Element(*value),
                None => !(self@.data is Element),
            },
    {
        match &self.data {
            NodeData::Element(value) => Some(value),
            _ => None,
        }
    }

    /// If this node is a text node, return a reference to its contents.
    pub fn as_text(&self) -> (text: Option<&String>)
        ensures
            match text {
                Some(value) => self@.data == NodeData::Text(*value),
                None => !(self@.data is Text),
            },
    {
        match &self.data {
            NodeData::Text(value) => Some(value),
            _ => None,
        }
    }

    /// If this node is a comment, return a reference to its contents.
    pub fn as_comment(&self) -> (comment: Option<&String>)
        ensures
            match comment {
                Some(value) => self@.data == NodeData::Comment(*value),
                None => !(self@.data is Comment),
            },
    {
        match &self.data {
            NodeData::Comment(value) => Some(value),
            _ => None,
        }
    }

    /// If this node is a doctype, return a reference to doctype-specific data.
    pub fn as_doctype(&self) -> (doctype: Option<&Doctype>)
        ensures
            match doctype {
                Some(value) => self@.data == NodeData::Doctype(*value),
                None => !(self@.data is Doctype),
            },
    {
        match &self.data {
            NodeData::Doctype(value) => Some(value),
            _ => None,
        }
    }

    /// If this node is a document, return a reference to document-specific data.
    pub fn as_document(&self) -> (document: Option<&DocumentData>)
        ensures
            match document {
                Some(value) => self@.data == NodeData::Document(*value),
                None => !(self@.data is Document),
            },
    {
        match &self.data {
            NodeData::Document(value) => Some(value),
            _ => None,
        }
    }

    /// The payload, for changing it in place. The links stay as they are.
    pub(crate) fn replace_data(&mut self, data: NodeData) -> (previous: NodeData)
        ensures
            previous == old(self)@.data,
            final(self)@ == (NodeState { data, ..old(self)@ }),
    {
        let mut incoming = data;
        std::mem::swap(&mut self.data, &mut incoming);
        incoming
    }

    /// The number of handles that own this node.
    pub(crate) fn handles(&self) -> (count: u64)
        ensures
            count == self@.handles,
    {
        self.handles
    }

    /// Counts one more handle.
    pub(crate) fn add_handle(&mut self)
        ensures
            final(self)@ == old(self)@.with_handles(one_more(old(self)@.handles)),
    {
        if self.handles < u64::MAX {
            self.handles = self.handles + 1;
        }
    }

    /// Counts one handle less.
    pub(crate) fn remove_handle(&mut self)
        ensures
            final(self)@ == old(self)@.with_handles(one_less(old(self)@.handles)),
    {
        if 0 < self.handles && self.handles < u64::MAX {
            self.handles = self.handles - 1;
        }
    }

    /// The target of one link.
    pub(crate) fn link(&self, field: Field) -> (target: Option<NodeId>)
        ensures
            target == self@.link(field),
    {
        match field {
            Field::Parent => self.parent.get(),
            Field::PreviousSibling => self.previous_sibling.get(),
            Field::NextSibling => self.next_sibling.get(),
            Field::FirstChild => self.first_child.get(),
            Field::LastChild => self.last_child.get(),
        }
    }

    /// Points one link at `target`.
    pub(crate) fn set_link(&mut self, field: Field, target: Option<NodeId>)
        ensures
            final(self)@ == old(self)@.with_link(field, target),
    {
        match field {
            Field::Parent => self.parent.set(target),
            Field::PreviousSibling => self.previous_sibling.set(target),
            Field::NextSibling => self.next_sibling.set(target),
            Field::FirstChild => self.first_child.set(target),
            Field::LastChild => self.last_child.set(target),
        }
    }

    /// Empties one link and returns its target.
    pub(crate) fn take_link(&mut self, field: Field) -> (target: Option<NodeId>)
        ensures
            target == old(self)@.link(field),
            final(self)@ == old(self)@.with_link(field, None),
    {
        match field {
            Field::Parent => self.parent.take(),
            Field::PreviousSibling => self.previous_sibling.take(),
            Field::NextSibling => self.next_sibling.take(),
            Field::FirstChild => self.first_child.take(),
            Field::LastChild => self.last_child.take(),
        }
    }

    /// Points one link at `target` and returns its former target.
    pub(crate) fn replace_link(&mut self, field: Field, target: Option<NodeId>) -> (previous: Option<NodeId>)
        ensures
            previous == old(self)@.link(field),
            final(self)@ == old(self)@.with_link(field, target),
    {
        match field {
            Field::Parent => self.parent.replace(target),
            Field::PreviousSibling => self.previous_sibling.replace(target),
            Field::NextSibling => self.next_sibling.replace(target),
            Field::FirstChild => self.first_child.replace(target),
            Field::LastChild => self.last_child.replace(target),
        }
    }
}

} // verus!
