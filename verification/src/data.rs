//! What a node carries besides its links.

use std::collections::HashMap;
use string_cache::QualName;
use vstd::prelude::*;

verus! {

/// A namespace together with a local name, as `string_cache` defines it.
/// The tree stores such names and hands them back; it never looks inside.
#[verifier::external_type_specification]
#[verifier::external_body]
pub struct ExQualName(QualName);

/// The rendering mode a parser has chosen for a document.
#[derive(Clone, Copy, Debug, PartialEq, Eq, Structural)]
pub enum QuirksMode {
    /// Full quirks mode.
    Quirks,
    /// Almost standards mode.
    LimitedQuirks,
    /// Standards mode.
    NoQuirks,
}

/// Data specific to doctype nodes.
#[derive(Debug, PartialEq, Clone)]
pub struct Doctype {
    /// The name of the doctype.
    pub name: String,
    /// The public identifier of the doctype.
    pub public_id: String,
    /// The system identifier of the doctype.
    pub system_id: String,
}

/// Data specific to element nodes.
#[derive(Debug, PartialEq)]
pub struct ElementData {
    /// The namespace and local name of the element.
    pub name: QualName,
    /// The attributes of the element.
    pub attributes: HashMap<QualName, String>,
}

/// Data specific to document nodes.
#[derive(Debug, PartialEq, Clone)]
pub struct DocumentData {
    /// The quirks mode of the document.
    pub quirks_mode: QuirksMode,
}

impl DocumentData {
    /// The quirks mode of the document, as the parser determined it.
    pub fn quirks_mode(&self) -> (mode: QuirksMode)
        ensures
            mode == self.quirks_mode,
    {
        self.quirks_mode
    }
}

/// Node data specific to the node type.
#[derive(Debug, PartialEq)]
pub enum NodeData {
    /// Element node.
    Element(ElementData),
    /// Text node.
    Text(String),
    /// Comment node.
    Comment(String),
    /// Doctype node.
    Doctype(Doctype),
    /// Document node.
    Document(DocumentData),
}

} // verus!
