use dom_tree::{Arena, Doctype, MoveCell, NodeData, NodeRef, QuirksMode};
use std::collections::HashMap;
use string_cache::{Atom, Namespace, QualName};

fn name(local: &str) -> QualName {
    QualName::new(Namespace(Atom::from("http://www.w3.org/1999/xhtml")), Atom::from(local))
}

fn plain(local: &str) -> QualName {
    QualName::new(Namespace(Atom::from("")), Atom::from(local))
}

#[test]
fn element_holds_its_name_and_attributes() {
    let mut arena = Arena::new();
    let mut attributes = HashMap::new();
    attributes.insert(plain("class"), String::from("wide"));
    attributes.insert(plain("id"), String::from("main"));
    let element = NodeRef::new_element(&mut arena, name("div"), attributes);
    let node = element.node(&arena);
    let data = node.as_element().unwrap();
    assert_eq!(data.name, name("div"));
    assert_eq!(data.attributes.len(), 2);
    assert_eq!(data.attributes.get(&plain("class")), Some(&String::from("wide")));
    assert_eq!(data.attributes.get(&plain("id")), Some(&String::from("main")));
    assert!(node.as_text().is_none());
    assert!(node.as_comment().is_none());
    assert!(node.as_doctype().is_none());
    assert!(node.as_document().is_none());
}

#[test]
fn text_holds_its_contents() {
    let mut arena = Arena::new();
    let text = NodeRef::new_text(&mut arena, String::from("hi"));
    let node = text.node(&arena);
    assert_eq!(node.as_text(), Some(&String::from("hi")));
    assert!(node.as_element().is_none());
    assert!(node.as_comment().is_none());
    assert!(node.as_doctype().is_none());
    assert!(node.as_document().is_none());
    assert_eq!(node.data(), &NodeData::Text(String::from("hi")));
}

#[test]
fn comment_holds_its_contents() {
    let mut arena = Arena::new();
    let comment = NodeRef::new_comment(&mut arena, String::from("note"));
    let node = comment.node(&arena);
    assert_eq!(node.as_comment(), Some(&String::from("note")));
    assert!(node.as_text().is_none());
    assert!(node.as_element().is_none());
}

#[test]
fn doctype_holds_its_three_names() {
    let mut arena = Arena::new();
    let doctype = NodeRef::new_doctype(
        &mut arena,
        String::from("html"),
        String::from("-//W3C//DTD HTML 4.01//EN"),
        String::from("http://www.w3.org/TR/html4/strict.dtd"),
    );
    let expected = Doctype {
        name: String::from("html"),
        public_id: String::from("-//W3C//DTD HTML 4.01//EN"),
        system_id: String::from("http://www.w3.org/TR/html4/strict.dtd"),
    };
    assert_eq!(doctype.node(&arena).as_doctype(), Some(&expected));
    assert!(doctype.node(&arena).as_document().is_none());
}

#[test]
fn document_starts_without_quirks() {
    let mut arena = Arena::new();
    let document = NodeRef::new_document(&mut arena);
    let node = document.node(&arena);
    assert_eq!(node.as_document().unwrap().quirks_mode(), QuirksMode::NoQuirks);
    assert!(node.as_doctype().is_none());
}

#[test]
fn quirks_mode_of_a_document_can_be_set() {
    let mut arena = Arena::new();
    let document = NodeRef::new_document(&mut arena);
    document.set_quirks_mode(&mut arena, QuirksMode::LimitedQuirks);
    assert_eq!(
        document.node(&arena).as_document().unwrap().quirks_mode(),
        QuirksMode::LimitedQuirks
    );
    document.set_quirks_mode(&mut arena, QuirksMode::Quirks);
    assert_eq!(document.node(&arena).as_document().unwrap().quirks_mode(), QuirksMode::Quirks);
}

#[test]
fn quirks_mode_of_another_node_cannot_be_set() {
    let mut arena = Arena::new();
    let text = NodeRef::new_text(&mut arena, String::from("hi"));
    text.set_quirks_mode(&mut arena, QuirksMode::Quirks);
    assert_eq!(text.node(&arena).as_text(), Some(&String::from("hi")));
}

#[test]
fn contents_of_text_and_comment_can_be_replaced() {
    let mut arena = Arena::new();
    let text = NodeRef::new_text(&mut arena, String::from("before"));
    let comment = NodeRef::new_comment(&mut arena, String::from("old"));
    assert_eq!(
        text.replace_contents(&mut arena, String::from("after")),
        Some(String::from("before"))
    );
    assert_eq!(
        comment.replace_contents(&mut arena, String::from("new")),
        Some(String::from("old"))
    );
    assert_eq!(text.node(&arena).as_text(), Some(&String::from("after")));
    assert_eq!(comment.node(&arena).as_comment(), Some(&String::from("new")));
}

#[test]
fn contents_of_another_node_cannot_be_replaced() {
    let mut arena = Arena::new();
    let document = NodeRef::new_document(&mut arena);
    assert_eq!(document.replace_contents(&mut arena, String::from("text")), None);
    assert!(document.node(&arena).as_document().is_some());
}

#[test]
fn attributes_of_an_element_can_be_replaced() {
    let mut arena = Arena::new();
    let mut attributes = HashMap::new();
    attributes.insert(plain("class"), String::from("wide"));
    let element = NodeRef::new_element(&mut arena, name("p"), attributes.clone());
    let mut other = HashMap::new();
    other.insert(plain("lang"), String::from("en"));
    assert_eq!(element.replace_attributes(&mut arena, other.clone()), Some(attributes));
    let node = element.node(&arena);
    assert_eq!(node.as_element().unwrap().attributes, other);
    assert_eq!(node.as_element().unwrap().name, name("p"));
}

#[test]
fn attributes_of_another_node_cannot_be_replaced() {
    let mut arena = Arena::new();
    let text = NodeRef::new_text(&mut arena, String::from("hi"));
    assert_eq!(text.replace_attributes(&mut arena, HashMap::new()), None);
    assert_eq!(text.node(&arena).as_text(), Some(&String::from("hi")));
}

#[test]
fn changing_the_payload_keeps_the_links() {
    let mut arena = Arena::new();
    let parent = NodeRef::new_document(&mut arena);
    let child = NodeRef::new_text(&mut arena, String::from("one"));
    let for_tree = child.duplicate(&mut arena);
    parent.append(&mut arena, for_tree);
    child.replace_contents(&mut arena, String::from("two"));
    parent.set_quirks_mode(&mut arena, QuirksMode::Quirks);
    assert!(parent.first_child(&mut arena) == Some(child.duplicate(&mut arena)));
    assert!(child.parent(&mut arena) == Some(parent.duplicate(&mut arena)));
}

#[test]
fn cell_starts_empty() {
    let cell: MoveCell<u32> = MoveCell::new();
    assert!(cell.is_none());
    assert_eq!(cell.get(), None);
}

#[test]
fn cell_set_then_get() {
    let mut cell = MoveCell::new();
    cell.set(Some(7u32));
    assert!(!cell.is_none());
    assert_eq!(cell.get(), Some(7));
    cell.set(None);
    assert!(cell.is_none());
}

#[test]
fn cell_take_leaves_it_empty() {
    let mut cell = MoveCell::new();
    cell.set(Some(String::from("value")));
    assert_eq!(cell.take(), Some(String::from("value")));
    assert!(cell.is_none());
    assert_eq!(cell.take(), None);
}

#[test]
fn cell_replace_returns_the_former_value() {
    let mut cell = MoveCell::new();
    assert_eq!(cell.replace(Some(1u8)), None);
    assert_eq!(cell.replace(Some(2u8)), Some(1));
    assert_eq!(cell.replace(None), Some(2));
    assert!(cell.is_none());
}
