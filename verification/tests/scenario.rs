use dom_tree::{Arena, NodeData, NodeRef, QuirksMode};
use std::collections::HashMap;
use string_cache::{Atom, Namespace, QualName};

fn html_name(local: &str) -> QualName {
    QualName::new(Namespace(Atom::from("http://www.w3.org/1999/xhtml")), Atom::from(local))
}

#[test]
fn document_with_element_and_text() {
    let mut arena = Arena::new();
    let document = NodeRef::new_document(&mut arena);
    let element = NodeRef::new_element(&mut arena, html_name("html"), HashMap::new());
    let element_for_tree = element.duplicate(&mut arena);
    document.append(&mut arena, element_for_tree);
    let text = NodeRef::new_text(&mut arena, String::from("hi"));
    let text_for_tree = text.duplicate(&mut arena);
    element.append(&mut arena, text_for_tree);

    assert!(document.first_child(&mut arena) == Some(element.duplicate(&mut arena)));
    assert!(element.parent(&mut arena) == Some(document.duplicate(&mut arena)));
    assert!(element.first_child(&mut arena) == Some(text.duplicate(&mut arena)));
    assert_eq!(text.node(&arena).as_text(), Some(&String::from("hi")));
    assert_eq!(
        document.node(&arena).as_document().map(|data| data.quirks_mode()),
        Some(QuirksMode::NoQuirks)
    );
    assert!(matches!(element.node(&arena).data(), NodeData::Element(data) if data.name == html_name("html")));

    element.detach(&mut arena);
    assert!(document.first_child(&mut arena).is_none());
    assert!(document.last_child(&mut arena).is_none());
    assert!(element.parent(&mut arena).is_none());
    assert!(element.first_child(&mut arena) == Some(text.duplicate(&mut arena)));
    assert!(text.parent(&mut arena) == Some(element.duplicate(&mut arena)));
}
