use dom_tree::{Arena, NodeId, NodeRef};

fn text(arena: &mut Arena, value: &str) -> NodeRef {
    NodeRef::new_text(arena, String::from(value))
}

/// The contents of the text nodes below `start`, parents before children
/// and children in their order, read without making a handle.
fn texts_below(arena: &Arena, start: NodeId) -> Vec<String> {
    let mut seen = Vec::new();
    let mut waiting = vec![start];
    while let Some(id) = waiting.pop() {
        let node = arena.node(id);
        if let Some(value) = node.as_text() {
            seen.push(value.clone());
        }
        let mut children = Vec::new();
        let mut child = node.first_child(arena);
        while let Some(id) = child {
            children.push(id);
            child = arena.node(id).next_sibling(arena);
        }
        children.reverse();
        waiting.extend(children);
    }
    seen
}

#[test]
fn a_record_tells_its_neighbours() {
    let mut arena = Arena::new();
    let parent = text(&mut arena, "parent");
    let first = text(&mut arena, "first");
    let second = text(&mut arena, "second");
    let for_tree = first.duplicate(&mut arena);
    parent.append(&mut arena, for_tree);
    let for_tree = second.duplicate(&mut arena);
    parent.append(&mut arena, for_tree);

    let record = parent.node(&arena);
    assert_eq!(record.parent(&arena), None);
    assert_eq!(record.first_child(&arena), Some(first.id()));
    assert_eq!(record.last_child(&arena), Some(second.id()));
    assert_eq!(record.previous_sibling(&arena), None);
    assert_eq!(record.next_sibling(&arena), None);

    let record = first.node(&arena);
    assert_eq!(record.parent(&arena), Some(parent.id()));
    assert_eq!(record.previous_sibling(&arena), None);
    assert_eq!(record.next_sibling(&arena), Some(second.id()));
    assert_eq!(record.first_child(&arena), None);
    assert_eq!(record.last_child(&arena), None);

    let record = second.node(&arena);
    assert_eq!(record.parent(&arena), Some(parent.id()));
    assert_eq!(record.previous_sibling(&arena), Some(first.id()));
    assert_eq!(record.next_sibling(&arena), None);
}

#[test]
fn a_record_does_not_follow_a_link_to_a_destroyed_node() {
    let mut arena = Arena::new();
    let parent = text(&mut arena, "parent");
    let child = text(&mut arena, "child");
    let for_tree = child.duplicate(&mut arena);
    parent.append(&mut arena, for_tree);
    parent.release(&mut arena);
    assert_eq!(child.node(&arena).parent(&arena), None);
}

#[test]
fn a_tree_can_be_read_without_handles() {
    let mut arena = Arena::new();
    let root = text(&mut arena, "a");
    for name in ["b", "c", "d"] {
        let child = text(&mut arena, name);
        for below in ["1", "2"] {
            let leaf = text(&mut arena, &format!("{}{}", name, below));
            child.append(&mut arena, leaf);
        }
        root.append(&mut arena, child);
    }
    assert_eq!(
        texts_below(&arena, root.id()),
        vec!["a", "b", "b1", "b2", "c", "c1", "c2", "d", "d1", "d2"]
    );
}

#[test]
fn upgrade_gives_a_handle_to_a_living_node_only() {
    let mut arena = Arena::new();
    let node = text(&mut arena, "node");
    let id = node.id();
    let twin = NodeRef::upgrade(&mut arena, id).unwrap();
    assert!(twin == node);
    node.release(&mut arena);
    assert!(arena.contains(id));
    twin.release(&mut arena);
    assert!(!arena.contains(id));
    assert!(NodeRef::upgrade(&mut arena, id).is_none());
}

#[test]
fn upgrade_keeps_an_unowned_child_when_its_parent_goes() {
    let mut arena = Arena::new();
    let parent = text(&mut arena, "parent");
    let child = text(&mut arena, "child");
    let child_id = child.id();
    parent.append(&mut arena, child);
    let kept = NodeRef::upgrade(&mut arena, child_id).unwrap();
    parent.release(&mut arena);
    assert!(arena.contains(child_id));
    kept.release(&mut arena);
    assert!(!arena.contains(child_id));
}
