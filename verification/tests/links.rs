use dom_tree::{Arena, NodeId, NodeRef};

fn text(arena: &mut Arena, value: &str) -> NodeRef {
    NodeRef::new_text(arena, String::from(value))
}

fn id_of(arena: &mut Arena, found: Option<NodeRef>) -> Option<NodeId> {
    match found {
        Some(handle) => {
            let id = handle.id();
            handle.release(arena);
            Some(id)
        }
        None => None,
    }
}

fn parent_of(arena: &mut Arena, node: &NodeRef) -> Option<NodeId> {
    let found = node.parent(arena);
    id_of(arena, found)
}

fn first_of(arena: &mut Arena, node: &NodeRef) -> Option<NodeId> {
    let found = node.first_child(arena);
    id_of(arena, found)
}

fn last_of(arena: &mut Arena, node: &NodeRef) -> Option<NodeId> {
    let found = node.last_child(arena);
    id_of(arena, found)
}

fn previous_of(arena: &mut Arena, node: &NodeRef) -> Option<NodeId> {
    let found = node.previous_sibling(arena);
    id_of(arena, found)
}

fn next_of(arena: &mut Arena, node: &NodeRef) -> Option<NodeId> {
    let found = node.next_sibling(arena);
    id_of(arena, found)
}

fn children_forward(arena: &mut Arena, parent: &NodeRef) -> Vec<NodeId> {
    let mut seen = Vec::new();
    let mut current = parent.first_child(arena);
    while let Some(node) = current {
        seen.push(node.id());
        current = node.next_sibling(arena);
        node.release(arena);
    }
    seen
}

fn children_backward(arena: &mut Arena, parent: &NodeRef) -> Vec<NodeId> {
    let mut seen = Vec::new();
    let mut current = parent.last_child(arena);
    while let Some(node) = current {
        seen.push(node.id());
        current = node.previous_sibling(arena);
        node.release(arena);
    }
    seen
}

fn family(arena: &mut Arena, count: usize) -> (NodeRef, Vec<NodeRef>) {
    let parent = text(arena, "parent");
    let mut children = Vec::new();
    for i in 0..count {
        let child = text(arena, &format!("child {}", i));
        let for_tree = child.duplicate(arena);
        parent.append(arena, for_tree);
        children.push(child);
    }
    (parent, children)
}

fn ids(nodes: &[NodeRef]) -> Vec<NodeId> {
    nodes.iter().map(|node| node.id()).collect()
}

#[test]
fn new_node_has_no_links() {
    let mut arena = Arena::new();
    let node = text(&mut arena, "alone");
    assert_eq!(parent_of(&mut arena, &node), None);
    assert_eq!(first_of(&mut arena, &node), None);
    assert_eq!(last_of(&mut arena, &node), None);
    assert_eq!(previous_of(&mut arena, &node), None);
    assert_eq!(next_of(&mut arena, &node), None);
}

#[test]
fn append_keeps_the_order_of_appending() {
    let mut arena = Arena::new();
    let (parent, children) = family(&mut arena, 5);
    let expected = ids(&children);
    assert_eq!(first_of(&mut arena, &parent), Some(expected[0]));
    assert_eq!(last_of(&mut arena, &parent), Some(expected[4]));
    assert_eq!(children_forward(&mut arena, &parent), expected);
    let mut reversed = expected.clone();
    reversed.reverse();
    assert_eq!(children_backward(&mut arena, &parent), reversed);
    for child in &children {
        assert_eq!(parent_of(&mut arena, child), Some(parent.id()));
    }
}

#[test]
fn append_to_a_childless_node_sets_both_ends() {
    let mut arena = Arena::new();
    let (parent, children) = family(&mut arena, 1);
    assert_eq!(first_of(&mut arena, &parent), Some(children[0].id()));
    assert_eq!(last_of(&mut arena, &parent), Some(children[0].id()));
    assert_eq!(previous_of(&mut arena, &children[0]), None);
    assert_eq!(next_of(&mut arena, &children[0]), None);
}

#[test]
fn prepend_puts_the_child_first() {
    let mut arena = Arena::new();
    let (parent, children) = family(&mut arena, 2);
    let newcomer = text(&mut arena, "newcomer");
    let for_tree = newcomer.duplicate(&mut arena);
    parent.prepend(&mut arena, for_tree);
    assert_eq!(
        children_forward(&mut arena, &parent),
        vec![newcomer.id(), children[0].id(), children[1].id()]
    );
    assert_eq!(
        children_backward(&mut arena, &parent),
        vec![children[1].id(), children[0].id(), newcomer.id()]
    );
    assert_eq!(parent_of(&mut arena, &newcomer), Some(parent.id()));
    assert_eq!(previous_of(&mut arena, &newcomer), None);
}

#[test]
fn prepend_to_a_childless_node_sets_both_ends() {
    let mut arena = Arena::new();
    let parent = text(&mut arena, "parent");
    let child = text(&mut arena, "child");
    let for_tree = child.duplicate(&mut arena);
    parent.prepend(&mut arena, for_tree);
    assert_eq!(first_of(&mut arena, &parent), Some(child.id()));
    assert_eq!(last_of(&mut arena, &parent), Some(child.id()));
    assert_eq!(parent_of(&mut arena, &child), Some(parent.id()));
}

#[test]
fn insert_after_in_the_middle() {
    let mut arena = Arena::new();
    let (parent, children) = family(&mut arena, 3);
    let newcomer = text(&mut arena, "newcomer");
    let for_tree = newcomer.duplicate(&mut arena);
    children[0].insert_after(&mut arena, for_tree);
    let expected = vec![children[0].id(), newcomer.id(), children[1].id(), children[2].id()];
    assert_eq!(children_forward(&mut arena, &parent), expected);
    let mut reversed = expected.clone();
    reversed.reverse();
    assert_eq!(children_backward(&mut arena, &parent), reversed);
    assert_eq!(parent_of(&mut arena, &newcomer), Some(parent.id()));
}

#[test]
fn insert_after_the_last_child_moves_the_end() {
    let mut arena = Arena::new();
    let (parent, children) = family(&mut arena, 2);
    let newcomer = text(&mut arena, "newcomer");
    let for_tree = newcomer.duplicate(&mut arena);
    children[1].insert_after(&mut arena, for_tree);
    assert_eq!(last_of(&mut arena, &parent), Some(newcomer.id()));
    assert_eq!(next_of(&mut arena, &newcomer), None);
    assert_eq!(previous_of(&mut arena, &newcomer), Some(children[1].id()));
}

#[test]
fn insert_before_in_the_middle() {
    let mut arena = Arena::new();
    let (parent, children) = family(&mut arena, 3);
    let newcomer = text(&mut arena, "newcomer");
    let for_tree = newcomer.duplicate(&mut arena);
    children[2].insert_before(&mut arena, for_tree);
    let expected = vec![children[0].id(), children[1].id(), newcomer.id(), children[2].id()];
    assert_eq!(children_forward(&mut arena, &parent), expected);
    let mut reversed = expected.clone();
    reversed.reverse();
    assert_eq!(children_backward(&mut arena, &parent), reversed);
    assert_eq!(parent_of(&mut arena, &newcomer), Some(parent.id()));
}

#[test]
fn insert_before_the_first_child_moves_the_start() {
    let mut arena = Arena::new();
    let (parent, children) = family(&mut arena, 2);
    let newcomer = text(&mut arena, "newcomer");
    let for_tree = newcomer.duplicate(&mut arena);
    children[0].insert_before(&mut arena, for_tree);
    assert_eq!(first_of(&mut arena, &parent), Some(newcomer.id()));
    assert_eq!(previous_of(&mut arena, &newcomer), None);
    assert_eq!(previous_of(&mut arena, &children[0]), Some(newcomer.id()));
}

#[test]
fn insert_after_a_root_gives_it_a_sibling_without_parent() {
    let mut arena = Arena::new();
    let root = text(&mut arena, "root");
    let sibling = text(&mut arena, "sibling");
    let for_tree = sibling.duplicate(&mut arena);
    root.insert_after(&mut arena, for_tree);
    assert_eq!(next_of(&mut arena, &root), Some(sibling.id()));
    assert_eq!(previous_of(&mut arena, &sibling), Some(root.id()));
    assert_eq!(parent_of(&mut arena, &sibling), None);
    assert_eq!(parent_of(&mut arena, &root), None);
}

#[test]
fn insert_before_a_root_gives_it_a_sibling_without_parent() {
    let mut arena = Arena::new();
    let root = text(&mut arena, "root");
    let sibling = text(&mut arena, "sibling");
    let for_tree = sibling.duplicate(&mut arena);
    root.insert_before(&mut arena, for_tree);
    assert_eq!(previous_of(&mut arena, &root), Some(sibling.id()));
    assert_eq!(next_of(&mut arena, &sibling), Some(root.id()));
    assert_eq!(parent_of(&mut arena, &sibling), None);
}

#[test]
fn detach_isolates_the_node_and_keeps_its_children() {
    let mut arena = Arena::new();
    let (parent, children) = family(&mut arena, 3);
    let grandchild = text(&mut arena, "grandchild");
    let for_tree = grandchild.duplicate(&mut arena);
    children[1].append(&mut arena, for_tree);

    children[1].detach(&mut arena);

    assert_eq!(parent_of(&mut arena, &children[1]), None);
    assert_eq!(previous_of(&mut arena, &children[1]), None);
    assert_eq!(next_of(&mut arena, &children[1]), None);
    assert_eq!(children_forward(&mut arena, &children[1]), vec![grandchild.id()]);
    assert_eq!(parent_of(&mut arena, &grandchild), Some(children[1].id()));
    assert_eq!(children_forward(&mut arena, &parent), vec![children[0].id(), children[2].id()]);
    assert_eq!(children_backward(&mut arena, &parent), vec![children[2].id(), children[0].id()]);
}

#[test]
fn detach_first_and_last_child() {
    let mut arena = Arena::new();
    let (parent, children) = family(&mut arena, 3);
    children[0].detach(&mut arena);
    assert_eq!(first_of(&mut arena, &parent), Some(children[1].id()));
    assert_eq!(previous_of(&mut arena, &children[1]), None);
    children[2].detach(&mut arena);
    assert_eq!(last_of(&mut arena, &parent), Some(children[1].id()));
    assert_eq!(next_of(&mut arena, &children[1]), None);
    children[1].detach(&mut arena);
    assert_eq!(first_of(&mut arena, &parent), None);
    assert_eq!(last_of(&mut arena, &parent), None);
}

#[test]
fn detach_of_a_root_changes_nothing() {
    let mut arena = Arena::new();
    let (parent, children) = family(&mut arena, 2);
    parent.detach(&mut arena);
    assert_eq!(parent_of(&mut arena, &parent), None);
    assert_eq!(children_forward(&mut arena, &parent), ids(&children));
}

#[test]
fn neighbours_answer_each_other() {
    let mut arena = Arena::new();
    let (parent, children) = family(&mut arena, 4);
    for i in 0..children.len() {
        if let Some(next) = next_of(&mut arena, &children[i]) {
            assert_eq!(next, children[i + 1].id());
            assert_eq!(previous_of(&mut arena, &children[i + 1]), Some(children[i].id()));
        } else {
            assert_eq!(i, children.len() - 1);
            assert_eq!(last_of(&mut arena, &parent), Some(children[i].id()));
        }
        if previous_of(&mut arena, &children[i]).is_none() {
            assert_eq!(i, 0);
            assert_eq!(first_of(&mut arena, &parent), Some(children[i].id()));
        }
    }
}

#[test]
fn appending_again_moves_to_the_last_place() {
    let mut arena = Arena::new();
    let (parent, children) = family(&mut arena, 3);
    children[0].detach(&mut arena);
    let for_tree = children[0].duplicate(&mut arena);
    parent.append(&mut arena, for_tree);
    assert_eq!(
        children_forward(&mut arena, &parent),
        vec![children[1].id(), children[2].id(), children[0].id()]
    );
}

#[test]
fn appending_without_detaching_first_moves_too() {
    let mut arena = Arena::new();
    let (parent, children) = family(&mut arena, 3);
    let for_tree = children[1].duplicate(&mut arena);
    parent.append(&mut arena, for_tree);
    assert_eq!(
        children_forward(&mut arena, &parent),
        vec![children[0].id(), children[2].id(), children[1].id()]
    );
}

#[test]
fn inserting_before_the_old_next_sibling_restores_the_order() {
    let mut arena = Arena::new();
    let (parent, children) = family(&mut arena, 4);
    let expected = ids(&children);
    children[1].detach(&mut arena);
    let for_tree = children[1].duplicate(&mut arena);
    children[2].insert_before(&mut arena, for_tree);
    assert_eq!(children_forward(&mut arena, &parent), expected);
    let mut reversed = expected.clone();
    reversed.reverse();
    assert_eq!(children_backward(&mut arena, &parent), reversed);
}

#[test]
fn moving_a_node_to_another_parent_takes_its_subtree_along() {
    let mut arena = Arena::new();
    let (first_parent, children) = family(&mut arena, 2);
    let grandchild = text(&mut arena, "grandchild");
    let for_tree = grandchild.duplicate(&mut arena);
    children[0].append(&mut arena, for_tree);
    let second_parent = text(&mut arena, "second parent");
    let moved = children[0].duplicate(&mut arena);
    second_parent.append(&mut arena, moved);
    assert_eq!(children_forward(&mut arena, &first_parent), vec![children[1].id()]);
    assert_eq!(children_forward(&mut arena, &second_parent), vec![children[0].id()]);
    assert_eq!(children_forward(&mut arena, &children[0]), vec![grandchild.id()]);
    assert_eq!(parent_of(&mut arena, &children[0]), Some(second_parent.id()));
}

#[test]
fn handles_are_equal_when_they_own_the_same_node() {
    let mut arena = Arena::new();
    let one = text(&mut arena, "same words");
    let other = text(&mut arena, "same words");
    let twin = one.duplicate(&mut arena);
    assert!(one == twin);
    assert!(one != other);
    assert_eq!(one.id(), twin.id());
}
