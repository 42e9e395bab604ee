use moonlight::workspace::error::TreeError;
use moonlight::workspace::node::Node;
use moonlight::workspace::operation::Operation;

fn blur() -> Operation {
    Operation::Shadows(0.25f64.to_bits())
}

#[test]
fn new_with_id_holds_what_it_was_given() {
    let node: Node<u8> = Node::new_with_id(5, 1, 100, blur());
    assert_eq!(node.get_id(), 5);
    assert_eq!(node.get_parent_id(), 1);
    assert_eq!(node.get_branch_id(), 100);
    assert_eq!(node.get_operation(), blur());
    assert!(node.get_children_ids().is_empty());
    assert!(!node.has_child());
    assert!(node.get_image().is_none());
    assert!(!node.is_root());
}

#[test]
fn a_root_is_its_own_parent() {
    let root: Node<u8> = Node::new_root_with_ids(1, 100);
    assert!(root.is_root());
    assert_eq!(root.get_parent_id(), 1);
    assert_eq!(root.get_operation(), Operation::Root);
    let fresh: Node<u8> = Node::new_root();
    assert!(fresh.is_root());
    assert_eq!(fresh.get_parent_id(), fresh.get_id());
}

#[test]
fn new_draws_a_fresh_id() {
    let node: Node<u8> = Node::new(1, 100, blur());
    assert_eq!(node.get_parent_id(), 1);
    assert_eq!(node.get_branch_id(), 100);
    assert!(!node.has_child());
}

#[test]
fn children_are_kept_in_order() {
    let mut node: Node<u8> = Node::new_with_id(5, 1, 100, blur());
    node.add_child(7);
    node.add_children(vec![8, 9]);
    assert_eq!(node.get_children_ids(), vec![7, 8, 9]);
    assert!(node.has_child());
    assert_eq!(node.remove_child(8), Ok(()));
    assert_eq!(node.get_children_ids(), vec![7, 9]);
    node.remove_children();
    assert!(node.get_children_ids().is_empty());
}

#[test]
fn remove_child_refuses_a_stranger() {
    let mut node: Node<u8> = Node::new_with_id(5, 1, 100, blur());
    node.add_child(7);
    assert_eq!(node.remove_child(6), Err(TreeError::NotAChild { parent: 5, child: 6 }));
    assert_eq!(node.get_children_ids(), vec![7]);
}

#[test]
fn setters_change_one_field() {
    let mut node: Node<u8> = Node::new_with_id(5, 1, 100, blur());
    node.set_parent(2);
    assert_eq!(node.get_parent_id(), 2);
    node.edit_operation(Operation::Root);
    assert_eq!(node.get_operation(), Operation::Root);
    node.set_image(Some(4));
    assert_eq!(node.get_image(), Some(&4));
    node.set_image(None);
    assert!(node.get_image().is_none());
    assert_eq!(node.get_id(), 5);
}

#[test]
fn nodes_are_equal_when_their_ids_are() {
    let a: Node<u8> = Node::new_with_id(5, 1, 100, blur());
    let b: Node<u8> = Node::new_with_id(5, 2, 200, Operation::Root);
    let c: Node<u8> = Node::new_with_id(6, 1, 100, blur());
    assert!(a == b);
    assert!(a != c);
}
