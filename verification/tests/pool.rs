use moonlight::processor::node::{Node, Pool};
use moonlight::processor::operation::{Operation, Point};
use moonlight::workspace::error::TreeError;

type P = Pool<Vec<f32>>;

fn exposure() -> Operation {
    Operation::Exposure(0.5f64.to_bits())
}

/// root(1) -> 10 -> 20, with a source image.
fn grown() -> P {
    let mut pool = P::new_with_ids(1, 100);
    pool.set_image(vec![0.5, 0.25]);
    pool.add_node_with_id(exposure(), 10).unwrap();
    pool.add_node_with_id(Operation::Crop(Point::new(0, 0), Point::new(4, 4)), 20).unwrap();
    pool
}

#[test]
fn pool_starts_with_only_its_root() {
    let pool = P::new_with_ids(1, 100);
    assert_eq!(pool.get_position(), 1);
    let root = pool.get(1).unwrap();
    assert_eq!(root.get_parent_id(), None);
    assert_eq!(root.get_branch_id(), 100);
    assert_eq!(root.get_operation(), Operation::Root);
    assert!(!root.has_child());
    assert!(pool.get_image().is_none());
    assert_eq!(pool.get(7).err(), Some(TreeError::NodeNotFound(7)));
}

#[test]
fn pool_with_fresh_ids_is_positioned_on_its_root() {
    let pool: P = Pool::new();
    let root = pool.get(pool.get_position()).unwrap();
    assert_eq!(root.get_parent_id(), None);
    assert_eq!(root.get_operation(), Operation::Root);
}

#[test]
fn pool_add_needs_a_source_image() {
    let mut pool = P::new_with_ids(1, 100);
    assert_eq!(pool.add_node_with_id(exposure(), 10), Err(TreeError::NoSourceImage));
    assert_eq!(pool.add_branch_with_ids(exposure(), 10, 200), Err(TreeError::NoSourceImage));
    assert_eq!(pool.add_node(exposure()), Err(TreeError::NoSourceImage));
    assert_eq!(pool.add_branch(exposure()), Err(TreeError::NoSourceImage));
    assert!(pool.get(10).is_err());
}

#[test]
fn pool_add_node_follows_the_position() {
    let pool = grown();
    assert_eq!(pool.get_image(), Some(&vec![0.5, 0.25]));
    assert_eq!(pool.get_position(), 20);
    assert_eq!(pool.get(20).unwrap().get_parent_id(), Some(10));
    assert_eq!(pool.get(20).unwrap().get_branch_id(), 100);
    assert_eq!(pool.get(10).unwrap().get_parent_id(), Some(1));
    assert_eq!(pool.get(10).unwrap().get_operation(), exposure());
}

#[test]
fn pool_add_branch_after_a_leaf_stays_in_its_branch() {
    let mut pool = grown();
    assert_eq!(pool.add_branch_with_ids(exposure(), 30, 200), Ok(()));
    assert_eq!(pool.get_position(), 30);
    assert_eq!(pool.get(30).unwrap().get_parent_id(), Some(20));
    assert_eq!(pool.get(30).unwrap().get_branch_id(), 100);
    assert_eq!(pool.get(20).unwrap().get_children_ids(), vec![30]);
    assert!(pool.get(30).unwrap().get_children_ids().is_empty());
}

#[test]
fn pool_add_branch_before_followers_starts_a_new_branch() {
    let mut pool = grown();
    // the position lists a follower, so the new node opens a branch
    pool.get_mut(20).unwrap().add_child(10);
    assert_eq!(pool.add_branch_with_ids(exposure(), 30, 100), Err(TreeError::BranchTaken(100)));
    assert!(pool.get(30).is_err());
    assert_eq!(pool.add_branch_with_ids(exposure(), 30, 200), Ok(()));
    assert_eq!(pool.get(30).unwrap().get_branch_id(), 200);
    assert_eq!(pool.get(20).unwrap().get_children_ids(), vec![10, 30]);
}

#[test]
fn pool_child_lists_follow_the_parent_links() {
    let pool = grown();
    assert_eq!(pool.get(1).unwrap().get_children_ids(), vec![10]);
    assert_eq!(pool.get(10).unwrap().get_children_ids(), vec![20]);
    assert!(pool.get(20).unwrap().get_children_ids().is_empty());
}

#[test]
fn pool_add_with_fresh_ids() {
    let mut pool = grown();
    assert_eq!(pool.add_node(exposure()), Ok(()));
    let a = pool.get_position();
    assert_eq!(pool.get(a).unwrap().get_parent_id(), Some(20));
    assert_eq!(pool.add_branch(exposure()), Ok(()));
    let b = pool.get_position();
    assert_eq!(pool.get(b).unwrap().get_parent_id(), Some(a));
}

#[test]
fn pool_refuses_a_taken_id() {
    let mut pool = grown();
    assert_eq!(pool.add_node_with_id(exposure(), 10), Err(TreeError::IdTaken(10)));
    assert_eq!(pool.add_branch_with_ids(exposure(), 1, 300), Err(TreeError::IdTaken(1)));
    assert_eq!(pool.get_position(), 20);
}

#[test]
fn pool_edit_node_changes_the_operation() {
    let mut pool = grown();
    assert_eq!(pool.edit_node(10, Operation::Blacks(3)), Ok(()));
    assert_eq!(pool.get(10).unwrap().get_operation(), Operation::Blacks(3));
    assert_eq!(pool.edit_node(1, Operation::Blacks(3)), Err(TreeError::RootIsFixed));
    assert_eq!(pool.edit_node(99, Operation::Blacks(3)), Err(TreeError::NodeNotFound(99)));
    assert_eq!(pool.get(1).unwrap().get_operation(), Operation::Root);
}

#[test]
fn pool_remove_node_moves_the_position_to_the_parent() {
    let mut pool = grown();
    assert_eq!(pool.remove_node(20), Ok(()));
    assert!(pool.get(20).is_err());
    assert_eq!(pool.get_position(), 10);
    assert!(pool.get(10).unwrap().get_children_ids().is_empty());
    assert_eq!(pool.remove_node(1), Err(TreeError::RootIsFixed));
    assert_eq!(pool.remove_node(99), Err(TreeError::NodeNotFound(99)));
}

#[test]
fn pool_prune_walks_up_to_the_root() {
    let mut pool = grown();
    assert_eq!(pool.prune(20), Ok(()));
    assert_eq!(pool.prune(99), Err(TreeError::NodeNotFound(99)));
}

#[test]
fn pool_node_images_need_a_source() {
    let pool = P::new_with_ids(1, 100);
    let mut node: Node<Vec<f32>> = Node::new_with_id(5, Some(1), 100, exposure());
    assert_eq!(node.get_image(&pool), Err(TreeError::NoSourceImage));
    let mut orphan: Node<Vec<f32>> = Node::new_with_id(6, Some(9), 100, exposure());
    assert_eq!(orphan.get_image(&pool), Err(TreeError::NodeNotFound(9)));
}

#[test]
fn pool_node_children_and_setters() {
    let mut node: Node<u8> = Node::new_with_id(5, Some(1), 100, exposure());
    assert_eq!(node.get_id(), 5);
    node.add_child(7);
    node.add_children(vec![8]);
    assert_eq!(node.get_children_ids(), vec![7, 8]);
    assert!(node.has_child());
    assert_eq!(node.remove_child(7), Ok(()));
    assert_eq!(node.remove_child(7), Err(TreeError::NotAChild { parent: 5, child: 7 }));
    node.remove_children();
    assert!(!node.has_child());
    node.set_parent(None);
    assert_eq!(node.get_parent_id(), None);
    node.edit_operation(Operation::Root);
    assert_eq!(node.get_operation(), Operation::Root);
    node.snip();
    let fresh: Node<u8> = Node::new(Some(1), 100, exposure());
    assert_eq!(fresh.get_branch_id(), 100);
}

#[test]
fn pool_remove_node_keeps_heredity() {
    let mut pool = grown();
    assert_eq!(pool.remove_node(10), Ok(()));
    assert!(pool.get(10).is_err());
    assert_eq!(pool.get(20).unwrap().get_parent_id(), Some(1));
    assert_eq!(pool.get(1).unwrap().get_children_ids(), vec![20]);
    assert_eq!(pool.get_position(), 20);
    // the walk up from 20 still reaches the root
    assert_eq!(pool.prune(20), Ok(()));
}

#[test]
fn pool_insertion_appends_below_a_leaf_position() {
    let mut pool = grown();
    assert_eq!(pool.add_node_with_id(exposure(), 30), Ok(()));
    assert_eq!(pool.get(30).unwrap().get_parent_id(), Some(20));
    assert_eq!(pool.get(20).unwrap().get_parent_id(), Some(10));
    assert_eq!(pool.prune(30), Ok(()));
}

#[test]
fn pool_nodes_are_equal_when_their_ids_are() {
    let a: Node<u8> = Node::new_with_id(5, Some(1), 100, exposure());
    let b: Node<u8> = Node::new_with_id(5, None, 200, Operation::Root);
    let c: Node<u8> = Node::new_with_id(6, Some(1), 100, exposure());
    assert!(a == b);
    assert!(a != c);
}

#[test]
fn pool_walks_from_every_node_reach_the_root() {
    let mut pool = grown();
    for &x in &[1, 10, 20] {
        assert_eq!(pool.prune(x), Ok(()));
    }
}
