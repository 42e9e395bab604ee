use moonlight::workspace::error::TreeError;
use moonlight::workspace::node::Direction;
use moonlight::workspace::operation::{Edit, Operation, Position};
use moonlight::workspace::tree::{Develop, Tree};

/// A stand-in for a working image: the source value it was developed from,
/// plus the area of each crop applied to it.
#[derive(Clone, Debug, PartialEq)]
struct Img(u32);

impl Develop<u32> for Img {
    fn develop(source: &u32) -> Img {
        Img(*source)
    }
}

impl Edit for Img {
    fn cropped(&self, _at: Position, size: Position) -> Img {
        Img(self.0 + size.x * size.y)
    }
}

type T = Tree<String, u32, Img>;

const ROOT: u128 = 1;
const MAIN: u128 = 100;

fn rotate() -> Operation {
    Operation::Rotate(90.0f64.to_bits())
}

/// root(1) -> 10 -> 20 -> 30, all in the branch of the root.
fn chain() -> T {
    let mut tree = T::new_with_ids(ROOT, MAIN);
    tree.set_source("photo.png".to_string(), 7);
    tree.add_node_with_id(rotate(), 10).unwrap();
    tree.add_node_with_id(Operation::Exposure(1.5f64.to_bits()), 20).unwrap();
    tree.add_node_with_id(Operation::Contrast(0.5f64.to_bits()), 30).unwrap();
    tree
}

#[test]
fn tree_starts_with_only_its_root() {
    let tree = T::new_with_ids(ROOT, MAIN);
    assert_eq!(tree.get_position(), ROOT);
    let root = tree.get(ROOT).unwrap();
    assert!(root.is_root());
    assert_eq!(root.get_parent_id(), ROOT);
    assert_eq!(root.get_branch_id(), MAIN);
    assert_eq!(root.get_operation(), Operation::Root);
    assert!(!root.has_child());
    assert_eq!(tree.get_root().get_id(), ROOT);
    assert_eq!(tree.get_branch_ids(), vec![MAIN]);
    assert!(tree.get_image().is_none());
}

#[test]
fn tree_with_fresh_ids_is_positioned_on_its_root() {
    let tree: T = Tree::new();
    let root_id = tree.get_root().get_id();
    assert_eq!(tree.get_position(), root_id);
    assert!(tree.get(root_id).unwrap().is_root());
}

#[test]
fn get_of_a_missing_node_fails() {
    let tree = T::new_with_ids(ROOT, MAIN);
    assert_eq!(tree.get(99).err(), Some(TreeError::NodeNotFound(99)));
}

#[test]
fn add_node_needs_a_source_image() {
    let mut tree = T::new_with_ids(ROOT, MAIN);
    assert_eq!(tree.add_node_with_id(rotate(), 10), Err(TreeError::NoSourceImage));
    assert_eq!(tree.add_node(rotate()), Err(TreeError::NoSourceImage));
    assert_eq!(tree.add_branch(rotate()), Err(TreeError::NoSourceImage));
    assert!(tree.get(10).is_err());
    assert_eq!(tree.get_position(), ROOT);
}

#[test]
fn add_node_follows_the_position_in_its_branch() {
    let mut tree = T::new_with_ids(ROOT, MAIN);
    tree.set_source("photo.png".to_string(), 7);
    assert_eq!(tree.get_image(), Some(&7));
    assert_eq!(tree.add_node_with_id(rotate(), 10), Ok(()));
    assert_eq!(tree.get_position(), 10);
    let node = tree.get(10).unwrap();
    assert_eq!(node.get_parent_id(), ROOT);
    assert_eq!(node.get_branch_id(), MAIN);
    assert_eq!(node.get_operation(), rotate());
    assert_eq!(node.get_image(), Some(&Img(7)));
    assert_eq!(tree.get(ROOT).unwrap().get_children_ids(), vec![10]);
    assert_eq!(tree.get_current_image(), Ok(&Img(7)));
}

#[test]
fn add_node_refuses_a_taken_id() {
    let mut tree = chain();
    assert_eq!(tree.add_node_with_id(rotate(), 20), Err(TreeError::IdTaken(20)));
    assert_eq!(tree.add_branch_with_ids(rotate(), ROOT, 300), Err(TreeError::IdTaken(ROOT)));
    assert_eq!(tree.get_position(), 30);
    assert_eq!(tree.get_all_downstream_nodes(ROOT), Ok(vec![10, 20, 30]));
}

#[test]
fn add_node_with_a_fresh_id_becomes_the_position() {
    let mut tree = chain();
    assert_eq!(tree.add_node(rotate()), Ok(()));
    let new_id = tree.get_position();
    assert_ne!(new_id, 30);
    assert_eq!(tree.get(new_id).unwrap().get_parent_id(), 30);
    assert_eq!(tree.get(new_id).unwrap().get_branch_id(), MAIN);
}

#[test]
fn add_branch_after_a_leaf_stays_in_its_branch() {
    let mut tree = chain();
    assert_eq!(tree.add_branch_with_ids(rotate(), 40, 200), Ok(()));
    assert_eq!(tree.get_position(), 40);
    let node = tree.get(40).unwrap();
    assert_eq!(node.get_parent_id(), 30);
    assert_eq!(node.get_branch_id(), MAIN);
    assert_eq!(tree.get(30).unwrap().get_children_ids(), vec![40]);
    assert_eq!(tree.get_branch_ids(), vec![MAIN]);
    assert_eq!(tree.get_other_downstream_branches(30), Ok(vec![]));
    assert_eq!(tree.get_other_downstream_branches(99), Err(TreeError::NodeNotFound(99)));
}

#[test]
fn add_branch_before_followers_starts_a_new_branch() {
    let mut tree = chain();
    // the position lists a follower, so the new node opens a branch
    tree.get_mut(30).unwrap().add_child(20);
    assert_eq!(tree.add_branch_with_ids(rotate(), 40, 200), Ok(()));
    assert_eq!(tree.get(40).unwrap().get_branch_id(), 200);
    assert_eq!(tree.get(40).unwrap().get_parent_id(), 30);
    assert_eq!(tree.get(30).unwrap().get_children_ids(), vec![20, 40]);
    assert_eq!(tree.get_branch_ids(), vec![MAIN, 200]);
    assert_eq!(tree.get_other_downstream_branches(30), Ok(vec![200]));
}

#[test]
fn add_branch_refuses_a_branch_id_in_use() {
    let mut tree = chain();
    tree.get_mut(30).unwrap().add_child(20);
    assert_eq!(tree.add_branch_with_ids(rotate(), 40, MAIN), Err(TreeError::BranchTaken(MAIN)));
    assert_eq!(tree.get_position(), 30);
    assert!(tree.get(40).is_err());
}

#[test]
fn add_branch_with_fresh_ids_keeps_the_old_branches() {
    let mut tree = chain();
    assert_eq!(tree.add_branch(rotate()), Ok(()));
    let new_id = tree.get_position();
    assert_eq!(tree.get(new_id).unwrap().get_parent_id(), 30);
    assert_eq!(tree.get(new_id).unwrap().get_branch_id(), MAIN);
    assert_eq!(tree.get_branch_ids(), vec![MAIN]);
}

#[test]
fn upstream_lists_the_ancestors_parent_first() {
    let tree = chain();
    assert_eq!(tree.get_all_upstream_nodes(30), Ok(vec![20, 10, ROOT]));
    assert_eq!(tree.get_all_upstream_nodes(10), Ok(vec![ROOT]));
    assert_eq!(tree.get_all_upstream_nodes(ROOT), Ok(vec![]));
    assert_eq!(tree.get_all_upstream_nodes(99), Err(TreeError::NodeNotFound(99)));
}

#[test]
fn downstream_lists_the_descendants_breadth_first() {
    let tree = chain();
    assert_eq!(tree.get_all_downstream_nodes(ROOT), Ok(vec![10, 20, 30]));
    assert_eq!(tree.get_all_downstream_nodes(20), Ok(vec![30]));
    assert_eq!(tree.get_all_downstream_nodes(30), Ok(vec![]));
    assert_eq!(tree.get_all_downstream_nodes(99), Err(TreeError::NodeNotFound(99)));
}

#[test]
fn downstream_lists_each_node_once() {
    let mut tree = chain();
    tree.add_branch_with_ids(rotate(), 40, 200).unwrap();
    let down = tree.get_all_downstream_nodes(ROOT).unwrap();
    let mut sorted = down.clone();
    sorted.sort();
    sorted.dedup();
    assert_eq!(sorted.len(), down.len());
    assert_eq!(down, vec![10, 20, 30, 40]);
}

#[test]
fn end_nodes_are_the_nodes_without_children() {
    let tree = chain();
    assert_eq!(tree.get_downstream_end_nodes(ROOT), Ok(vec![30]));
    assert_eq!(tree.get_downstream_end_nodes(30), Ok(vec![30]));
    assert_eq!(tree.get_downstream_end_nodes(99), Err(TreeError::NodeNotFound(99)));
}

#[test]
fn downstream_and_upstream_mirror_each_other() {
    let tree = chain();
    let ids = [ROOT, 10, 20, 30];
    for &x in &ids {
        for &y in &ids {
            let down = tree.get_all_downstream_nodes(x).unwrap();
            let up = tree.get_all_upstream_nodes(y).unwrap();
            assert_eq!(down.contains(&y), up.contains(&x));
        }
    }
}

#[test]
fn no_node_is_its_own_relative() {
    let tree = chain();
    for &x in &[ROOT, 10, 20, 30] {
        assert!(!tree.get_all_upstream_nodes(x).unwrap().contains(&x));
        assert!(!tree.get_all_downstream_nodes(x).unwrap().contains(&x));
    }
}

#[test]
fn remove_node_keeps_heredity() {
    let mut tree = chain();
    assert_eq!(tree.remove_node(20), Ok(()));
    assert!(tree.get(20).is_err());
    assert_eq!(tree.get(30).unwrap().get_parent_id(), 10);
    assert_eq!(tree.get(10).unwrap().get_children_ids(), vec![30]);
    assert_eq!(tree.get_all_upstream_nodes(30), Ok(vec![10, ROOT]));
    assert_eq!(tree.get_position(), 30);
    assert_eq!(tree.get_current_image(), Ok(&Img(7)));
}

#[test]
fn remove_node_moves_the_position_to_the_parent() {
    let mut tree = chain();
    assert_eq!(tree.remove_node(30), Ok(()));
    assert_eq!(tree.get_position(), 20);
    assert!(tree.get(20).unwrap().get_children_ids().is_empty());
    assert_eq!(tree.get_current_image(), Ok(&Img(7)));
}

#[test]
fn remove_node_refuses_the_root_and_missing_nodes() {
    let mut tree = chain();
    assert_eq!(tree.remove_node(ROOT), Err(TreeError::RootIsFixed));
    assert_eq!(tree.remove_node(99), Err(TreeError::NodeNotFound(99)));
    assert_eq!(tree.get_all_downstream_nodes(ROOT), Ok(vec![10, 20, 30]));
}

#[test]
fn remove_node_hands_the_children_of_the_first_node_to_the_root() {
    let mut tree = chain();
    assert_eq!(tree.remove_node(10), Ok(()));
    assert_eq!(tree.get(20).unwrap().get_parent_id(), ROOT);
    assert_eq!(tree.get(ROOT).unwrap().get_children_ids(), vec![20]);
    let mut bare = T::new_with_ids(ROOT, MAIN);
    assert_eq!(bare.remove_node(5), Err(TreeError::NodeNotFound(5)));
}

#[test]
fn edit_node_changes_only_the_operation() {
    let mut tree = chain();
    let crop = Operation::Crop(Position::new(1, 2), Position::new(30, 40));
    assert_eq!(tree.edit_node(20, crop), Ok(()));
    let node = tree.get(20).unwrap();
    assert_eq!(node.get_operation(), crop);
    assert_eq!(node.get_parent_id(), 10);
    assert_eq!(tree.get_position(), 30);
}

#[test]
fn edit_node_clears_the_images_below_the_edited_node() {
    let mut tree = chain();
    for &x in &[ROOT, 10, 20] {
        tree.update_image_for(x).unwrap();
    }
    assert_eq!(tree.edit_node(10, rotate()), Ok(()));
    assert_eq!(tree.get(ROOT).unwrap().get_image(), Some(&Img(7)));
    assert_eq!(tree.get(10).unwrap().get_image(), Some(&Img(7)));
    assert!(tree.get(20).unwrap().get_image().is_none());
    assert!(tree.get(30).unwrap().get_image().is_none());
}

#[test]
fn edit_node_refuses_the_root_and_missing_nodes() {
    let mut tree = chain();
    assert_eq!(tree.edit_node(ROOT, rotate()), Err(TreeError::RootIsFixed));
    assert_eq!(tree.edit_node(99, rotate()), Err(TreeError::NodeNotFound(99)));
    assert_eq!(tree.get(ROOT).unwrap().get_operation(), Operation::Root);
}

#[test]
fn generate_image_for_develops_the_source() {
    let tree = chain();
    assert_eq!(tree.generate_image_for(20), Ok(Img(7)));
    assert_eq!(tree.generate_image_for(ROOT), Ok(Img(7)));
    assert_eq!(tree.generate_image_for(99), Err(TreeError::NodeNotFound(99)));
    let bare = T::new_with_ids(ROOT, MAIN);
    assert_eq!(bare.generate_image_for(ROOT), Err(TreeError::NoSourceImage));
}

#[test]
fn get_image_for_caches_the_image() {
    let mut tree = chain();
    assert!(tree.get(ROOT).unwrap().get_image().is_none());
    assert_eq!(tree.get_image_for(ROOT), Ok(&Img(7)));
    assert_eq!(tree.get(ROOT).unwrap().get_image(), Some(&Img(7)));
    assert_eq!(tree.update_image_for(99), Err(TreeError::NodeNotFound(99)));
    let mut bare = T::new_with_ids(ROOT, MAIN);
    assert_eq!(bare.get_image_for(ROOT), Err(TreeError::NoSourceImage));
    assert_eq!(bare.get_current_image(), Err(TreeError::NoImage));
}

#[test]
fn get_image_for_hands_out_a_cached_image() {
    let mut tree = chain();
    tree.get_mut(30).unwrap().set_image(Some(Img(3)));
    assert_eq!(tree.get_image_for(30), Ok(&Img(3)));
    assert_eq!(tree.get(30).unwrap().get_image(), Some(&Img(3)));
    assert!(tree.get(20).unwrap().get_image().is_none());
}

#[test]
fn a_crop_in_the_path_crops_the_developed_image() {
    let mut tree = chain();
    let crop = Operation::Crop(Position::new(1, 2), Position::new(3, 4));
    tree.add_node_with_id(crop, 40).unwrap();
    assert_eq!(tree.generate_image_for(40), Ok(Img(7 + 3 * 4)));
    assert_eq!(tree.get_current_image(), Ok(&Img(7 + 3 * 4)));
    assert_eq!(tree.generate_image_for(30), Ok(Img(7)));
}

#[test]
fn adding_clears_the_images_upstream() {
    let tree = chain();
    assert!(tree.get(ROOT).unwrap().get_image().is_none());
    assert!(tree.get(10).unwrap().get_image().is_none());
    assert!(tree.get(20).unwrap().get_image().is_none());
    assert_eq!(tree.get(30).unwrap().get_image(), Some(&Img(7)));
}

#[test]
fn prune_upstream_leaves_the_start_and_below() {
    let mut tree = chain();
    for &x in &[ROOT, 10, 20] {
        tree.update_image_for(x).unwrap();
    }
    assert_eq!(tree.prune(20, Direction::UpStream), Ok(()));
    assert!(tree.get(ROOT).unwrap().get_image().is_none());
    assert!(tree.get(10).unwrap().get_image().is_none());
    assert_eq!(tree.get(20).unwrap().get_image(), Some(&Img(7)));
    assert_eq!(tree.get(30).unwrap().get_image(), Some(&Img(7)));
}

#[test]
fn prune_downstream_leaves_the_start_and_above() {
    let mut tree = chain();
    for &x in &[ROOT, 10, 20] {
        tree.update_image_for(x).unwrap();
    }
    assert_eq!(tree.prune(10, Direction::DownStream), Ok(()));
    assert_eq!(tree.get(ROOT).unwrap().get_image(), Some(&Img(7)));
    assert_eq!(tree.get(10).unwrap().get_image(), Some(&Img(7)));
    assert!(tree.get(20).unwrap().get_image().is_none());
    assert!(tree.get(30).unwrap().get_image().is_none());
    assert_eq!(tree.prune(99, Direction::DownStream), Err(TreeError::NodeNotFound(99)));
}

#[test]
fn get_mut_edits_the_stored_node() {
    let mut tree = chain();
    tree.get_mut(20).unwrap().set_image(Some(Img(3)));
    assert_eq!(tree.get(20).unwrap().get_image(), Some(&Img(3)));
    assert!(tree.get_mut(99).is_none());
}

#[test]
fn insertion_puts_the_new_node_after_the_position() {
    let mut tree = chain();
    tree.add_node_with_id(rotate(), 40).unwrap();
    assert_eq!(tree.get_all_upstream_nodes(40), Ok(vec![30, 20, 10, ROOT]));
    for &y in &[ROOT, 10, 20, 30] {
        assert!(!tree.get_all_upstream_nodes(y).unwrap().contains(&40));
    }
}

#[test]
fn branching_leaves_the_old_ancestry_alone() {
    let mut tree = chain();
    let before: Vec<Vec<u128>> = [ROOT, 10, 20, 30].iter().map(|&y| tree.get_all_upstream_nodes(y).unwrap()).collect();
    tree.add_branch_with_ids(rotate(), 40, 200).unwrap();
    let after: Vec<Vec<u128>> = [ROOT, 10, 20, 30].iter().map(|&y| tree.get_all_upstream_nodes(y).unwrap()).collect();
    assert_eq!(before, after);
    assert_eq!(tree.get_all_upstream_nodes(40), Ok(vec![30, 20, 10, ROOT]));
}

#[test]
fn every_branch_runs_as_one_line_after_adding() {
    let mut tree = chain();
    tree.add_branch_with_ids(rotate(), 40, 200).unwrap();
    tree.add_node_with_id(rotate(), 50).unwrap();
    for &x in &[ROOT, 10, 20, 30, 40, 50] {
        let node = tree.get(x).unwrap();
        let same_branch = node
            .get_children_ids()
            .iter()
            .filter(|&&c| tree.get(c).unwrap().get_branch_id() == node.get_branch_id())
            .count();
        assert!(same_branch <= 1);
    }
}

#[test]
fn generating_ignores_cached_images() {
    let plain = chain();
    let mut cached = chain();
    cached.get_mut(20).unwrap().set_image(Some(Img(3)));
    cached.get_mut(ROOT).unwrap().set_image(Some(Img(5)));
    for &x in &[ROOT, 10, 20, 30] {
        assert_eq!(plain.generate_image_for(x), cached.generate_image_for(x));
    }
    assert_eq!(cached.generate_image_for(20), Ok(Img(7)));
}
