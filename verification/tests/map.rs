use moonlight::workspace::map::{BranchMap, Nodule, TreeMap};
use moonlight::workspace::node::Node;
use moonlight::workspace::operation::{Edit, Operation, Position};
use moonlight::workspace::tree::{Develop, Tree};

#[derive(Clone, Debug, PartialEq)]
struct Img(u32);

impl Develop<u32> for Img {
    fn develop(source: &u32) -> Img {
        Img(*source)
    }
}

impl Edit for Img {
    fn cropped(&self, _at: Position, _size: Position) -> Img {
        Img(self.0)
    }
}

type T = Tree<String, u32, Img>;

fn nodule(node_id: u128, branch_id: u128, x: u32, y: u32) -> Nodule {
    Nodule { node_id, branch_id, x, y }
}

fn rotate() -> Operation {
    Operation::Rotate(45.0f64.to_bits())
}

#[test]
fn a_lone_root_is_mapped_at_the_origin() {
    let tree = T::new_with_ids(1, 100);
    let map = TreeMap::new(&tree).unwrap();
    assert_eq!(map.get_nodules(), &vec![nodule(1, 100, 0, 0)]);
    assert_eq!(map.get_bounds(), (32, 32));
}

#[test]
fn a_chain_is_mapped_from_its_end_up_to_the_root() {
    let mut tree = T::new_with_ids(1, 100);
    tree.set_source("photo.png".to_string(), 7);
    tree.add_node_with_id(rotate(), 10).unwrap();
    tree.add_node_with_id(rotate(), 20).unwrap();
    tree.add_node_with_id(rotate(), 30).unwrap();
    let map = TreeMap::new(&tree).unwrap();
    assert_eq!(
        map.get_nodules(),
        &vec![nodule(30, 100, 0, 0), nodule(20, 100, 0, 1), nodule(10, 100, 0, 2), nodule(1, 100, 0, 3)]
    );
    assert_eq!(map.get_bounds(), (32, 35));
}

#[test]
fn a_branch_added_after_a_leaf_is_mapped_in_its_branch() {
    let mut tree = T::new_with_ids(1, 100);
    tree.set_source("photo.png".to_string(), 7);
    tree.add_branch_with_ids(rotate(), 10, 200).unwrap();
    let maps = BranchMap::build_branch_maps(&tree).unwrap();
    assert_eq!(maps.len(), 1);
    assert_eq!(maps[0].get_nodules(), &vec![nodule(10, 100, 0, 0), nodule(1, 100, 0, 1)]);
    let map = TreeMap::new(&tree).unwrap();
    assert_eq!(map.get_nodules(), &vec![nodule(10, 100, 0, 0), nodule(1, 100, 0, 1)]);
}

#[test]
fn a_lone_root_has_one_map_holding_it_once() {
    let tree = T::new_with_ids(1, 100);
    let maps = BranchMap::build_branch_maps(&tree).unwrap();
    assert_eq!(maps.len(), 1);
    assert_eq!(maps[0].get_nodules(), &vec![nodule(1, 100, 0, 0)]);
}

#[test]
fn every_nodule_lies_within_the_bounds() {
    let mut tree = T::new_with_ids(1, 100);
    tree.set_source("photo.png".to_string(), 7);
    for id in 2..8u128 {
        tree.add_node_with_id(rotate(), id).unwrap();
    }
    let map = TreeMap::new(&tree).unwrap();
    let (width, height) = map.get_bounds();
    for n in map.get_nodules() {
        assert!(n.x + 32 <= width);
        assert!(n.y + 32 <= height);
    }
    assert_eq!(map.get_nodules().len(), 7);
    assert_eq!(height, 6 + 32);
}

#[test]
fn build_branch_maps_climbs_each_branch_to_the_root() {
    let mut tree = T::new_with_ids(1, 100);
    tree.set_source("photo.png".to_string(), 7);
    tree.add_node_with_id(rotate(), 10).unwrap();
    let maps = BranchMap::build_branch_maps(&tree).unwrap();
    assert_eq!(maps.len(), 1);
    assert_eq!(maps[0].get_branch_id(), 100);
    assert_eq!(maps[0].get_nodules(), &vec![nodule(10, 100, 0, 0), nodule(1, 100, 0, 1)]);
    let placed = BranchMap::assemble_nodules(&tree, maps).unwrap();
    assert_eq!(placed, vec![nodule(10, 100, 0, 0), nodule(1, 100, 0, 1)]);
}

#[test]
fn a_branch_map_hands_out_every_nodule_in_turn() {
    let end: Node<Img> = Node::new_with_id(3, 2, 100, rotate());
    let middle: Node<Img> = Node::new_with_id(2, 1, 100, rotate());
    let base: Node<Img> = Node::new_root_with_ids(1, 100);
    let mut map = BranchMap::new(&end);
    map.add_node_upstream(&middle);
    map.add_node_upstream(&base);
    assert_eq!(map.get_branch_id(), 100);
    assert_eq!(map.get_next_nodule(), Some(nodule(3, 100, 0, 0)));
    assert_eq!(map.get_next_nodule(), Some(nodule(2, 100, 0, 1)));
    assert_eq!(map.get_next_nodule(), Some(nodule(1, 100, 0, 2)));
    assert_eq!(map.get_next_nodule(), None);
    assert_eq!(map.get_next_nodule(), None);
}

#[test]
fn a_map_of_one_nodule_hands_it_out() {
    let base: Node<Img> = Node::new_root_with_ids(1, 100);
    let mut map = BranchMap::new(&base);
    assert_eq!(map.get_next_nodule(), Some(nodule(1, 100, 0, 0)));
    assert_eq!(map.get_next_nodule(), None);
}

#[test]
fn a_branch_attaches_below_and_beside_its_source() {
    let end: Node<Img> = Node::new_with_id(3, 2, 200, rotate());
    let mut map = BranchMap::new(&end);
    map.set_branch_attachment(&nodule(2, 100, 4, 6));
    assert_eq!(map.get_nodules(), &vec![nodule(3, 200, 5, 7)]);
    assert!(map.offset_fits_all(1, 1));
    assert!(!map.offset_fits_all(u32::MAX, 0));
    map.add_offset_to_all(1, 2);
    assert_eq!(map.get_nodules(), &vec![nodule(3, 200, 6, 9)]);
    map.get_nodules_mut().push(nodule(9, 200, 0, 0));
    assert_eq!(map.get_nodules().len(), 2);
}

#[test]
fn nodule_accessors_and_setters() {
    let node: Node<Img> = Node::new_with_id(3, 2, 200, rotate());
    let mut n = Nodule::new(&node, 4);
    assert_eq!((n.get_node_id(), n.get_branch_id(), n.get_x(), n.get_y()), (3, 200, 0, 4));
    n.add_position_offset(2, 3);
    assert_eq!((n.get_x(), n.get_y()), (2, 7));
    n.set_x(9);
    n.set_y(1);
    assert_eq!(n, nodule(3, 200, 9, 1));
}

#[test]
fn node_count_counts_the_root_too() {
    let mut tree = T::new_with_ids(1, 100);
    assert_eq!(tree.node_count(), 1);
    tree.set_source("photo.png".to_string(), 7);
    tree.add_node_with_id(rotate(), 10).unwrap();
    assert_eq!(tree.node_count(), 2);
}

#[test]
fn every_node_is_placed_once_and_apart() {
    let mut tree = T::new_with_ids(1, 100);
    tree.set_source("photo.png".to_string(), 7);
    tree.add_node_with_id(rotate(), 10).unwrap();
    tree.add_branch_with_ids(rotate(), 20, 200).unwrap();
    tree.add_node_with_id(rotate(), 30).unwrap();
    let map = TreeMap::new(&tree).unwrap();
    let nodules = map.get_nodules();
    let mut ids: Vec<u128> = nodules.iter().map(|n| n.node_id).collect();
    ids.sort();
    assert_eq!(ids, vec![1, 10, 20, 30]);
    for a in 0..nodules.len() {
        for b in (a + 1)..nodules.len() {
            assert!((nodules[a].x, nodules[a].y) != (nodules[b].x, nodules[b].y));
        }
    }
}

#[test]
fn branch_maps_can_always_be_built() {
    let mut tree = T::new_with_ids(1, 100);
    assert!(BranchMap::build_branch_maps(&tree).is_ok());
    tree.set_source("photo.png".to_string(), 7);
    tree.add_node_with_id(rotate(), 10).unwrap();
    tree.add_branch_with_ids(rotate(), 20, 200).unwrap();
    let maps = BranchMap::build_branch_maps(&tree).unwrap();
    assert_eq!(maps.len(), 1);
    assert_eq!(
        maps[0].get_nodules(),
        &vec![nodule(20, 100, 0, 0), nodule(10, 100, 0, 1), nodule(1, 100, 0, 2)]
    );
}

/// root(1) -> 10 -> {20 in branch 100, 40 in branch 200}.
fn forked() -> T {
    let mut tree = T::new_with_ids(1, 100);
    tree.set_source("photo.png".to_string(), 7);
    tree.add_node_with_id(rotate(), 10).unwrap();
    tree.add_node_with_id(rotate(), 20).unwrap();
    tree.add_node_with_id(rotate(), 30).unwrap();
    // move 30 up beside 20, then take it out so that the position is 10
    tree.get_mut(30).unwrap().set_parent(10);
    tree.get_mut(20).unwrap().remove_child(30).unwrap();
    tree.get_mut(10).unwrap().add_child(30);
    tree.remove_node(30).unwrap();
    assert_eq!(tree.get_position(), 10);
    tree.add_branch_with_ids(rotate(), 40, 200).unwrap();
    tree
}

#[test]
fn each_branch_stands_in_its_own_column() {
    let tree = forked();
    assert_eq!(tree.get(40).unwrap().get_branch_id(), 200);
    let map = TreeMap::new(&tree).unwrap();
    assert_eq!(
        map.get_nodules(),
        &vec![nodule(20, 100, 0, 0), nodule(10, 100, 0, 1), nodule(40, 200, 1, 1), nodule(1, 100, 0, 2)]
    );
    let nodules = map.get_nodules();
    for a in nodules {
        assert_eq!(a.x == 0, a.branch_id == 100);
        for c in nodules {
            assert_eq!(a.branch_id == c.branch_id, a.x == c.x);
        }
    }
}

#[test]
fn a_forked_tree_shows_every_node_once() {
    let tree = forked();
    let map = TreeMap::new(&tree).unwrap();
    let mut ids: Vec<u128> = map.get_nodules().iter().map(|n| n.node_id).collect();
    ids.sort();
    assert_eq!(ids, vec![1, 10, 20, 40]);
}
