use vstd::prelude::*;

use crate::workspace::error::TreeError;
use crate::workspace::node::{differs_from, Node};
use crate::workspace::shape::{lemma_concat_contains, lemma_push_contains_u128};
use crate::workspace::operation::{Edit, Operation};
use crate::workspace::shape::Shape;
use crate::workspace::tree::{vec_contains, Develop, Tree};

verus! {

/// Why a `TreeMap` of a tree could not be laid out.
#[derive(Debug, Clone, Copy, PartialEq, Eq, Structural)]
pub enum MapError {
    /// A lookup in the tree failed.
    Tree(TreeError),
    /// No branch map starts in the branch of the root.
    NoRootBranch,
    /// A branch that the layout reached has no branch map.
    MissingBranchMap(u128),
    /// A coordinate would not fit in 32 bits.
    Overflow,
}

/// Holds the id of a `Node`, with its branch, and its position relative to
/// other `Node`s/`Nodule`s.
#[derive(Debug, Clone, Copy, PartialEq, Eq, Structural)]
pub struct Nodule {
    /// The `Node` being referenced.
    pub node_id: u128,
    /// The branch of that `Node`.
    pub branch_id: u128,
    /// How far out sideways this branch is visually.
    pub x: u32,
    /// How far down the tree the `Node` is.
    pub y: u32,
}

impl Nodule {
    // initializing
    /// Creates a new `Nodule` for the given `Node`, at the given depth and no
    /// sideways offset. Positions are first relative to the branch map that
    /// holds the `Nodule`, and made relative to the whole map when branch
    /// maps are combined.
    pub fn new<I>(node: &Node<I>, y: u32) -> (nodule: Nodule)
        ensures
            nodule == (Nodule { node_id: node@.id, branch_id: node@.branch_id, x: 0, y }),
    {
        Nodule { node_id: node.get_id(), branch_id: node.get_branch_id(), x: 0, y }
    }

    // basic getters
    /// Gets the id of the `Node`.
    pub fn get_node_id(&self) -> (id: u128)
        ensures
            id == self.node_id,
    {
        self.node_id
    }

    /// Gets the branch of the `Node`.
    pub fn get_branch_id(&self) -> (id: u128)
        ensures
            id == self.branch_id,
    {
        self.branch_id
    }

    /// Gets the `x` position.
    pub fn get_x(&self) -> (x: u32)
        ensures
            x == self.x,
    {
        self.x
    }

    /// Gets the `y` position.
    pub fn get_y(&self) -> (y: u32)
        ensures
            y == self.y,
    {
        self.y
    }

    // basic editing
    /// Adds a position offset.
    pub fn add_position_offset(&mut self, offset_x: u32, offset_y: u32)
        requires
            old(self).x + offset_x <= u32::MAX,
            old(self).y + offset_y <= u32::MAX,
        ensures
            *final(self) == (Nodule { x: (old(self).x + offset_x) as u32, y: (old(self).y + offset_y) as u32, ..*old(self) }),
    {
        self.x = self.x + offset_x;
        self.y = self.y + offset_y;
    }

    /// Sets the `x` position.
    pub fn set_x(&mut self, new_x: u32)
        ensures
            *final(self) == (Nodule { x: new_x, ..*old(self) }),
    {
        self.x = new_x;
    }

    /// Sets the `y` position.
    pub fn set_y(&mut self, new_y: u32)
        ensures
            *final(self) == (Nodule { y: new_y, ..*old(self) }),
    {
        self.y = new_y;
    }
}

/// Holds the `Nodule`s that make up a branch in the `Tree`. The first
/// `Nodule` is the end point of the branch, and the last is its base.
/// This is used while constructing a `TreeMap`.
pub struct BranchMap {
    /// The `Nodule`s, from the end point of the branch up to its base.
    nodules: Vec<Nodule>,
    /// The index of the next `Nodule` to explore when assembling the map.
    next_nodule: usize,
}

impl BranchMap {
    pub closed spec fn nodules(&self) -> Seq<Nodule> {
        self.nodules@
    }

    pub closed spec fn next(&self) -> nat {
        self.next_nodule as nat
    }

    // building
    /// Creates a new `BranchMap` holding the given `Node` alone.
    pub fn new<I>(node: &Node<I>) -> (map: BranchMap)
        ensures
            map.nodules() == seq![Nodule { node_id: node@.id, branch_id: node@.branch_id, x: 0, y: 0 }],
            map.next() == 0,
    {
        let first_nodule = Nodule::new(node, 0);
        let mut nodules: Vec<Nodule> = Vec::new();
        nodules.push(first_nodule);
        BranchMap { nodules, next_nodule: 0 }
    }

    /// Adds a new `Node` to the `BranchMap`, upstream of the last `Node`, one
    /// step further down than it.
    pub fn add_node_upstream<I>(&mut self, node: &Node<I>)
        requires
            old(self).nodules().len() > 0,
            old(self).nodules().last().y < u32::MAX,
        ensures
            final(self).nodules() == old(self).nodules().push(
                Nodule {
                    node_id: node@.id,
                    branch_id: node@.branch_id,
                    x: 0,
                    y: (old(self).nodules().last().y + 1) as u32,
                },
            ),
            final(self).next() == old(self).next(),
    {
        let last_y = self.nodules[self.nodules.len() - 1].get_y();
        let new_nodule = Nodule::new(node, last_y + 1);
        self.nodules.push(new_nodule);
    }

    /// Updates all the `Nodule` positions to be relative to the `Nodule` it
    /// branches off from.
    #[verifier::spinoff_prover]
    pub fn set_branch_attachment(&mut self, source_nodule: &Nodule)
        requires
            source_nodule.x < u32::MAX,
            source_nodule.y < u32::MAX,
            forall|k: int|
                0 <= k < old(self).nodules().len() ==> #[trigger] old(self).nodules()[k].x + source_nodule.x + 1
                    <= u32::MAX && old(self).nodules()[k].y + source_nodule.y + 1 <= u32::MAX,
        ensures
            final(self).next() == old(self).next(),
            final(self).nodules().len() == old(self).nodules().len(),
            forall|k: int|
                0 <= k < old(self).nodules().len() ==> #[trigger] final(self).nodules()[k] == (Nodule {
                    x: (old(self).nodules()[k].x + source_nodule.x + 1) as u32,
                    y: (old(self).nodules()[k].y + source_nodule.y + 1) as u32,
                    ..old(self).nodules()[k]
                }),
    {
        let base_x = source_nodule.get_x() + 1;
        let base_y = source_nodule.get_y() + 1;
        let ghost before = self.nodules@;
        let mut i: usize = 0;
        while i < self.nodules.len()
            invariant
                i <= self.nodules@.len(),
                self.nodules@.len() == before.len(),
                self.next_nodule == old(self).next_nodule,
                before == old(self).nodules(),
                base_x == source_nodule.x + 1,
                base_y == source_nodule.y + 1,
                forall|k: int|
                    0 <= k < before.len() ==> #[trigger] before[k].x + base_x <= u32::MAX && before[k].y + base_y
                        <= u32::MAX,
                forall|k: int|
                    0 <= k < before.len() ==> #[trigger] self.nodules@[k] == if k < i {
                        Nodule { x: (before[k].x + base_x) as u32, y: (before[k].y + base_y) as u32, ..before[k] }
                    } else {
                        before[k]
                    },
            decreases self.nodules@.len() - i,
        {
            let mut nodule = self.nodules[i];
            assert(nodule == before[i as int]);
            nodule.add_position_offset(base_x, base_y);
            self.nodules.set(i, nodule);
            i = i + 1;
        }
    }

    // basic getters
    /// Gets an immutable reference to the `Nodule`s.
    pub fn get_nodules(&self) -> (nodules: &Vec<Nodule>)
        ensures
            nodules@ == self.nodules(),
    {
        &self.nodules
    }

    /// Gets a mutable reference to the `Nodule`s.
    pub fn get_nodules_mut(&mut self) -> (nodules: &mut Vec<Nodule>)
        ensures
            nodules@ == old(self).nodules(),
            final(self).nodules() == final(nodules)@,
            final(self).next() == old(self).next(),
    {
        &mut self.nodules
    }

    /// Gets the branch id of the `BranchMap`: that of its first `Nodule`.
    pub fn get_branch_id(&self) -> (id: u128)
        requires
            self.nodules().len() > 0,
        ensures
            id == self.nodules()[0].branch_id,
    {
        self.nodules[0].get_branch_id()
    }

    // parsing
    /// Gets the next `Nodule` to explore when assembling all `Nodule`s into
    /// a `TreeMap`: each of them in turn, from the end point of the branch
    /// to its base, and then none.
    pub fn get_next_nodule(&mut self) -> (nodule: Option<Nodule>)
        ensures
            final(self).nodules() == old(self).nodules(),
            old(self).next() < old(self).nodules().len() ==> nodule == Some(
                old(self).nodules()[old(self).next() as int],
            ) && final(self).next() == old(self).next() + 1,
            !(old(self).next() < old(self).nodules().len()) ==> nodule is None && final(self).next()
                == old(self).next(),
    {
        if self.next_nodule < self.nodules.len() {
            let nodule = self.nodules[self.next_nodule];
            self.next_nodule = self.next_nodule + 1;
            Some(nodule)
        } else {
            None
        }
    }
}

/// The nodes from `x` upwards that lie in branch `b`, stopping before the
/// root and before the first node of another branch.
pub open spec fn climb<P, S, I>(tree: Tree<P, S, I>, x: u128, b: u128) -> Seq<u128>
    decreases tree.shape().rank[x],
    when tree.wf()
{
    if !tree.has(x) || x == tree.root() || tree.branch_of(x) != b {
        Seq::empty()
    } else {
        seq![x] + climb(tree, tree.shape().parent(x), b)
    }
}

/// The node at which `climb(tree, x, b)` stops: the root, or the first node
/// from `x` upwards that lies in another branch.
pub open spec fn climb_stop<P, S, I>(tree: Tree<P, S, I>, x: u128, b: u128) -> u128
    decreases tree.shape().rank[x],
    when tree.wf()
{
    if !tree.has(x) || x == tree.root() || tree.branch_of(x) != b {
        x
    } else {
        climb_stop(tree, tree.shape().parent(x), b)
    }
}

/// Whether the branch map that starts at `e` reaches up to the root: `e` is
/// not the root, and lies in the branch of the root, and its branch runs
/// unbroken up to the root.
pub open spec fn reaches_root<P, S, I>(tree: Tree<P, S, I>, e: u128) -> bool {
    &&& e != tree.root()
    &&& tree.branch_of(e) == tree.branch_of(tree.root())
    &&& climb_stop(tree, tree.shape().parent(e), tree.branch_of(e)) == tree.root()
}

/// The nodes of the branch map that starts at the end node `e`: `e`, the
/// nodes above it in its branch (the root excluded), and the root last when
/// the branch runs unbroken from `e` up to the root.
pub open spec fn branch_ids_for<P, S, I>(tree: Tree<P, S, I>, e: u128) -> Seq<u128> {
    let ids = seq![e] + climb(tree, tree.shape().parent(e), tree.branch_of(e));
    if reaches_root(tree, e) {
        ids.push(tree.root())
    } else {
        ids
    }
}

/// The nodules of the nodes `ids`, one step further down each.
pub open spec fn nodules_for<P, S, I>(tree: Tree<P, S, I>, ids: Seq<u128>) -> Seq<Nodule> {
    Seq::new(
        ids.len(),
        |k: int| Nodule { node_id: ids[k], branch_id: tree.branch_of(ids[k]), x: 0, y: k as u32 },
    )
}

/// Whether the branch of `x` ends at `x`: no child of `x` lies in its branch.
pub open spec fn ends_branch<P, S, I>(tree: Tree<P, S, I>, x: u128) -> bool {
    forall|k: int|
        0 <= k < tree.shape().children(x).len() ==> tree.branch_of(#[trigger] tree.shape().children(x)[k])
            != tree.branch_of(x)
}

/// The nodes of the tree at which their branch ends, breadth first from the
/// root.
pub open spec fn end_points<P, S, I>(tree: Tree<P, S, I>) -> Seq<u128> {
    (seq![tree.root()] + tree.downstream(tree.root())).filter(|x: u128| ends_branch(tree, x))
}

/// Whether the branch of `x` ends at `x`.
fn is_branch_end<P, S, I>(tree: &Tree<P, S, I>, x: u128) -> (ends: bool)
    requires
        tree.wf(),
        tree.has(x),
    ensures
        ends == ends_branch(*tree, x),
{
    let node = tree.get(x).unwrap();
    let own = node.get_branch_id();
    let children = node.get_children_ids();
    proof {
        tree.shape().lemma_has(x);
        assert(children@ == tree.shape().children(x));
    }
    let mut j: usize = 0;
    while j < children.len()
        invariant
            tree.wf(),
            tree.has(x),
            children@ == tree.shape().children(x),
            own == tree.branch_of(x),
            j <= children@.len(),
            forall|k: int| 0 <= k < j ==> tree.branch_of(#[trigger] children@[k]) != own,
        decreases children@.len() - j,
    {
        let c = children[j];
        proof {
            assert(children@.contains(children@[j as int]));
            assert(tree.shape().has(c));
        }
        if tree.get(c).unwrap().get_branch_id() == own {
            return false;
        }
        j = j + 1;
    }
    true
}

/// The node at which the branch of `x` ends, following from `x` the children
/// that lie in the branch of `x`.
pub open spec fn branch_end<P, S, I>(tree: Tree<P, S, I>, x: u128) -> u128
    decreases tree.nodes().len() - tree.shape().rank[x],
    when tree.wf() && tree.has(x)
{
    if ends_branch(tree, x) {
        x
    } else {
        let k = choose|k: int|
            0 <= k < tree.shape().children(x).len() && tree.branch_of(#[trigger] tree.shape().children(x)[k])
                == tree.branch_of(x);
        let c = tree.shape().children(x)[k];
        proof {
            assert(tree.shape().children(x).contains(c));
            assert(tree.shape().has(c));
            assert(tree.shape().links.len() == tree.nodes().len());
        }
        branch_end(tree, c)
    }
}

/// Every node on the way up from a node of `climb(tree, y, b)` lies in it too.
proof fn lemma_climb_suffix<P, S, I>(tree: Tree<P, S, I>, y: u128, b: u128, c: u128, z: u128)
    requires
        tree.wf(),
        climb(tree, y, b).contains(c),
        climb(tree, c, b).contains(z),
    ensures
        climb(tree, y, b).contains(z),
    decreases tree.shape().rank[y],
{
    let s = tree.shape();
    if c != y {
        assert(s.has(y) && y != tree.root() && tree.branch_of(y) == b);
        let rest = climb(tree, s.parent(y), b);
        assert(climb(tree, y, b) == seq![y] + rest);
        lemma_concat_contains(seq![y], rest, c);
        assert(s.has(s.parent(y)));
        lemma_climb_suffix(tree, s.parent(y), b, c, z);
        lemma_concat_contains(seq![y], rest, z);
    }
}

/// A climb stops where the climb from any of its nodes stops.
proof fn lemma_climb_stop_suffix<P, S, I>(tree: Tree<P, S, I>, y: u128, b: u128, c: u128)
    requires
        tree.wf(),
        climb(tree, y, b).contains(c),
    ensures
        climb_stop(tree, y, b) == climb_stop(tree, c, b),
    decreases tree.shape().rank[y],
{
    let s = tree.shape();
    if c != y {
        assert(s.has(y) && y != tree.root() && tree.branch_of(y) == b);
        let rest = climb(tree, s.parent(y), b);
        assert(climb(tree, y, b) == seq![y] + rest);
        lemma_concat_contains(seq![y], rest, c);
        assert(s.has(s.parent(y)));
        lemma_climb_stop_suffix(tree, s.parent(y), b, c);
    }
}

/// A node other than the root has the root among its ancestors.
proof fn lemma_upstream_reaches_root<P, S, I>(tree: Tree<P, S, I>, x: u128)
    requires
        tree.wf(),
        tree.has(x),
        x != tree.root(),
    ensures
        tree.upstream(x).contains(tree.root()),
    decreases tree.shape().rank[x],
{
    let s = tree.shape();
    let p = s.parent(x);
    assert(s.upstream(x) == seq![p] + s.upstream(p));
    lemma_concat_contains(seq![p], s.upstream(p), tree.root());
    if p != tree.root() {
        lemma_upstream_reaches_root(tree, p);
    } else {
        assert(seq![p][0] == tree.root());
    }
}

/// The branch of `x` ends at a node `e` of its branch, at or below `x`, and
/// `x` is among the nodes of the branch map that starts at `e`.
proof fn lemma_branch_end<P, S, I>(tree: Tree<P, S, I>, x: u128)
    requires
        tree.wf(),
        tree.has(x),
    ensures
        tree.has(branch_end(tree, x)),
        ends_branch(tree, branch_end(tree, x)),
        tree.branch_of(branch_end(tree, x)) == tree.branch_of(x),
        x != tree.root() ==> branch_end(tree, x) != tree.root(),
        branch_ids_for(tree, branch_end(tree, x)).contains(x),
    decreases tree.nodes().len() - tree.shape().rank[x],
{
    let s = tree.shape();
    let e = branch_end(tree, x);
    let b = tree.branch_of(x);
    if ends_branch(tree, x) {
        assert(branch_ids_for(tree, e)[0] == x);
    } else {
        let k = choose|k: int|
            0 <= k < s.children(x).len() && tree.branch_of(#[trigger] s.children(x)[k]) == tree.branch_of(x);
        let c = s.children(x)[k];
        assert(s.children(x).contains(c));
        assert(s.has(c) && s.parent(c) == x && c != tree.root());
        assert(s.links.len() == tree.nodes().len());
        assert(e == branch_end(tree, c));
        lemma_branch_end(tree, c);
        let ids = seq![e] + climb(tree, s.parent(e), b);
        let up = climb(tree, s.parent(e), b);
        // `c` is in the map of `e`, and it is not the root
        if c == e {
            assert(s.parent(e) == x);
            if x == tree.root() {
                assert(branch_ids_for(tree, e) == ids.push(tree.root()));
                assert(ids.push(tree.root())[ids.len() as int] == x);
            } else {
                assert(up == seq![x] + climb(tree, s.parent(x), b));
                assert(up[0] == x);
                lemma_concat_contains(seq![e], up, x);
                lemma_push_contains_u128(ids, tree.root(), x);
            }
        } else {
            lemma_push_contains_u128(ids, tree.root(), c);
            lemma_concat_contains(seq![e], up, c);
            assert(up.contains(c));
            assert(climb(tree, c, b) == seq![c] + climb(tree, x, b));
            if x == tree.root() {
                lemma_climb_stop_suffix(tree, s.parent(e), b, c);
                assert(climb_stop(tree, c, b) == climb_stop(tree, x, b));
                assert(branch_ids_for(tree, e) == ids.push(tree.root()));
                assert(ids.push(tree.root())[ids.len() as int] == x);
            } else {
                assert(climb(tree, x, b) == seq![x] + climb(tree, s.parent(x), b));
                assert(climb(tree, c, b)[1] == x);
                lemma_climb_suffix(tree, s.parent(e), b, c, x);
                lemma_concat_contains(seq![e], up, x);
                lemma_push_contains_u128(ids, tree.root(), x);
            }
        }
    }
}

/// Every node of a tree, the root included, lies in the branch map of some
/// end point: no node is left out of the branch maps.
pub proof fn law_every_node_lies_in_a_branch_map<P, S, I>(tree: Tree<P, S, I>, x: u128)
    requires
        tree.wf(),
        tree.has(x),
    ensures
        exists|k: int|
            0 <= k < end_points(tree).len() && branch_ids_for(tree, #[trigger] end_points(tree)[k]).contains(x),
{
    let e = branch_end(tree, x);
    lemma_branch_end(tree, x);
    let all = seq![tree.root()] + tree.downstream(tree.root());
    if e == tree.root() {
        assert(all[0] == e);
    } else {
        lemma_upstream_reaches_root(tree, e);
        assert(tree.has(tree.root()));
        tree.shape().lemma_downstream_iff_upstream(tree.root(), e);
        let j = choose|j: int| 0 <= j < tree.downstream(tree.root()).len() && tree.downstream(tree.root())[j] == e;
        assert(all[j + 1] == e);
    }
    let i = choose|i: int| 0 <= i < all.len() && all[i] == e;
    let pred = |y: u128| ends_branch(tree, y);
    all.lemma_filter_contains(pred, i);
    assert(end_points(tree) == all.filter(pred));
    let k = choose|k: int| 0 <= k < end_points(tree).len() && end_points(tree)[k] == e;
    assert(branch_ids_for(tree, end_points(tree)[k]).contains(x));
}

/// Whether every branch runs as one line: no node has two children in its
/// own branch.
pub open spec fn linear_branches<P, S, I>(tree: Tree<P, S, I>) -> bool {
    forall|x: u128, i: int, j: int|
        #![trigger tree.shape().children(x)[i], tree.shape().children(x)[j]]
        tree.has(x) && 0 <= i < tree.shape().children(x).len() && 0 <= j < tree.shape().children(x).len()
            && tree.branch_of(tree.shape().children(x)[i]) == tree.branch_of(x) && tree.branch_of(
            tree.shape().children(x)[j],
        ) == tree.branch_of(x) ==> i == j
}

/// Where a branch runs as one line, a node with a child `w` in its branch
/// ends its branch where `w` does.
proof fn lemma_same_branch_child<P, S, I>(tree: Tree<P, S, I>, z: u128, w: u128)
    requires
        tree.wf(),
        linear_branches(tree),
        tree.has(w),
        w != tree.root(),
        tree.shape().parent(w) == z,
        tree.branch_of(w) == tree.branch_of(z),
    ensures
        branch_end(tree, z) == branch_end(tree, w),
{
    let s = tree.shape();
    assert(s.has(z) && s.children(z).contains(w));
    let idx = choose|i: int| 0 <= i < s.children(z).len() && s.children(z)[i] == w;
    assert(!ends_branch(tree, z)) by {
        assert(tree.branch_of(s.children(z)[idx]) == tree.branch_of(z));
    }
    let k = choose|k: int|
        0 <= k < s.children(z).len() && tree.branch_of(#[trigger] s.children(z)[k]) == tree.branch_of(z);
    assert(k == idx);
    assert(branch_end(tree, z) == branch_end(tree, s.children(z)[k]));
}

/// Where branches run as lines, the nodes above `w` in its branch end their
/// branch where `w` does.
proof fn lemma_climb_ends<P, S, I>(tree: Tree<P, S, I>, w: u128, z: u128)
    requires
        tree.wf(),
        linear_branches(tree),
        tree.has(w),
        w != tree.root(),
        climb(tree, tree.shape().parent(w), tree.branch_of(w)).contains(z),
    ensures
        branch_end(tree, z) == branch_end(tree, w),
    decreases tree.shape().rank[w],
{
    let s = tree.shape();
    let p = s.parent(w);
    let b = tree.branch_of(w);
    assert(s.has(p) && p != tree.root() && tree.branch_of(p) == b);
    let rest = climb(tree, s.parent(p), b);
    assert(climb(tree, p, b) == seq![p] + rest);
    lemma_same_branch_child(tree, p, w);
    if z != p {
        lemma_concat_contains(seq![p], rest, z);
        lemma_climb_ends(tree, p, z);
    }
}

/// Where branches run as lines, a branch that runs unbroken from `w` up to
/// the root ends, from the root, where it ends from `w`.
proof fn lemma_climb_reaches_root<P, S, I>(tree: Tree<P, S, I>, w: u128)
    requires
        tree.wf(),
        linear_branches(tree),
        tree.has(w),
        w != tree.root(),
        tree.branch_of(w) == tree.branch_of(tree.root()),
        climb_stop(tree, tree.shape().parent(w), tree.branch_of(w)) == tree.root(),
    ensures
        branch_end(tree, tree.root()) == branch_end(tree, w),
    decreases tree.shape().rank[w],
{
    let s = tree.shape();
    let p = s.parent(w);
    let b = tree.branch_of(w);
    assert(s.has(p));
    if p == tree.root() {
        lemma_same_branch_child(tree, p, w);
    } else {
        assert(tree.branch_of(p) == b);
        assert(climb_stop(tree, p, b) == climb_stop(tree, s.parent(p), b));
        lemma_same_branch_child(tree, p, w);
        lemma_climb_reaches_root(tree, p);
    }
}

/// Where branches run as lines, a node lies only in the branch map of the
/// end point of its own branch.
proof fn lemma_member_ends_there<P, S, I>(tree: Tree<P, S, I>, e: u128, x: u128)
    requires
        tree.wf(),
        linear_branches(tree),
        tree.has(e),
        ends_branch(tree, e),
        branch_ids_for(tree, e).contains(x),
    ensures
        branch_end(tree, x) == e,
{
    let s = tree.shape();
    let b = tree.branch_of(e);
    let ids = seq![e] + climb(tree, s.parent(e), b);
    assert(branch_end(tree, e) == e);
    if x != e {
        if ids.contains(x) {
            lemma_concat_contains(seq![e], climb(tree, s.parent(e), b), x);
            assert(e != tree.root()) by {
                if e == tree.root() {
                    assert(climb(tree, s.parent(e), b) == Seq::<u128>::empty());
                }
            }
            lemma_climb_ends(tree, e, x);
        } else {
            lemma_push_contains_u128(ids, tree.root(), x);
            assert(reaches_root(tree, e));
            assert(x == tree.root());
            lemma_climb_reaches_root(tree, e);
        }
    }
}

/// A sequence filtered keeps no duplicates.
proof fn lemma_filter_no_duplicates(s: Seq<u128>, pred: spec_fn(u128) -> bool)
    requires
        s.no_duplicates(),
    ensures
        s.filter(pred).no_duplicates(),
    decreases s.len(),
{
    reveal(Seq::filter);
    if s.len() > 0 {
        let rest = s.drop_last();
        let last = s.last();
        assert(rest.no_duplicates()) by {
            assert forall|i: int, j: int| 0 <= i < rest.len() && 0 <= j < rest.len() && i != j implies rest[i] != rest[j] by {
                assert(rest[i] == s[i] && rest[j] == s[j]);
            }
        }
        lemma_filter_no_duplicates(rest, pred);
        if pred(last) {
            assert forall|x: u128| rest.filter(pred).contains(x) implies !seq![last].contains(x) by {
                rest.lemma_filter_contains_rev(pred, x);
                let i = choose|i: int| 0 <= i < rest.len() && rest[i] == x;
                if x == last {
                    assert(s[i] == s[s.len() - 1]);
                }
            }
            crate::workspace::shape::lemma_concat_no_duplicates(rest.filter(pred), seq![last]);
            assert(s.filter(pred) == rest.filter(pred) + seq![last]);
        } else {
            assert(s.filter(pred) == rest.filter(pred));
        }
    }
}

/// The end points are nodes of the tree at which their branch ends, each
/// listed once.
proof fn lemma_end_points<P, S, I>(tree: Tree<P, S, I>)
    requires
        tree.wf(),
    ensures
        end_points(tree).no_duplicates(),
        forall|k: int|
            0 <= k < end_points(tree).len() ==> tree.has(#[trigger] end_points(tree)[k]) && ends_branch(
                tree,
                end_points(tree)[k],
            ),
{
    let s = tree.shape();
    let r = tree.root();
    let down = s.downstream(r);
    let all = seq![r] + down;
    let pred = |y: u128| ends_branch(tree, y);
    assert(s.has(r));
    s.lemma_downstream_no_duplicates(r);
    s.lemma_not_own_relative(r);
    s.lemma_downstream_members(r);
    assert forall|x: u128| seq![r].contains(x) implies !down.contains(x) by {
        assert(seq![r][0] == r);
    }
    crate::workspace::shape::lemma_concat_no_duplicates(seq![r], down);
    lemma_filter_no_duplicates(all, pred);
    assert(end_points(tree) == all.filter(pred));
    assert forall|k: int| 0 <= k < end_points(tree).len() implies tree.has(#[trigger] end_points(tree)[k])
        && ends_branch(tree, end_points(tree)[k]) by {
        let y = end_points(tree)[k];
        all.lemma_filter_pred(pred, k);
        all.lemma_filter_contains_rev(pred, y);
        lemma_concat_contains(seq![r], down, y);
        if down.contains(y) {
            let j = choose|j: int| 0 <= j < down.len() && down[j] == y;
            assert(s.has(down[j]));
        } else {
            assert(seq![r].contains(y));
            assert(seq![r][0] == r);
        }
    }
}

/// Where every branch runs as one line, no node lies in two branch maps:
/// two maps that hold the same node are the same map.
pub proof fn law_no_node_lies_in_two_branch_maps<P, S, I>(tree: Tree<P, S, I>, x: u128, k1: int, k2: int)
    requires
        tree.wf(),
        linear_branches(tree),
        tree.has(x),
        0 <= k1 < end_points(tree).len(),
        0 <= k2 < end_points(tree).len(),
        branch_ids_for(tree, end_points(tree)[k1]).contains(x),
        branch_ids_for(tree, end_points(tree)[k2]).contains(x),
    ensures
        k1 == k2,
{
    lemma_end_points(tree);
    lemma_member_ends_there(tree, end_points(tree)[k1], x);
    lemma_member_ends_there(tree, end_points(tree)[k2], x);
}

/// The nodes of a climb are distinct nodes other than the root, of rank at
/// most that of where it starts.
#[verifier::spinoff_prover]
#[verifier::rlimit(40)]
proof fn lemma_climb_distinct<P, S, I>(tree: Tree<P, S, I>, y: u128, b: u128)
    requires
        tree.wf(),
    ensures
        climb(tree, y, b).no_duplicates(),
        forall|k: int|
            0 <= k < climb(tree, y, b).len() ==> tree.has(#[trigger] climb(tree, y, b)[k]) && climb(
                tree,
                y,
                b,
            )[k] != tree.root() && tree.shape().rank[climb(tree, y, b)[k]] <= tree.shape().rank[y],
    decreases tree.shape().rank[y],
{
    let s = tree.shape();
    if s.has(y) && y != tree.root() && tree.branch_of(y) == b {
        let p = s.parent(y);
        let rest = climb(tree, p, b);
        assert(s.has(p));
        lemma_climb_distinct(tree, p, b);
        assert(climb(tree, y, b) == seq![y] + rest);
        assert forall|x: u128| seq![y].contains(x) implies !rest.contains(x) by {
            assert(seq![y][0] == y);
            if rest.contains(x) {
                let k = choose|k: int| 0 <= k < rest.len() && rest[k] == x;
                assert(s.rank[rest[k]] <= s.rank[p]);
            }
        }
        crate::workspace::shape::lemma_concat_no_duplicates(seq![y], rest);
        let c = climb(tree, y, b);
        assert forall|k: int| 0 <= k < c.len() implies tree.has(#[trigger] c[k]) && c[k] != tree.root()
            && s.rank[c[k]] <= s.rank[y] by {
            if k > 0 {
                assert(c[k] == rest[k - 1]);
                assert(tree.has(rest[k - 1]));
            }
        }
    }
}

/// A branch map holds each of its nodes once: the root, in particular, at
/// most once.
#[verifier::spinoff_prover]
#[verifier::rlimit(40)]
pub proof fn law_a_branch_map_holds_each_node_once<P, S, I>(tree: Tree<P, S, I>, e: u128)
    requires
        tree.wf(),
        tree.has(e),
    ensures
        branch_ids_for(tree, e).no_duplicates(),
{
    let s = tree.shape();
    let b = tree.branch_of(e);
    let up = climb(tree, s.parent(e), b);
    let ids = seq![e] + up;
    lemma_climb_distinct(tree, s.parent(e), b);
    if e == tree.root() {
        assert(up == Seq::<u128>::empty());
        assert(ids =~= seq![e]);
    } else {
        assert(s.has(s.parent(e)));
        assert forall|x: u128| seq![e].contains(x) implies !up.contains(x) by {
            assert(seq![e][0] == e);
            if up.contains(x) {
                let k = choose|k: int| 0 <= k < up.len() && up[k] == x;
                assert(s.rank[up[k]] <= s.rank[s.parent(e)]);
            }
        }
        crate::workspace::shape::lemma_concat_no_duplicates(seq![e], up);
        if reaches_root(tree, e) {
            assert forall|x: u128| ids.contains(x) implies !seq![tree.root()].contains(x) by {
                lemma_concat_contains(seq![e], up, x);
                if up.contains(x) {
                    let k = choose|k: int| 0 <= k < up.len() && up[k] == x;
                    assert(up[k] != tree.root());
                }
                if x == tree.root() {
                    assert(seq![e][0] == e);
                }
            }
            crate::workspace::shape::lemma_concat_no_duplicates(ids, seq![tree.root()]);
            assert(ids.push(tree.root()) == ids + seq![tree.root()]);
        }
    }
}

/// Nodes kept, in their places, by a change of the tree keep their branch.
proof fn lemma_branch_kept<P, S, I>(before: Tree<P, S, I>, after: Tree<P, S, I>, y: u128)
    requires
        before.wf(),
        after.wf(),
        before.has(y),
        after.nodes().len() >= before.nodes().len(),
        forall|k: int| 0 <= k < before.nodes().len() ==> (#[trigger] after.shape().links[k]).id == before.shape().links[k].id,
        forall|k: int|
            0 <= k < before.nodes().len() ==> #[trigger] after.nodes()[k].branch_id == before.nodes()[k].branch_id,
    ensures
        after.has(y),
        after.branch_of(y) == before.branch_of(y),
{
    let b = before.shape();
    let a = after.shape();
    b.lemma_has(y);
    let i = b.index_of(y);
    assert(a.links[i].id == y);
    a.lemma_index_of(i);
    assert(after.nodes()[i].branch_id == before.nodes()[i].branch_id);
}

/// Adding a node between the position and its children keeps every branch
/// running as one line.
pub proof fn law_adding_a_node_keeps_branches_lines<P, S, I: Develop<S> + Edit + Clone>(
    before: Tree<P, S, I>,
    after: Tree<P, S, I>,
    operation: Operation,
    x: u128,
)
    requires
        before.wf(),
        after.wf(),
        linear_branches(before),
        !before.has(x),
        before.node_added(&after, operation, x),
    ensures
        linear_branches(after),
{
    let s = before.shape();
    let p = before.pos();
    s.lemma_inserted_links(p, x);
    assert forall|k: int| 0 <= k < before.nodes().len() implies (#[trigger] after.shape().links[k]).id
        == before.shape().links[k].id by {
        assert(after.shape().links[k] == s.insert_below(p, x)(s.links[k]));
    }
    assert forall|y: u128| #[trigger] before.has(y) implies after.has(y) && after.branch_of(y) == before.branch_of(y) by {
        lemma_branch_kept(before, after, y);
    }
    let a = after.shape();
    assert forall|y: u128, i: int, j: int|
        #![trigger a.children(y)[i], a.children(y)[j]]
        after.has(y) && 0 <= i < a.children(y).len() && 0 <= j < a.children(y).len() && after.branch_of(
            a.children(y)[i],
        ) == after.branch_of(y) && after.branch_of(a.children(y)[j]) == after.branch_of(y) implies i == j by {
        if y == x {
            let ci = s.children(p)[i];
            let cj = s.children(p)[j];
            assert(s.children(p).contains(ci) && s.children(p).contains(cj));
            assert(before.has(ci) && before.has(cj));
            assert(before.branch_of(ci) == before.branch_of(p) && before.branch_of(cj) == before.branch_of(p));
        } else if y != p {
            assert(before.has(y));
            let ci = s.children(y)[i];
            let cj = s.children(y)[j];
            assert(s.children(y).contains(ci) && s.children(y).contains(cj));
            assert(before.has(ci) && before.has(cj));
        }
    }
}

/// Adding a node as the last child of the position keeps every branch
/// running as one line, when the node starts a branch of its own or the
/// position had no children.
pub proof fn law_adding_a_branch_keeps_branches_lines<P, S, I: Develop<S> + Edit + Clone>(
    before: Tree<P, S, I>,
    after: Tree<P, S, I>,
    operation: Operation,
    x: u128,
    b: u128,
)
    requires
        before.wf(),
        after.wf(),
        linear_branches(before),
        !before.has(x),
        before.branch_added(&after, operation, x, b),
        before.opens_branch() ==> b != before.branch_of(before.pos()),
    ensures
        linear_branches(after),
{
    let s = before.shape();
    let p = before.pos();
    s.lemma_branched(p, x);
    assert forall|k: int| 0 <= k < before.nodes().len() implies (#[trigger] after.shape().links[k]).id
        == before.shape().links[k].id by {
        assert(after.shape().links[k] == Shape::add_child_of(p, x)(s.links[k]));
    }
    assert forall|y: u128| #[trigger] before.has(y) implies after.has(y) && after.branch_of(y) == before.branch_of(y) by {
        lemma_branch_kept(before, after, y);
    }
    let a = after.shape();
    assert forall|y: u128, i: int, j: int|
        #![trigger a.children(y)[i], a.children(y)[j]]
        after.has(y) && 0 <= i < a.children(y).len() && 0 <= j < a.children(y).len() && after.branch_of(
            a.children(y)[i],
        ) == after.branch_of(y) && after.branch_of(a.children(y)[j]) == after.branch_of(y) implies i == j by {
        if y != x {
            assert(before.has(y));
            let n = s.children(y).len();
            if y == p {
                assert(a.children(p) == s.children(p).push(x));
                assert(after.branch_of(x) == b);
                assert(after.branch_of(p) == before.branch_of(p));
                if i < n {
                    let ci = s.children(p)[i];
                    assert(a.children(p)[i] == ci);
                    assert(s.children(p).contains(ci));
                    assert(before.has(ci));
                    assert(after.branch_of(ci) == before.branch_of(ci));
                }
                if j < n {
                    let cj = s.children(p)[j];
                    assert(a.children(p)[j] == cj);
                    assert(s.children(p).contains(cj));
                    assert(before.has(cj));
                    assert(after.branch_of(cj) == before.branch_of(cj));
                }
                if i < n && j < n {
                    assert(before.branch_of(s.children(p)[i]) == before.branch_of(p));
                    assert(before.branch_of(s.children(p)[j]) == before.branch_of(p));
                } else if i == n && j < n {
                    assert(a.children(p)[i] == x);
                    assert(before.opens_branch());
                } else if j == n && i < n {
                    assert(a.children(p)[j] == x);
                    assert(before.opens_branch());
                }
            } else {
                let ci = s.children(y)[i];
                let cj = s.children(y)[j];
                assert(s.children(y).contains(ci) && s.children(y).contains(cj));
                assert(before.has(ci) && before.has(cj));
            }
        }
    }
}

/// Where branches run as lines, two children of `y` in its branch are one.
proof fn lemma_one_child_in_branch<P, S, I>(tree: Tree<P, S, I>, y: u128, c1: u128, c2: u128)
    requires
        linear_branches(tree),
        tree.has(y),
        tree.shape().children(y).contains(c1),
        tree.shape().children(y).contains(c2),
        tree.branch_of(c1) == tree.branch_of(y),
        tree.branch_of(c2) == tree.branch_of(y),
    ensures
        c1 == c2,
{
    let ch = tree.shape().children(y);
    let i = choose|i: int| 0 <= i < ch.len() && ch[i] == c1;
    let j = choose|j: int| 0 <= j < ch.len() && ch[j] == c2;
    assert(tree.branch_of(ch[i]) == tree.branch_of(y) && tree.branch_of(ch[j]) == tree.branch_of(y));
}

/// Taking a node out keeps the branch of every other node.
#[verifier::spinoff_prover]
#[verifier::rlimit(40)]
proof fn lemma_branch_kept_on_removal<P, S, I>(before: Tree<P, S, I>, after: Tree<P, S, I>, r: u128, y: u128)
    requires
        before.wf(),
        after.wf(),
        before.has(r),
        r != before.root(),
        before.has(y),
        y != r,
        after.shape() == before.shape().removed(r),
        after.nodes().len() + 1 == before.nodes().len(),
        forall|k: int|
            0 <= k < after.nodes().len() ==> #[trigger] after.nodes()[k].branch_id == before.nodes().remove(
                before.shape().index_of(r),
            )[k].branch_id,
    ensures
        after.has(y),
        after.branch_of(y) == before.branch_of(y),
{
    let b = before.shape();
    let a = after.shape();
    b.lemma_removed_basics(r);
    b.lemma_has(r);
    b.lemma_has(y);
    let ir = b.index_of(r);
    let iy = b.index_of(y);
    assert(iy != ir);
    let k = if iy < ir { iy } else { iy - 1 };
    reveal(Shape::removed);
    assert(b.links.remove(ir)[k] == b.links[iy]);
    assert(a.links[k] == b.lift_children(r)(b.links.remove(ir)[k]));
    assert(a.links[k].id == y);
    a.lemma_index_of(k);
    assert(before.nodes().remove(ir)[k] == before.nodes()[iy]);
}

/// Taking out a node keeps every branch running as one line, when the node
/// lies in the branch of its parent or none of its children does.
#[verifier::spinoff_prover]
#[verifier::rlimit(60)]
pub proof fn law_removing_a_node_keeps_branches_lines<P, S, I>(before: Tree<P, S, I>, after: Tree<P, S, I>, r: u128)
    requires
        before.wf(),
        after.wf(),
        linear_branches(before),
        before.has(r),
        r != before.root(),
        after.shape() == before.shape().removed(r),
        after.nodes().len() + 1 == before.nodes().len(),
        forall|k: int|
            0 <= k < after.nodes().len() ==> #[trigger] after.nodes()[k].branch_id == before.nodes().remove(
                before.shape().index_of(r),
            )[k].branch_id,
        before.branch_of(r) == before.branch_of(before.shape().parent(r)) || forall|k: int|
            0 <= k < before.shape().children(r).len() ==> before.branch_of(#[trigger] before.shape().children(r)[k])
                != before.branch_of(before.shape().parent(r)),
    ensures
        linear_branches(after),
{
    let s = before.shape();
    let a = after.shape();
    let q = s.parent(r);
    s.lemma_removed_basics(r);
    s.lemma_removed_links(r);
    assert forall|y: u128| #[trigger] before.has(y) && y != r implies after.has(y) && after.branch_of(y) == before.branch_of(y) by {
        lemma_branch_kept_on_removal(before, after, r, y);
    }
    assert forall|y: u128, i: int, j: int|
        #![trigger a.children(y)[i], a.children(y)[j]]
        after.has(y) && 0 <= i < a.children(y).len() && 0 <= j < a.children(y).len() && after.branch_of(
            a.children(y)[i],
        ) == after.branch_of(y) && after.branch_of(a.children(y)[j]) == after.branch_of(y) implies i == j by {
        assert(before.has(y) && y != r);
        let ci = a.children(y)[i];
        let cj = a.children(y)[j];
        if y != q {
            assert(a.children(y) == s.children(y));
            assert(s.children(y).contains(ci) && s.children(y).contains(cj));
            assert(before.has(ci) && before.has(cj));
            assert(ci != r && cj != r);
        } else {
            let joined = s.children(q) + s.children(r);
            let pred = differs_from(r);
            assert(a.children(q) == joined.filter(pred));
            assert forall|c: u128| s.children(q).contains(c) implies !s.children(r).contains(c) by {
                if s.children(r).contains(c) {
                    assert(s.parent(c) == q && s.parent(c) == r);
                }
            }
            crate::workspace::shape::lemma_concat_no_duplicates(s.children(q), s.children(r));
            lemma_filter_no_duplicates(joined, pred);
            assert(ci != cj || i == j);
            if i != j {
                assert(a.children(q).contains(ci) && a.children(q).contains(cj));
                joined.lemma_filter_contains_rev(pred, ci);
                joined.lemma_filter_contains_rev(pred, cj);
                joined.lemma_filter_pred(pred, i);
                joined.lemma_filter_pred(pred, j);
                lemma_concat_contains(s.children(q), s.children(r), ci);
                lemma_concat_contains(s.children(q), s.children(r), cj);
                assert(ci != r && cj != r);
                assert(before.has(ci) && before.has(cj));
                assert(before.branch_of(ci) == before.branch_of(q) && before.branch_of(cj) == before.branch_of(q));
                assert(s.children(q).contains(r));
                if s.children(q).contains(ci) && s.children(q).contains(cj) {
                    lemma_one_child_in_branch(before, q, ci, cj);
                } else if s.children(r).contains(ci) && s.children(r).contains(cj) {
                    if before.branch_of(r) == before.branch_of(q) {
                        lemma_one_child_in_branch(before, r, ci, cj);
                    } else {
                        let k = choose|k: int| 0 <= k < s.children(r).len() && s.children(r)[k] == ci;
                        assert(before.branch_of(s.children(r)[k]) != before.branch_of(q));
                    }
                } else {
                    let (cq, cr) = if s.children(q).contains(ci) { (ci, cj) } else { (cj, ci) };
                    assert(s.children(q).contains(cq) && s.children(r).contains(cr));
                    if before.branch_of(r) == before.branch_of(q) {
                        lemma_one_child_in_branch(before, q, cq, r);
                    } else {
                        let k = choose|k: int| 0 <= k < s.children(r).len() && s.children(r)[k] == cr;
                        assert(before.branch_of(s.children(r)[k]) != before.branch_of(q));
                    }
                }
            }
        }
    }
}

/// Whether an end node lies in the branch of the root.
pub open spec fn root_branch_ends<P, S, I>(tree: Tree<P, S, I>) -> bool {
    exists|k: int|
        0 <= k < end_points(tree).len() && tree.branch_of(#[trigger] end_points(tree)[k]) == tree.branch_of(
            tree.root(),
        )
}

/// The branch of the root ends somewhere: among the end points there is one
/// in the branch of the root, so the branch maps can always be built.
pub proof fn law_the_root_branch_ends<P, S, I>(tree: Tree<P, S, I>)
    requires
        tree.wf(),
    ensures
        root_branch_ends(tree),
{
    let r = tree.root();
    assert(tree.shape().has(r));
    law_every_node_lies_in_a_branch_map(tree, r);
    lemma_branch_end(tree, r);
    let k = choose|k: int|
        0 <= k < end_points(tree).len() && branch_ids_for(tree, #[trigger] end_points(tree)[k]).contains(r);
    lemma_end_points(tree);
    lemma_member_ends_in_branch(tree, end_points(tree)[k], r);
}

/// A node in the branch map that starts at `e` lies in the branch of `e`.
proof fn lemma_member_ends_in_branch<P, S, I>(tree: Tree<P, S, I>, e: u128, x: u128)
    requires
        tree.wf(),
        tree.has(e),
        branch_ids_for(tree, e).contains(x),
    ensures
        tree.branch_of(x) == tree.branch_of(e),
{
    let s = tree.shape();
    let b = tree.branch_of(e);
    let up = climb(tree, s.parent(e), b);
    let ids = seq![e] + up;
    lemma_push_contains_u128(ids, tree.root(), x);
    lemma_concat_contains(seq![e], up, x);
    if up.contains(x) {
        lemma_climb_in_branch(tree, s.parent(e), b, x);
    }
}

/// The nodes of `climb(tree, y, b)` lie in branch `b`.
proof fn lemma_climb_in_branch<P, S, I>(tree: Tree<P, S, I>, y: u128, b: u128, x: u128)
    requires
        tree.wf(),
        climb(tree, y, b).contains(x),
    ensures
        tree.branch_of(x) == b,
    decreases tree.shape().rank[y],
{
    let s = tree.shape();
    assert(s.has(y) && y != tree.root() && tree.branch_of(y) == b);
    if x != y {
        let rest = climb(tree, s.parent(y), b);
        assert(climb(tree, y, b) == seq![y] + rest);
        lemma_concat_contains(seq![y], rest, x);
        assert(s.has(s.parent(y)));
        lemma_climb_in_branch(tree, s.parent(y), b, x);
    }
}

impl BranchMap {
    /// Builds a `BranchMap` for each node at which its branch ends, breadth
    /// first from the root: the node, the nodes above it in its branch, and
    /// the root when the branch runs up to it. Every node lies in one of the
    /// maps, no map holds a node twice, and where every branch runs as one
    /// line no node lies in two maps (see the laws below). A well-formed tree
    /// always has a map in the branch of its root, so this does not fail.
    #[verifier::spinoff_prover]
    #[verifier::rlimit(80)]
    pub fn build_branch_maps<P, S, I>(tree: &Tree<P, S, I>) -> (result: Result<Vec<BranchMap>, MapError>)
        requires
            tree.wf(),
            tree.nodes().len() < u32::MAX - 1,
        ensures
            result is Ok,
            result is Ok ==> {
                let maps = result.unwrap()@;
                &&& maps.len() == end_points(*tree).len()
                &&& forall|k: int|
                    0 <= k < maps.len() ==> (#[trigger] maps[k]).nodules() == nodules_for(
                        *tree,
                        branch_ids_for(*tree, end_points(*tree)[k]),
                    ) && maps[k].next() == 0
            },
    {
        let root = tree.get_root();
        let root_id = root.get_id();
        let root_branch = root.get_branch_id();
        let below = match tree.get_all_downstream_nodes(root_id) {
            Ok(below) => below,
            Err(e) => {
                return Err(MapError::Tree(e));
            },
        };
        let mut candidates: Vec<u128> = Vec::new();
        candidates.push(root_id);
        let mut rest = below;
        candidates.append(&mut rest);
        let ghost pred = |x: u128| ends_branch(*tree, x);
        proof {
            tree.shape().lemma_downstream_members(root_id);
            tree.shape().lemma_has(root_id);
            assert(candidates@ =~= seq![root_id] + tree.downstream(root_id));
            assert forall|j: int| 0 <= j < candidates@.len() implies tree.has(#[trigger] candidates@[j]) by {
                if j > 0 {
                    assert(candidates@[j] == tree.downstream(root_id)[j - 1]);
                }
            }
        }
        // the nodes at which a branch ends
        let mut ends: Vec<u128> = Vec::new();
        let mut c: usize = 0;
        while c < candidates.len()
            invariant
                tree.wf(),
                root_id == tree.root(),
                candidates@ == seq![root_id] + tree.downstream(root_id),
                forall|j: int| 0 <= j < candidates@.len() ==> tree.has(#[trigger] candidates@[j]),
                pred == (|x: u128| ends_branch(*tree, x)),
                c <= candidates@.len(),
                ends@ == candidates@.take(c as int).filter(pred),
                forall|j: int| 0 <= j < ends@.len() ==> tree.has(#[trigger] ends@[j]),
            decreases candidates@.len() - c,
        {
            let x = candidates[c];
            proof {
                reveal(Seq::filter);
                assert(candidates@.take(c + 1).drop_last() =~= candidates@.take(c as int));
                assert(tree.has(candidates@[c as int]));
            }
            if is_branch_end(tree, x) {
                ends.push(x);
            }
            c = c + 1;
        }
        proof {
            assert(candidates@.take(c as int) =~= candidates@);
        }
        let mut branch_maps: Vec<BranchMap> = Vec::new();
        let mut added_root = false;
        let mut k: usize = 0;
        while k < ends.len()
            invariant
                tree.wf(),
                tree.nodes().len() < u32::MAX - 1,
                root_id == tree.root(),
                root@ == tree.node(root_id),
                root_branch == tree.branch_of(root_id),
                ends@ == end_points(*tree),
                forall|j: int| 0 <= j < ends@.len() ==> tree.has(#[trigger] ends@[j]),
                k <= ends@.len(),
                branch_maps@.len() == k,
                added_root == exists|j: int| 0 <= j < k && tree.branch_of(#[trigger] ends@[j]) == root_branch,
                forall|j: int|
                    0 <= j < k ==> (#[trigger] branch_maps@[j]).nodules() == nodules_for(
                        *tree,
                        branch_ids_for(*tree, ends@[j]),
                    ) && branch_maps@[j].next() == 0,
            decreases ends@.len() - k,
        {
            let e = ends[k];
            proof {
                assert(tree.has(ends@[k as int]));
            }
            let branch_map = BranchMap::climb_branch(tree, e, root);
            if tree.get(e).unwrap().get_branch_id() == root_branch {
                added_root = true;
            }
            proof {
                assert forall|j: int| 0 <= j < k + 1 && tree.branch_of(#[trigger] ends@[j]) == root_branch implies j < k
                    || tree.branch_of(ends@[k as int]) == root_branch by {}
            }
            branch_maps.push(branch_map);
            k = k + 1;
        }
        if !added_root {
            proof {
                law_the_root_branch_ends(*tree);
            }
            return Err(MapError::NoRootBranch);
        }
        Ok(branch_maps)
    }

    /// The branch map that starts at the end node `e`: `e` and the nodes
    /// above it in its branch, and the root when the branch reaches it.
    #[verifier::spinoff_prover]
    #[verifier::rlimit(80)]
    fn climb_branch<P, S, I>(tree: &Tree<P, S, I>, e: u128, root: &Node<I>) -> (branch_map: BranchMap)
        requires
            tree.wf(),
            tree.nodes().len() < u32::MAX - 1,
            tree.has(e),
            root@ == tree.node(tree.root()),
        ensures
            branch_map.nodules() == nodules_for(*tree, branch_ids_for(*tree, e)),
            branch_map.next() == 0,
    {
        let end = tree.get(e).unwrap();
        let end_branch = end.get_branch_id();
        let mut branch_map = BranchMap::new(end);
        let mut current_id = end.get_parent_id();
        proof {
            tree.shape().lemma_has(e);
            assert(tree.shape().has(current_id)) by {
                if e != tree.root() {
                    assert(tree.shape().has(e));
                }
            }
            lemma_climb_len(*tree, current_id, end_branch);
        }
        let mut current = tree.get(current_id).unwrap();
        let ghost whole = seq![e] + climb(*tree, current_id, end_branch);
        let ghost mut ids = seq![e];
        let ghost stop = climb_stop(*tree, current_id, end_branch);
        proof {
            assert(branch_map.nodules() =~= nodules_for(*tree, ids));
        }
        while !current.is_root() && current.get_branch_id() == end_branch
            invariant
                tree.wf(),
                tree.nodes().len() < u32::MAX - 1,
                tree.has(current_id),
                current@ == tree.node(current_id),
                end_branch == tree.branch_of(e),
                branch_map.next() == 0,
                ids.len() >= 1,
                branch_map.nodules() == nodules_for(*tree, ids),
                ids + climb(*tree, current_id, end_branch) == whole,
                whole.len() <= tree.nodes().len() + 1,
                climb_stop(*tree, current_id, end_branch) == stop,
            decreases tree.shape().rank[current_id],
        {
            proof {
                lemma_climb_step(*tree, ids, current_id, end_branch, whole);
                assert(branch_map.nodules().last() == nodules_for(*tree, ids)[ids.len() - 1]);
            }
            branch_map.add_node_upstream(current);
            proof {
                lemma_nodules_push(*tree, ids, current_id);
                ids = ids.push(current_id);
            }
            current_id = current.get_parent_id();
            current = tree.get(current_id).unwrap();
        }
        proof {
            tree.shape().lemma_has(current_id);
            assert(climb(*tree, current_id, end_branch) == Seq::<u128>::empty());
            assert(ids =~= whole);
            lemma_nodules_push(*tree, ids, tree.root());
            tree.shape().lemma_has(tree.root());
        }
        if current.is_root() && end_branch == root.get_branch_id() && e != root.get_id() {
            branch_map.add_node_upstream(root);
        }
        branch_map
    }
}

#[verifier::spinoff_prover]
#[verifier::rlimit(40)]
proof fn lemma_climb_step<P, S, I>(tree: Tree<P, S, I>, ids: Seq<u128>, x: u128, b: u128, whole: Seq<u128>)
    requires
        tree.wf(),
        tree.has(x),
        x != tree.root(),
        tree.branch_of(x) == b,
        ids + climb(tree, x, b) == whole,
        whole.len() <= tree.nodes().len() + 1,
        tree.nodes().len() < u32::MAX - 1,
    ensures
        ids.push(x) + climb(tree, tree.shape().parent(x), b) == whole,
        tree.has(tree.shape().parent(x)),
        tree.shape().rank[tree.shape().parent(x)] < tree.shape().rank[x],
        ids.len() + 1 < u32::MAX,
{
    assert(tree.shape().has(x));
    assert(climb(tree, x, b) == seq![x] + climb(tree, tree.shape().parent(x), b));
    assert(ids.push(x) + climb(tree, tree.shape().parent(x), b) =~= ids + climb(tree, x, b));
}

proof fn lemma_nodules_push<P, S, I>(tree: Tree<P, S, I>, ids: Seq<u128>, x: u128)
    requires
        ids.len() + 1 < u32::MAX,
    ensures
        nodules_for(tree, ids).len() == ids.len(),
        ids.len() > 0 ==> nodules_for(tree, ids)[ids.len() - 1].y == (ids.len() - 1) as u32,
        nodules_for(tree, ids).push(
            Nodule { node_id: x, branch_id: tree.branch_of(x), x: 0, y: ids.len() as u32 },
        ) == nodules_for(tree, ids.push(x)),
{
    assert(nodules_for(tree, ids).push(
        Nodule { node_id: x, branch_id: tree.branch_of(x), x: 0, y: ids.len() as u32 },
    ) =~= nodules_for(tree, ids.push(x)));
}

/// A climb from `x` holds at most one node per rank up to that of `x`.
pub proof fn lemma_climb_len<P, S, I>(tree: Tree<P, S, I>, x: u128, b: u128)
    requires
        tree.wf(),
        tree.has(x),
    ensures
        climb(tree, x, b).len() <= tree.shape().rank[x] + 1,
        climb(tree, x, b).len() <= tree.nodes().len(),
    decreases tree.shape().rank[x],
{
    if x != tree.root() && tree.branch_of(x) == b {
        let p = tree.shape().parent(x);
        assert(tree.shape().has(x));
        lemma_climb_len(tree, p, b);
    }
}


/// What a `BranchMap` holds, as mathematical values.
pub struct BranchMapView {
    pub nodules: Seq<Nodule>,
    pub next: nat,
}

impl BranchMap {
    pub open spec fn bview(&self) -> BranchMapView {
        BranchMapView { nodules: self.nodules(), next: self.next() }
    }

    /// Whether every nodule stays within 32 bits once moved by the offsets.
    pub open spec fn offset_fits(nodules: Seq<Nodule>, offset_x: u32, offset_y: u32) -> bool {
        forall|k: int|
            0 <= k < nodules.len() ==> (#[trigger] nodules[k]).x + offset_x <= u32::MAX && nodules[k].y
                + offset_y <= u32::MAX
    }

    /// The nodules moved by the offsets.
    pub open spec fn offset_nodules(nodules: Seq<Nodule>, offset_x: u32, offset_y: u32) -> Seq<Nodule> {
        Seq::new(
            nodules.len(),
            |k: int|
                Nodule {
                    x: (nodules[k].x + offset_x) as u32,
                    y: (nodules[k].y + offset_y) as u32,
                    ..nodules[k]
                },
        )
    }

    /// Whether every nodule can be moved by the offsets.
    pub fn offset_fits_all(&self, offset_x: u32, offset_y: u32) -> (fits: bool)
        ensures
            fits == BranchMap::offset_fits(self.nodules(), offset_x, offset_y),
    {
        let mut i: usize = 0;
        while i < self.nodules.len()
            invariant
                i <= self.nodules@.len(),
                forall|k: int|
                    0 <= k < i ==> (#[trigger] self.nodules@[k]).x + offset_x <= u32::MAX && self.nodules@[k].y
                        + offset_y <= u32::MAX,
            decreases self.nodules@.len() - i,
        {
            let nodule = self.nodules[i];
            if nodule.x > u32::MAX - offset_x || nodule.y > u32::MAX - offset_y {
                return false;
            }
            i = i + 1;
        }
        true
    }

    /// Moves every nodule by the offsets.
    pub fn add_offset_to_all(&mut self, offset_x: u32, offset_y: u32)
        requires
            BranchMap::offset_fits(old(self).nodules(), offset_x, offset_y),
        ensures
            final(self).nodules() == BranchMap::offset_nodules(old(self).nodules(), offset_x, offset_y),
            final(self).next() == old(self).next(),
    {
        let ghost before = self.nodules@;
        let mut i: usize = 0;
        while i < self.nodules.len()
            invariant
                i <= self.nodules@.len(),
                self.nodules@.len() == before.len(),
                self.next_nodule == old(self).next_nodule,
                before == old(self).nodules(),
                BranchMap::offset_fits(before, offset_x, offset_y),
                forall|k: int|
                    0 <= k < before.len() ==> #[trigger] self.nodules@[k] == if k < i {
                        BranchMap::offset_nodules(before, offset_x, offset_y)[k]
                    } else {
                        before[k]
                    },
            decreases self.nodules@.len() - i,
        {
            let mut nodule = self.nodules[i];
            assert(nodule == before[i as int]);
            nodule.add_position_offset(offset_x, offset_y);
            self.nodules.set(i, nodule);
            i = i + 1;
        }
        assert(self.nodules@ =~= BranchMap::offset_nodules(before, offset_x, offset_y));
    }
}

/// How many nodules a branch map has left to hand out.
pub open spec fn left_in(map: BranchMapView) -> nat {
    if map.next < map.nodules.len() {
        (map.nodules.len() - map.next) as nat
    } else {
        0
    }
}

/// How many nodules all the branch maps have left to hand out.
pub open spec fn remaining(maps: Seq<BranchMapView>) -> nat
    decreases maps.len(),
{
    if maps.len() == 0 {
        0
    } else {
        remaining(maps.drop_last()) + left_in(maps.last())
    }
}

pub proof fn lemma_remaining_update(maps: Seq<BranchMapView>, j: int, map: BranchMapView)
    requires
        0 <= j < maps.len(),
    ensures
        remaining(maps.update(j, map)) + left_in(maps[j]) == remaining(maps) + left_in(map),
    decreases maps.len(),
{
    let u = maps.update(j, map);
    if j == maps.len() - 1 {
        assert(u.drop_last() =~= maps.drop_last());
    } else {
        lemma_remaining_update(maps.drop_last(), j, map);
        assert(u.drop_last() =~= maps.drop_last().update(j, map));
    }
}

/// The first branch map, from `from` on, whose first nodule lies in branch `b`.
pub open spec fn find_map(maps: Seq<BranchMapView>, b: u128, from: int) -> Option<int>
    decreases maps.len() - from,
{
    if from < 0 || from >= maps.len() {
        None
    } else if maps[from].nodules.len() > 0 && maps[from].nodules[0].branch_id == b {
        Some(from)
    } else {
        find_map(maps, b, from + 1)
    }
}

pub proof fn lemma_find_map(maps: Seq<BranchMapView>, b: u128, from: int)
    requires
        0 <= from,
    ensures
        find_map(maps, b, from) matches Some(j) ==> from <= j < maps.len() && maps[j].nodules.len() > 0
            && maps[j].nodules[0].branch_id == b,
        find_map(maps, b, from) is None ==> forall|k: int|
            from <= k < maps.len() ==> !(maps[k].nodules.len() > 0 && #[trigger] maps[k].nodules[0].branch_id == b),
    decreases maps.len() - from,
{
    if from < maps.len() {
        lemma_find_map(maps, b, from + 1);
    }
}

/// The state of the layout while branch maps are assembled into a map.
pub struct Assembly {
    pub maps: Seq<BranchMapView>,
    pub mapped: Seq<Nodule>,
    pub branch_x: u32,
    pub last_y: u32,
    pub stack: Seq<u128>,
    pub touched: Seq<u128>,
}

/// One step of the layout, when branches are left to explore: take the branch
/// on top of the stack; shift its branch map sideways (to a new column) and
/// down (below the last placed nodule) the first time it is met; then either
/// place its next nodule and push the branches that start below that nodule,
/// or, when the branch is exhausted, pop it.
pub open spec fn assemble_step<P, S, I>(tree: Tree<P, S, I>, st: Assembly) -> Result<Assembly, MapError> {
    let top = st.stack.last();
    match find_map(st.maps, top, 0) {
        None => Err(MapError::MissingBranchMap(top)),
        Some(j) => {
            let touching = !st.touched.contains(top);
            if touching && st.branch_x == u32::MAX {
                Err(MapError::Overflow)
            } else {
                let bx = if touching {
                    (st.branch_x + 1) as u32
                } else {
                    st.branch_x
                };
                if touching && !BranchMap::offset_fits(st.maps[j].nodules, bx, st.last_y) {
                    Err(MapError::Overflow)
                } else {
                    let m = if touching {
                        BranchMapView {
                            nodules: BranchMap::offset_nodules(st.maps[j].nodules, bx, st.last_y),
                            next: st.maps[j].next,
                        }
                    } else {
                        st.maps[j]
                    };
                    let touched = if touching {
                        st.touched.push(top)
                    } else {
                        st.touched
                    };
                    if m.next < m.nodules.len() {
                        let nodule = m.nodules[m.next as int];
                        if !tree.has(nodule.node_id) {
                            Err(MapError::Tree(TreeError::NodeNotFound(nodule.node_id)))
                        } else {
                            Ok(
                                Assembly {
                                    maps: st.maps.update(j, BranchMapView { next: m.next + 1, ..m }),
                                    mapped: st.mapped.push(nodule),
                                    branch_x: bx,
                                    last_y: nodule.y,
                                    stack: st.stack + tree.other_branches(nodule.node_id),
                                    touched,
                                },
                            )
                        }
                    } else {
                        Ok(
                            Assembly {
                                maps: st.maps.update(j, m),
                                mapped: st.mapped,
                                branch_x: bx,
                                last_y: st.last_y,
                                stack: st.stack.drop_last(),
                                touched,
                            },
                        )
                    }
                }
            }
        },
    }
}

pub proof fn lemma_assemble_step_decreases<P, S, I>(tree: Tree<P, S, I>, st: Assembly)
    requires
        st.stack.len() > 0,
    ensures
        assemble_step(tree, st) matches Ok(next) ==> remaining(next.maps) < remaining(st.maps) || (
        remaining(next.maps) == remaining(st.maps) && next.stack.len() < st.stack.len()),
{
    if let Some(j) = find_map(st.maps, st.stack.last(), 0) {
        lemma_find_map(st.maps, st.stack.last(), 0);
        let touching = !st.touched.contains(st.stack.last());
        let bx = if touching { (st.branch_x + 1) as u32 } else { st.branch_x };
        let m = if touching {
            BranchMapView { nodules: BranchMap::offset_nodules(st.maps[j].nodules, bx, st.last_y), next: st.maps[j].next }
        } else {
            st.maps[j]
        };
        assert(left_in(m) == left_in(st.maps[j]));
        if m.next < m.nodules.len() {
            lemma_remaining_update(st.maps, j, BranchMapView { next: m.next + 1, ..m });
        } else {
            lemma_remaining_update(st.maps, j, m);
        }
    }
}

/// The layout run to its end: the placed nodules, or why it failed.
pub open spec fn assemble_run<P, S, I>(tree: Tree<P, S, I>, st: Assembly) -> Result<Seq<Nodule>, MapError>
    decreases remaining(st.maps), st.stack.len(),
{
    if st.stack.len() == 0 {
        Ok(st.mapped)
    } else {
        match assemble_step(tree, st) {
            Err(e) => Err(e),
            Ok(next) => {
                proof {
                    lemma_assemble_step_decreases(tree, st);
                }
                assemble_run(tree, next)
            },
        }
    }
}

/// A step of the layout places only nodules of nodes of the tree.
proof fn lemma_assemble_step_places_nodes<P, S, I>(tree: Tree<P, S, I>, st: Assembly)
    requires
        st.stack.len() > 0,
        forall|k: int| 0 <= k < st.mapped.len() ==> tree.has(#[trigger] st.mapped[k].node_id),
    ensures
        assemble_step(tree, st) matches Ok(next) ==> forall|k: int|
            0 <= k < next.mapped.len() ==> tree.has(#[trigger] next.mapped[k].node_id),
{
}

/// The layout places only nodules of nodes of the tree.
proof fn lemma_assemble_run_places_nodes<P, S, I>(tree: Tree<P, S, I>, st: Assembly)
    requires
        forall|k: int| 0 <= k < st.mapped.len() ==> tree.has(#[trigger] st.mapped[k].node_id),
    ensures
        assemble_run(tree, st) matches Ok(nodules) ==> forall|k: int|
            0 <= k < nodules.len() ==> tree.has(#[trigger] nodules[k].node_id),
    decreases remaining(st.maps), st.stack.len(),
{
    if st.stack.len() > 0 {
        lemma_assemble_step_places_nodes(tree, st);
        if let Ok(next) = assemble_step(tree, st) {
            lemma_assemble_step_decreases(tree, st);
            lemma_assemble_run_places_nodes(tree, next);
        }
    }
}

/// The layout before its first step: the root branch alone on the stack.
pub open spec fn assemble_start<P, S, I>(tree: Tree<P, S, I>, maps: Seq<BranchMapView>) -> Assembly {
    Assembly {
        maps,
        mapped: Seq::empty(),
        branch_x: 0,
        last_y: 0,
        stack: seq![tree.branch_of(tree.root())],
        touched: seq![tree.branch_of(tree.root())],
    }
}

/// The branch maps as mathematical values.
pub open spec fn maps_view(maps: Seq<BranchMap>) -> Seq<BranchMapView> {
    maps.map_values(|m: BranchMap| m.bview())
}

/// The state of the layout, as mathematical values.
pub open spec fn assembly_of(
    maps: Seq<BranchMap>,
    mapped: Seq<Nodule>,
    branch_x: u32,
    last_y: u32,
    stack: Seq<u128>,
    touched: Seq<u128>,
) -> Assembly {
    Assembly { maps: maps_view(maps), mapped, branch_x, last_y, stack, touched }
}

/// Where the first branch map whose branch is `b` is.
fn find_branch_map(maps: &Vec<BranchMap>, b: u128) -> (index: Option<usize>)
    requires
        forall|k: int| 0 <= k < maps@.len() ==> (#[trigger] maps@[k]).nodules().len() > 0,
    ensures
        index matches Some(j) ==> find_map(maps_view(maps@), b, 0) == Some(j as int),
        index is None ==> find_map(maps_view(maps@), b, 0) is None,
{
    let ghost view = maps_view(maps@);
    let mut i: usize = 0;
    while i < maps.len()
        invariant
            i <= maps@.len(),
            view == maps_view(maps@),
            forall|k: int| 0 <= k < maps@.len() ==> (#[trigger] maps@[k]).nodules().len() > 0,
            find_map(view, b, 0) == find_map(view, b, i as int),
        decreases maps@.len() - i,
    {
        assert(view[i as int] == maps@[i as int].bview());
        if maps[i].get_branch_id() == b {
            return Some(i);
        }
        i = i + 1;
    }
    None
}

impl BranchMap {
    /// Assembles the branch maps into a collection of positioned `Nodule`s,
    /// starting from the branch of the root (see `assemble_step`).
    #[verifier::spinoff_prover]
    #[verifier::rlimit(60)]
    pub fn assemble_nodules<P, S, I>(tree: &Tree<P, S, I>, branch_maps: Vec<BranchMap>) -> (result: Result<
        Vec<Nodule>,
        MapError,
    >)
        requires
            tree.wf(),
            forall|k: int| 0 <= k < branch_maps@.len() ==> (#[trigger] branch_maps@[k]).nodules().len() > 0,
        ensures
            match result {
                Ok(nodules) => assemble_run(*tree, assemble_start(*tree, maps_view(branch_maps@))) == Ok::<
                    Seq<Nodule>,
                    MapError,
                >(nodules@),
                Err(e) => assemble_run(*tree, assemble_start(*tree, maps_view(branch_maps@))) == Err::<
                    Seq<Nodule>,
                    MapError,
                >(e),
            },
    {
        let mut maps = branch_maps;
        let mut mapped: Vec<Nodule> = Vec::new();
        let mut branch_x: u32 = 0;
        let mut last_y: u32 = 0;
        let root_branch = tree.get_root().get_branch_id();
        let mut stack: Vec<u128> = Vec::new();
        stack.push(root_branch);
        let mut touched: Vec<u128> = Vec::new();
        touched.push(root_branch);
        let ghost start = assemble_start(*tree, maps_view(maps@));
        proof {
            assert(assembly_of(maps@, mapped@, branch_x, last_y, stack@, touched@) =~= start);
        }
        while stack.len() > 0
            invariant
                tree.wf(),
                forall|k: int| 0 <= k < maps@.len() ==> (#[trigger] maps@[k]).nodules().len() > 0,
                start == assemble_start(*tree, maps_view(branch_maps@)),
                assemble_run(*tree, assembly_of(maps@, mapped@, branch_x, last_y, stack@, touched@))
                    == assemble_run(*tree, start),
            decreases remaining(maps_view(maps@)), stack@.len(),
        {
            let ghost st = assembly_of(maps@, mapped@, branch_x, last_y, stack@, touched@);
            proof {
                lemma_assemble_step_decreases(*tree, st);
            }
            let top = stack[stack.len() - 1];
            let found = find_branch_map(&maps, top);
            let j = match found {
                Some(j) => j,
                None => {
                    proof {
                        assert(st.stack.last() == top);
                        assert(assemble_step(*tree, st) == Err::<Assembly, MapError>(MapError::MissingBranchMap(top)));
                    }
                    return Err(MapError::MissingBranchMap(top));
                },
            };
            proof {
                lemma_find_map(maps_view(maps@), top, 0);
            }
            let touching = !vec_contains(&touched, top);
            if touching {
                if branch_x == u32::MAX {
                    proof {
                        assert(st.stack.last() == top);
                        assert(assemble_step(*tree, st) == Err::<Assembly, MapError>(MapError::Overflow));
                    }
                    return Err(MapError::Overflow);
                }
                branch_x = branch_x + 1;
                if !maps[j].offset_fits_all(branch_x, last_y) {
                    return Err(MapError::Overflow);
                }
                touched.push(top);
                maps[j].add_offset_to_all(branch_x, last_y);
            }
            let next = maps[j].get_next_nodule();
            match next {
                Some(nodule) => {
                    last_y = nodule.get_y();
                    let down = tree.get_other_downstream_branches(nodule.get_node_id());
                    let mut down = match down {
                        Ok(down) => down,
                        Err(e) => {
                            return Err(MapError::Tree(e));
                        },
                    };
                    stack.append(&mut down);
                    mapped.push(nodule);
                },
                None => {
                    stack.pop();
                },
            }
            proof {
                let now = assembly_of(maps@, mapped@, branch_x, last_y, stack@, touched@);
                assert(assemble_step(*tree, st) == Ok::<Assembly, MapError>(now)) by {
                    assert(maps_view(maps@) =~= assemble_step(*tree, st)->Ok_0.maps);
                }
            }
        }
        proof {
            assert(assemble_run(*tree, assembly_of(maps@, mapped@, branch_x, last_y, stack@, touched@)) == Ok::<
                Seq<Nodule>,
                MapError,
            >(mapped@));
        }
        Ok(mapped)
    }
}

/// How much space is around the `Nodule` tree in the `TreeMap`.
pub const MAP_PADDING: u32 = 16;

/// The branch maps that `build_branch_maps` makes from a tree, as
/// mathematical values.
pub open spec fn built_maps<P, S, I>(tree: Tree<P, S, I>) -> Seq<BranchMapView> {
    Seq::new(
        end_points(tree).len(),
        |k: int| BranchMapView { nodules: nodules_for(tree, branch_ids_for(tree, end_points(tree)[k])), next: 0 },
    )
}

/// The placed nodules of the map of a tree, or why there are none.
pub open spec fn layout<P, S, I>(tree: Tree<P, S, I>) -> Result<Seq<Nodule>, MapError> {
    if !root_branch_ends(tree) {
        Err(MapError::NoRootBranch)
    } else {
        assemble_run(tree, assemble_start(tree, built_maps(tree)))
    }
}

/// Every nodule of the map of a tree stands for a node of that tree.
pub proof fn law_the_map_shows_only_nodes_of_the_tree<P, S, I>(tree: Tree<P, S, I>)
    requires
        tree.wf(),
    ensures
        layout(tree) matches Ok(nodules) ==> forall|k: int|
            0 <= k < nodules.len() ==> tree.has(#[trigger] nodules[k].node_id),
{
    if root_branch_ends(tree) {
        lemma_assemble_run_places_nodes(tree, assemble_start(tree, built_maps(tree)));
    }
}

/// Whether the nodules stand in one column, one row apart, from the first
/// one down.
pub open spec fn is_column(nodules: Seq<Nodule>) -> bool {
    forall|i: int|
        0 <= i < nodules.len() ==> (#[trigger] nodules[i]).x == nodules[0].x && nodules[i].y == nodules[0].y + i
}

/// Whether no two of the nodules share a position.
pub open spec fn no_overlap(nodules: Seq<Nodule>) -> bool {
    forall|a: int, b: int|
        0 <= a < b < nodules.len() ==> (#[trigger] nodules[a]).x != (#[trigger] nodules[b]).x || nodules[a].y
            != nodules[b].y
}

/// Whether the layout has taken branch map `j` into use: it is the map of a
/// branch that the layout has met.
pub open spec fn uses(st: Assembly, j: int) -> bool {
    exists|t: int| 0 <= t < st.touched.len() && find_map(st.maps, #[trigger] st.touched[t], 0) == Some(j)
}

/// What holds of the layout along the way: each branch map is a column;
/// those not yet in use still stand at `x == 0`; those in use stand in
/// columns of their own, at most `branch_x`, below everything placed in
/// them; and the placed nodules stand at most at `branch_x`, apart.
pub open spec fn layout_inv(st: Assembly) -> bool {
    &&& forall|j: int| 0 <= j < st.maps.len() ==> is_column(#[trigger] st.maps[j].nodules)
    &&& forall|j: int|
        0 <= j < st.maps.len() && !#[trigger] uses(st, j) && st.maps[j].nodules.len() > 0 ==> st.maps[j].nodules[0].x
            == 0
    &&& forall|a: int| 0 <= a < st.mapped.len() ==> (#[trigger] st.mapped[a]).x <= st.branch_x
    &&& no_overlap(st.mapped)
    &&& forall|j: int|
        0 <= j < st.maps.len() && #[trigger] uses(st, j) ==> {
            &&& st.maps[j].nodules.len() > 0
            &&& st.maps[j].nodules[0].x <= st.branch_x
            &&& forall|a: int|
                0 <= a < st.mapped.len() && (#[trigger] st.mapped[a]).x == st.maps[j].nodules[0].x ==> st.mapped[a].y
                    < st.maps[j].nodules[0].y + st.maps[j].next
        }
    &&& forall|j: int, k: int|
        0 <= j < st.maps.len() && 0 <= k < st.maps.len() && #[trigger] uses(st, j) && #[trigger] uses(st, k) && j
            != k ==> st.maps[j].nodules[0].x != st.maps[k].nodules[0].x
}

/// Replacing a branch map by one of the same branch leaves where each branch
/// finds its map.
proof fn lemma_find_map_update(maps: Seq<BranchMapView>, j: int, m: BranchMapView, b: u128, from: int)
    requires
        0 <= j < maps.len(),
        maps[j].nodules.len() > 0,
        m.nodules.len() > 0,
        m.nodules[0].branch_id == maps[j].nodules[0].branch_id,
    ensures
        find_map(maps.update(j, m), b, from) == find_map(maps, b, from),
    decreases maps.len() - from,
{
    if 0 <= from < maps.len() {
        lemma_find_map_update(maps, j, m, b, from + 1);
    }
}

/// Where the maps keep their branches, the maps in use before a step stay in
/// use after it.
proof fn lemma_uses_kept(st: Assembly, next: Assembly, j: int)
    requires
        uses(st, j),
        next.touched.len() >= st.touched.len(),
        forall|t: int| 0 <= t < st.touched.len() ==> next.touched[t] == st.touched[t],
        forall|b: u128| find_map(next.maps, b, 0) == find_map(st.maps, b, 0),
    ensures
        uses(next, j),
{
    let t = choose|t: int| 0 <= t < st.touched.len() && find_map(st.maps, #[trigger] st.touched[t], 0) == Some(j);
    assert(next.touched[t] == st.touched[t]);
}

/// Where the maps keep their branches, the maps in use after a step were in
/// use before it, or belong to the branches it met.
proof fn lemma_uses_back(st: Assembly, next: Assembly, j: int)
    requires
        uses(next, j),
        forall|t: int| 0 <= t < st.touched.len() ==> next.touched[t] == st.touched[t],
        next.touched.len() == st.touched.len() || (next.touched.len() == st.touched.len() + 1 && find_map(
            next.maps,
            next.touched[st.touched.len() as int],
            0,
        ) != Some(j)),
        forall|b: u128| find_map(next.maps, b, 0) == find_map(st.maps, b, 0),
    ensures
        uses(st, j),
{
    let t = choose|t: int| 0 <= t < next.touched.len() && find_map(next.maps, #[trigger] next.touched[t], 0) == Some(j);
    assert(t < st.touched.len());
    assert(st.touched[t] == next.touched[t]);
}

/// A step on a branch already met keeps what holds of the layout.
#[verifier::spinoff_prover]
#[verifier::rlimit(80)]
proof fn lemma_visit_keeps_layout_inv<P, S, I>(tree: Tree<P, S, I>, st: Assembly, j: int)
    requires
        st.stack.len() > 0,
        layout_inv(st),
        find_map(st.maps, st.stack.last(), 0) == Some(j),
        st.touched.contains(st.stack.last()),
    ensures
        assemble_step(tree, st) matches Ok(next) ==> layout_inv(next),
{
    let top = st.stack.last();
    lemma_find_map(st.maps, top, 0);
    let t0 = choose|t: int| 0 <= t < st.touched.len() && st.touched[t] == top;
    assert(find_map(st.maps, st.touched[t0], 0) == Some(j));
    assert(uses(st, j));
    let m = st.maps[j];
    let c = m.nodules[0].x;
    if m.next < m.nodules.len() {
        let nodule = m.nodules[m.next as int];
        if tree.has(nodule.node_id) {
            let m2 = BranchMapView { next: m.next + 1, ..m };
            let next = Assembly {
                maps: st.maps.update(j, m2),
                mapped: st.mapped.push(nodule),
                branch_x: st.branch_x,
                last_y: nodule.y,
                stack: st.stack + tree.other_branches(nodule.node_id),
                touched: st.touched,
            };
            assert(assemble_step(tree, st) == Ok::<Assembly, MapError>(next));
            assert forall|b: u128| find_map(next.maps, b, 0) == find_map(st.maps, b, 0) by {
                lemma_find_map_update(st.maps, j, m2, b, 0);
            }
            assert forall|k: int| uses(next, k) <==> uses(st, k) by {
                if uses(st, k) {
                    lemma_uses_kept(st, next, k);
                }
                if uses(next, k) {
                    lemma_uses_back(st, next, k);
                }
            }
            assert(is_column(m.nodules));
            assert(nodule.x == c && nodule.y == m.nodules[0].y + m.next);
            assert forall|k: int| 0 <= k < next.maps.len() implies is_column(#[trigger] next.maps[k].nodules) by {
                assert(next.maps[k].nodules == st.maps[k].nodules);
            }
            assert forall|a: int| 0 <= a < next.mapped.len() implies (#[trigger] next.mapped[a]).x <= next.branch_x by {
                if a < st.mapped.len() {
                    assert(next.mapped[a] == st.mapped[a]);
                }
            }
            assert forall|a: int, b: int| 0 <= a < b < next.mapped.len() implies (#[trigger] next.mapped[a]).x
                != (#[trigger] next.mapped[b]).x || next.mapped[a].y != next.mapped[b].y by {
                assert(next.mapped[a] == st.mapped[a]);
                if b < st.mapped.len() {
                    assert(next.mapped[b] == st.mapped[b]);
                } else {
                    assert(next.mapped[b] == nodule);
                    if st.mapped[a].x == c {
                        assert(st.mapped[a].y < m.nodules[0].y + m.next);
                    }
                }
            }
            assert forall|k: int| 0 <= k < next.maps.len() && #[trigger] uses(next, k) implies {
                &&& next.maps[k].nodules.len() > 0
                &&& next.maps[k].nodules[0].x <= next.branch_x
                &&& forall|a: int|
                    0 <= a < next.mapped.len() && (#[trigger] next.mapped[a]).x == next.maps[k].nodules[0].x
                        ==> next.mapped[a].y < next.maps[k].nodules[0].y + next.maps[k].next
            } by {
                assert(uses(st, k));
                assert forall|a: int|
                    0 <= a < next.mapped.len() && (#[trigger] next.mapped[a]).x == next.maps[k].nodules[0].x
                        implies next.mapped[a].y < next.maps[k].nodules[0].y + next.maps[k].next by {
                    if a < st.mapped.len() {
                        assert(next.mapped[a] == st.mapped[a]);
                    } else if k != j {
                        assert(next.mapped[a] == nodule);
                        assert(st.maps[k].nodules[0].x != st.maps[j].nodules[0].x);
                    }
                }
            }
            assert forall|k: int|
                0 <= k < next.maps.len() && !#[trigger] uses(next, k) && next.maps[k].nodules.len() > 0 implies next.maps[k].nodules[0].x
                    == 0 by {
                assert(next.maps[k].nodules == st.maps[k].nodules);
            }
            assert forall|k1: int, k2: int|
                0 <= k1 < next.maps.len() && 0 <= k2 < next.maps.len() && #[trigger] uses(next, k1) && #[trigger] uses(
                    next,
                    k2,
                ) && k1 != k2 implies next.maps[k1].nodules[0].x != next.maps[k2].nodules[0].x by {
                assert(next.maps[k1].nodules == st.maps[k1].nodules);
                assert(next.maps[k2].nodules == st.maps[k2].nodules);
            }
        }
    } else {
        let next = Assembly {
            maps: st.maps.update(j, m),
            mapped: st.mapped,
            branch_x: st.branch_x,
            last_y: st.last_y,
            stack: st.stack.drop_last(),
            touched: st.touched,
        };
        assert(st.maps.update(j, m) =~= st.maps);
        assert(assemble_step(tree, st) == Ok::<Assembly, MapError>(next));
        assert forall|k: int| uses(next, k) <==> uses(st, k) by {
            if uses(st, k) {
                lemma_uses_kept(st, next, k);
            }
            if uses(next, k) {
                lemma_uses_back(st, next, k);
            }
        }
    }
}

/// A step on a branch met for the first time, which takes its map into use
/// in a new column, keeps what holds of the layout.
#[verifier::spinoff_prover]
#[verifier::rlimit(100)]
proof fn lemma_touch_keeps_layout_inv<P, S, I>(tree: Tree<P, S, I>, st: Assembly, j: int)
    requires
        st.stack.len() > 0,
        layout_inv(st),
        find_map(st.maps, st.stack.last(), 0) == Some(j),
        !st.touched.contains(st.stack.last()),
    ensures
        assemble_step(tree, st) matches Ok(next) ==> layout_inv(next),
{
    let top = st.stack.last();
    lemma_find_map(st.maps, top, 0);
    assert(!uses(st, j)) by {
        if uses(st, j) {
            let t = choose|t: int| 0 <= t < st.touched.len() && find_map(st.maps, #[trigger] st.touched[t], 0) == Some(j);
            lemma_find_map(st.maps, st.touched[t], 0);
            assert(st.touched[t] == top);
        }
    }
    if st.branch_x < u32::MAX {
        let bx = (st.branch_x + 1) as u32;
        let old = st.maps[j];
        if BranchMap::offset_fits(old.nodules, bx, st.last_y) {
            let m = BranchMapView { nodules: BranchMap::offset_nodules(old.nodules, bx, st.last_y), next: old.next };
            let touched = st.touched.push(top);
            assert(old.nodules[0].x == 0);
            assert(is_column(old.nodules));
            assert(is_column(m.nodules) && m.nodules[0].x == bx) by {
                assert forall|i: int| 0 <= i < m.nodules.len() implies (#[trigger] m.nodules[i]).x == m.nodules[0].x
                    && m.nodules[i].y == m.nodules[0].y + i by {
                    assert(old.nodules[i].x == old.nodules[0].x);
                    assert(old.nodules[i].y + st.last_y <= u32::MAX);
                    assert(old.nodules[0].y + st.last_y <= u32::MAX);
                }
            }
            if m.next < m.nodules.len() {
                let nodule = m.nodules[m.next as int];
                if tree.has(nodule.node_id) {
                    let m2 = BranchMapView { next: m.next + 1, ..m };
                    let next = Assembly {
                        maps: st.maps.update(j, m2),
                        mapped: st.mapped.push(nodule),
                        branch_x: bx,
                        last_y: nodule.y,
                        stack: st.stack + tree.other_branches(nodule.node_id),
                        touched,
                    };
                    assert(assemble_step(tree, st) == Ok::<Assembly, MapError>(next));
                    lemma_touch_inv_after(st, next, j, bx, true);
                }
            } else {
                let next = Assembly {
                    maps: st.maps.update(j, m),
                    mapped: st.mapped,
                    branch_x: bx,
                    last_y: st.last_y,
                    stack: st.stack.drop_last(),
                    touched,
                };
                assert(assemble_step(tree, st) == Ok::<Assembly, MapError>(next));
                lemma_touch_inv_after(st, next, j, bx, false);
            }
        }
    }
}

/// The state after taking map `j` into use in column `bx`, with or without
/// placing its next nodule, keeps what holds of the layout.
#[verifier::spinoff_prover]
#[verifier::rlimit(100)]
proof fn lemma_touch_inv_after(st: Assembly, next: Assembly, j: int, bx: u32, placed: bool)
    requires
        layout_inv(st),
        0 <= j < st.maps.len(),
        !uses(st, j),
        st.branch_x < bx,
        next.branch_x == bx,
        next.maps.len() == st.maps.len(),
        forall|k: int| 0 <= k < st.maps.len() && k != j ==> next.maps[k] == st.maps[k],
        next.maps[j].nodules.len() == st.maps[j].nodules.len(),
        st.maps[j].nodules.len() > 0,
        next.maps[j].nodules[0].branch_id == st.maps[j].nodules[0].branch_id,
        is_column(next.maps[j].nodules),
        next.maps[j].nodules[0].x == bx,
        next.touched == st.touched.push(st.stack.last()),
        find_map(st.maps, st.stack.last(), 0) == Some(j),
        placed ==> next.maps[j].next == st.maps[j].next + 1 && st.maps[j].next < st.maps[j].nodules.len()
            && next.mapped == st.mapped.push(next.maps[j].nodules[st.maps[j].next as int]),
        !placed ==> next.maps[j].next == st.maps[j].next && next.mapped == st.mapped,
    ensures
        layout_inv(next),
{
    let top = st.stack.last();
    assert(next.maps == st.maps.update(j, next.maps[j]));
    assert forall|b: u128| find_map(next.maps, b, 0) == find_map(st.maps, b, 0) by {
        lemma_find_map_update(st.maps, j, next.maps[j], b, 0);
    }
    assert(uses(next, j)) by {
        assert(next.touched[st.touched.len() as int] == top);
    }
    assert forall|k: int| k != j implies (uses(next, k) <==> uses(st, k)) by {
        if uses(st, k) {
            lemma_uses_kept(st, next, k);
        }
        if uses(next, k) {
            lemma_uses_back(st, next, k);
        }
    }
    let c = next.maps[j].nodules[0].x;
    assert forall|k: int| 0 <= k < next.maps.len() implies is_column(#[trigger] next.maps[k].nodules) by {
        if k != j {
            assert(next.maps[k] == st.maps[k]);
        }
    }
    assert forall|a: int| 0 <= a < next.mapped.len() implies (#[trigger] next.mapped[a]).x <= next.branch_x by {
        if a < st.mapped.len() {
            assert(next.mapped[a] == st.mapped[a]);
        }
    }
    assert forall|a: int, b: int| 0 <= a < b < next.mapped.len() implies (#[trigger] next.mapped[a]).x
        != (#[trigger] next.mapped[b]).x || next.mapped[a].y != next.mapped[b].y by {
        assert(next.mapped[a] == st.mapped[a]);
        if b < st.mapped.len() {
            assert(next.mapped[b] == st.mapped[b]);
        }
    }
    assert forall|k: int| 0 <= k < next.maps.len() && #[trigger] uses(next, k) implies {
        &&& next.maps[k].nodules.len() > 0
        &&& next.maps[k].nodules[0].x <= next.branch_x
        &&& forall|a: int|
            0 <= a < next.mapped.len() && (#[trigger] next.mapped[a]).x == next.maps[k].nodules[0].x ==> next.mapped[a].y
                < next.maps[k].nodules[0].y + next.maps[k].next
    } by {
        assert forall|a: int|
            0 <= a < next.mapped.len() && (#[trigger] next.mapped[a]).x == next.maps[k].nodules[0].x implies next.mapped[a].y
                < next.maps[k].nodules[0].y + next.maps[k].next by {
            if a < st.mapped.len() {
                assert(next.mapped[a] == st.mapped[a]);
                if k != j {
                    assert(uses(st, k));
                    assert(next.maps[k] == st.maps[k]);
                }
            } else {
                if k != j {
                    assert(uses(st, k));
                    assert(next.maps[k] == st.maps[k]);
                }
            }
        }
        if k != j {
            assert(uses(st, k));
            assert(next.maps[k] == st.maps[k]);
        }
    }
    assert forall|k: int|
        0 <= k < next.maps.len() && !#[trigger] uses(next, k) && next.maps[k].nodules.len() > 0 implies next.maps[k].nodules[0].x
            == 0 by {
        assert(k != j);
        assert(next.maps[k] == st.maps[k]);
    }
    assert forall|k1: int, k2: int|
        0 <= k1 < next.maps.len() && 0 <= k2 < next.maps.len() && #[trigger] uses(next, k1) && #[trigger] uses(next, k2)
            && k1 != k2 implies next.maps[k1].nodules[0].x != next.maps[k2].nodules[0].x by {
        if k1 != j {
            assert(uses(st, k1));
            assert(next.maps[k1] == st.maps[k1]);
        }
        if k2 != j {
            assert(uses(st, k2));
            assert(next.maps[k2] == st.maps[k2]);
        }
    }
}

/// Every step of the layout keeps what holds of it.
proof fn lemma_step_keeps_layout_inv<P, S, I>(tree: Tree<P, S, I>, st: Assembly)
    requires
        st.stack.len() > 0,
        layout_inv(st),
    ensures
        assemble_step(tree, st) matches Ok(next) ==> layout_inv(next),
{
    if let Some(j) = find_map(st.maps, st.stack.last(), 0) {
        if st.touched.contains(st.stack.last()) {
            lemma_visit_keeps_layout_inv(tree, st, j);
        } else {
            lemma_touch_keeps_layout_inv(tree, st, j);
        }
    }
}

/// The layout, run to its end, places no two nodules at one position.
proof fn lemma_run_no_overlap<P, S, I>(tree: Tree<P, S, I>, st: Assembly)
    requires
        layout_inv(st),
    ensures
        assemble_run(tree, st) matches Ok(nodules) ==> no_overlap(nodules),
    decreases remaining(st.maps), st.stack.len(),
{
    if st.stack.len() > 0 {
        lemma_step_keeps_layout_inv(tree, st);
        if let Ok(next) = assemble_step(tree, st) {
            lemma_assemble_step_decreases(tree, st);
            lemma_run_no_overlap(tree, next);
        }
    }
}

/// The layout starts from branch maps that stand at `x == 0`, one row apart,
/// with the map of the branch of the root in use in column 0.
proof fn lemma_start_layout_inv<P, S, I>(tree: Tree<P, S, I>)
    requires
        tree.wf(),
        tree.nodes().len() < u32::MAX - 1,
    ensures
        layout_inv(assemble_start(tree, built_maps(tree))),
{
    let st = assemble_start(tree, built_maps(tree));
    lemma_end_points(tree);
    assert forall|j: int| 0 <= j < st.maps.len() implies is_column(#[trigger] st.maps[j].nodules) by {
        let e = end_points(tree)[j];
        assert(tree.has(e));
        assert(tree.shape().has(tree.shape().parent(e)));
        lemma_climb_len(tree, tree.shape().parent(e), tree.branch_of(e));
        assert forall|i: int| 0 <= i < st.maps[j].nodules.len() implies (#[trigger] st.maps[j].nodules[i]).x
            == st.maps[j].nodules[0].x && st.maps[j].nodules[i].y == st.maps[j].nodules[0].y + i by {
            let ids = branch_ids_for(tree, end_points(tree)[j]);
            assert(st.maps[j].nodules == nodules_for(tree, ids));
            assert(i as u32 == i);
        }
    }
    assert forall|j: int| 0 <= j < st.maps.len() && #[trigger] uses(st, j) implies {
        &&& st.maps[j].nodules.len() > 0
        &&& st.maps[j].nodules[0].x <= st.branch_x
        &&& forall|a: int|
            0 <= a < st.mapped.len() && (#[trigger] st.mapped[a]).x == st.maps[j].nodules[0].x ==> st.mapped[a].y
                < st.maps[j].nodules[0].y + st.maps[j].next
    } by {
        let t = choose|t: int| 0 <= t < st.touched.len() && find_map(st.maps, #[trigger] st.touched[t], 0) == Some(j);
        lemma_find_map(st.maps, st.touched[t], 0);
    }
    assert forall|j: int, k: int|
        0 <= j < st.maps.len() && 0 <= k < st.maps.len() && #[trigger] uses(st, j) && #[trigger] uses(st, k) && j
            != k implies st.maps[j].nodules[0].x != st.maps[k].nodules[0].x by {
        let t1 = choose|t: int| 0 <= t < st.touched.len() && find_map(st.maps, #[trigger] st.touched[t], 0) == Some(j);
        let t2 = choose|t: int| 0 <= t < st.touched.len() && find_map(st.maps, #[trigger] st.touched[t], 0) == Some(k);
        assert(t1 == 0 && t2 == 0);
    }
}

/// No two nodules of the map of a tree share a position.
pub proof fn law_no_two_nodules_share_a_position<P, S, I>(tree: Tree<P, S, I>)
    requires
        tree.wf(),
        tree.nodes().len() < u32::MAX - 1,
    ensures
        layout(tree) matches Ok(nodules) ==> no_overlap(nodules),
{
    if root_branch_ends(tree) {
        lemma_start_layout_inv(tree);
        lemma_run_no_overlap(tree, assemble_start(tree, built_maps(tree)));
    }
}

/// What a step of the layout does to the branch maps and the placed
/// nodules: it changes one map `j`, keeping its nodes; and either places
/// nothing, or places the next nodule of map `j`, and moves past it.
pub open spec fn step_shape(st: Assembly, next: Assembly, j: int) -> bool {
    &&& 0 <= j < st.maps.len()
    &&& next.maps.len() == st.maps.len()
    &&& forall|k: int| 0 <= k < st.maps.len() && k != j ==> next.maps[k] == st.maps[k]
    &&& next.maps[j].nodules.len() == st.maps[j].nodules.len()
    &&& forall|i: int|
        0 <= i < st.maps[j].nodules.len() ==> (#[trigger] next.maps[j].nodules[i]).node_id
            == st.maps[j].nodules[i].node_id && next.maps[j].nodules[i].branch_id == st.maps[j].nodules[i].branch_id
    &&& {
        ||| next.mapped == st.mapped && next.maps[j].next == st.maps[j].next
        ||| st.maps[j].next < st.maps[j].nodules.len() && next.maps[j].next == st.maps[j].next + 1
            && next.mapped.len() == st.mapped.len() + 1 && next.mapped.drop_last() == st.mapped
            && next.mapped.last().node_id == st.maps[j].nodules[st.maps[j].next as int].node_id
    }
}

/// What a step of the layout does to the stack of branches: placing the
/// next nodule of map `j` pushes the branches that start below its node;
/// otherwise the branch on top, whose map `j` is used up, is popped.
pub open spec fn step_stack<P, S, I>(tree: Tree<P, S, I>, st: Assembly, next: Assembly, j: int) -> bool {
    &&& next.mapped == st.mapped ==> {
        &&& next.stack == st.stack.drop_last()
        &&& find_map(st.maps, st.stack.last(), 0) == Some(j)
        &&& next.maps[j].next >= next.maps[j].nodules.len()
    }
    &&& next.mapped != st.mapped ==> next.stack == st.stack + tree.other_branches(next.mapped.last().node_id)
}

/// Every step of the layout has that shape.
#[verifier::spinoff_prover]
#[verifier::rlimit(60)]
proof fn lemma_step_shape<P, S, I>(tree: Tree<P, S, I>, st: Assembly)
    requires
        st.stack.len() > 0,
    ensures
        assemble_step(tree, st) matches Ok(next) ==> exists|j: int|
            step_shape(st, next, j) && step_stack(tree, st, next, j),
{
    let top = st.stack.last();
    if let Some(j) = find_map(st.maps, top, 0) {
        lemma_find_map(st.maps, top, 0);
        if let Ok(next) = assemble_step(tree, st) {
            let touching = !st.touched.contains(top);
            let bx = if touching { (st.branch_x + 1) as u32 } else { st.branch_x };
            let old = st.maps[j];
            let m = if touching {
                BranchMapView { nodules: BranchMap::offset_nodules(old.nodules, bx, st.last_y), next: old.next }
            } else {
                old
            };
            assert(m.nodules.len() == old.nodules.len());
            assert forall|i: int| 0 <= i < old.nodules.len() implies (#[trigger] m.nodules[i]).node_id
                == old.nodules[i].node_id && m.nodules[i].branch_id == old.nodules[i].branch_id by {}
            if m.next < m.nodules.len() {
                assert(next.mapped.drop_last() =~= st.mapped);
                assert(next.mapped.len() == st.mapped.len() + 1);
            }
            assert(step_shape(st, next, j));
            assert(step_stack(tree, st, next, j));
        }
    }
}

/// The node ids of the placed nodules, and what the layout keeps of the
/// nodes of the branch maps: each map holds the nodes of the map built for
/// its end point, each placed nodule is one that a map has handed out, and
/// no node is placed twice.
pub open spec fn nodes_inv<P, S, I>(tree: Tree<P, S, I>, st: Assembly) -> bool {
    &&& st.maps.len() == end_points(tree).len()
    &&& forall|j: int|
        0 <= j < st.maps.len() ==> (#[trigger] st.maps[j]).nodules.len() == branch_ids_for(
            tree,
            end_points(tree)[j],
        ).len() && st.maps[j].next <= st.maps[j].nodules.len() && forall|i: int|
            0 <= i < st.maps[j].nodules.len() ==> (#[trigger] st.maps[j].nodules[i]).node_id == branch_ids_for(
                tree,
                end_points(tree)[j],
            )[i]
    &&& forall|a: int| 0 <= a < st.mapped.len() ==> handed_out(st, (#[trigger] st.mapped[a]).node_id)
    &&& forall|a: int, b: int|
        0 <= a < b < st.mapped.len() ==> (#[trigger] st.mapped[a]).node_id != (#[trigger] st.mapped[b]).node_id
}

/// Whether a branch map has handed out a nodule of node `x`.
pub open spec fn handed_out(st: Assembly, x: u128) -> bool {
    exists|j: int, i: int|
        0 <= j < st.maps.len() && 0 <= i < st.maps[j].next && (#[trigger] st.maps[j].nodules[i]).node_id == x
}

/// The nodes of a branch map are nodes of the tree.
proof fn lemma_branch_ids_in_tree<P, S, I>(tree: Tree<P, S, I>, e: u128, x: u128)
    requires
        tree.wf(),
        tree.has(e),
        branch_ids_for(tree, e).contains(x),
    ensures
        tree.has(x),
{
    let s = tree.shape();
    let b = tree.branch_of(e);
    let up = climb(tree, s.parent(e), b);
    let ids = seq![e] + up;
    lemma_push_contains_u128(ids, tree.root(), x);
    lemma_concat_contains(seq![e], up, x);
    assert(s.has(tree.root()));
    if up.contains(x) {
        lemma_climb_distinct(tree, s.parent(e), b);
        let k = choose|k: int| 0 <= k < up.len() && up[k] == x;
        assert(tree.has(up[k]));
    }
}

/// Where every branch runs as one line, each step keeps the layout from
/// placing a node twice.
#[verifier::spinoff_prover]
#[verifier::rlimit(100)]
proof fn lemma_step_keeps_nodes_inv<P, S, I>(tree: Tree<P, S, I>, st: Assembly, next: Assembly, j: int)
    requires
        tree.wf(),
        linear_branches(tree),
        nodes_inv(tree, st),
        step_shape(st, next, j),
    ensures
        nodes_inv(tree, next),
{
    lemma_end_points(tree);
    assert forall|k: int| 0 <= k < next.maps.len() implies (#[trigger] next.maps[k]).nodules.len() == branch_ids_for(
        tree,
        end_points(tree)[k],
    ).len() && next.maps[k].next <= next.maps[k].nodules.len() && forall|i: int|
        0 <= i < next.maps[k].nodules.len() ==> (#[trigger] next.maps[k].nodules[i]).node_id == branch_ids_for(
            tree,
            end_points(tree)[k],
        )[i] by {
        if k != j {
            assert(next.maps[k] == st.maps[k]);
        } else {
            assert forall|i: int| 0 <= i < next.maps[k].nodules.len() implies (#[trigger] next.maps[k].nodules[i]).node_id
                == branch_ids_for(tree, end_points(tree)[k])[i] by {
                assert(next.maps[j].nodules[i].node_id == st.maps[j].nodules[i].node_id);
            }
        }
    }
    // a nodule placed before stays accounted for
    assert forall|a: int| 0 <= a < st.mapped.len() implies handed_out(next, (#[trigger] st.mapped[a]).node_id) by {
        assert(handed_out(st, st.mapped[a].node_id));
        let (j2, i) = choose|j2: int, i: int|
            0 <= j2 < st.maps.len() && 0 <= i < st.maps[j2].next && (#[trigger] st.maps[j2].nodules[i]).node_id
                == st.mapped[a].node_id;
        if j2 != j {
            assert(next.maps[j2] == st.maps[j2]);
        } else {
            assert(next.maps[j].nodules[i].node_id == st.maps[j].nodules[i].node_id);
        }
        assert(next.maps[j2].nodules[i].node_id == st.mapped[a].node_id);
    }
    if next.mapped == st.mapped {
        assert forall|a: int| 0 <= a < next.mapped.len() implies handed_out(next, (#[trigger] next.mapped[a]).node_id) by {
            assert(next.mapped[a] == st.mapped[a]);
        }
        assert forall|a: int, b: int| 0 <= a < b < next.mapped.len() implies (#[trigger] next.mapped[a]).node_id
            != (#[trigger] next.mapped[b]).node_id by {
            assert(next.mapped[a] == st.mapped[a]);
            assert(next.mapped[b] == st.mapped[b]);
        }
    } else {
        let n = next.mapped.last();
        let last = st.mapped.len() as int;
        let ids = branch_ids_for(tree, end_points(tree)[j]);
        let pos = st.maps[j].next as int;
        assert(n.node_id == ids[pos]);
        assert(next.mapped[last] == n);
        assert forall|a: int| 0 <= a < next.mapped.len() implies handed_out(next, (#[trigger] next.mapped[a]).node_id) by {
            if a < last {
                assert(next.mapped[a] == st.mapped[a]);
            } else {
                assert(next.maps[j].nodules[pos].node_id == st.maps[j].nodules[pos].node_id);
                assert(next.maps[j].nodules[pos].node_id == next.mapped[a].node_id);
            }
        }
        // the new node was not placed before
        assert forall|a: int| 0 <= a < last implies (#[trigger] st.mapped[a]).node_id != n.node_id by {
            assert(handed_out(st, st.mapped[a].node_id));
            let (j2, i) = choose|j2: int, i: int|
                0 <= j2 < st.maps.len() && 0 <= i < st.maps[j2].next && (#[trigger] st.maps[j2].nodules[i]).node_id
                    == st.mapped[a].node_id;
            if st.mapped[a].node_id == n.node_id {
                let ids2 = branch_ids_for(tree, end_points(tree)[j2]);
                assert(ids2[i] == n.node_id);
                if j2 == j {
                    law_a_branch_map_holds_each_node_once(tree, end_points(tree)[j]);
                    assert(ids[i] == ids[pos]);
                } else {
                    assert(ids.contains(n.node_id));
                    assert(ids2.contains(n.node_id));
                    lemma_branch_ids_in_tree(tree, end_points(tree)[j], n.node_id);
                    law_no_node_lies_in_two_branch_maps(tree, n.node_id, j, j2);
                }
            }
        }
        assert forall|a: int, b: int| 0 <= a < b < next.mapped.len() implies (#[trigger] next.mapped[a]).node_id
            != (#[trigger] next.mapped[b]).node_id by {
            assert(next.mapped[a] == st.mapped[a]);
            if b < last {
                assert(next.mapped[b] == st.mapped[b]);
            } else {
                assert(next.mapped[b] == n);
            }
        }
    }
}

/// Where every branch runs as one line, the layout, run to its end, places
/// no node twice.
proof fn lemma_run_places_each_node_once<P, S, I>(tree: Tree<P, S, I>, st: Assembly)
    requires
        tree.wf(),
        linear_branches(tree),
        nodes_inv(tree, st),
    ensures
        assemble_run(tree, st) matches Ok(nodules) ==> forall|a: int, b: int|
            0 <= a < b < nodules.len() ==> (#[trigger] nodules[a]).node_id != (#[trigger] nodules[b]).node_id,
    decreases remaining(st.maps), st.stack.len(),
{
    if st.stack.len() > 0 {
        lemma_step_shape(tree, st);
        if let Ok(next) = assemble_step(tree, st) {
            let j = choose|j: int| step_shape(st, next, j);
            lemma_step_keeps_nodes_inv(tree, st, next, j);
            lemma_assemble_step_decreases(tree, st);
            lemma_run_places_each_node_once(tree, next);
        }
    }
}

/// Where every branch runs as one line (no node has two children in its own
/// branch), the map of a tree shows no node twice.
pub proof fn law_no_node_is_placed_twice<P, S, I>(tree: Tree<P, S, I>)
    requires
        tree.wf(),
        linear_branches(tree),
    ensures
        layout(tree) matches Ok(nodules) ==> forall|a: int, b: int|
            0 <= a < b < nodules.len() ==> (#[trigger] nodules[a]).node_id != (#[trigger] nodules[b]).node_id,
{
    if root_branch_ends(tree) {
        let st = assemble_start(tree, built_maps(tree));
        assert forall|j: int| 0 <= j < st.maps.len() implies (#[trigger] st.maps[j]).nodules.len() == branch_ids_for(
            tree,
            end_points(tree)[j],
        ).len() && st.maps[j].next <= st.maps[j].nodules.len() && forall|i: int|
            0 <= i < st.maps[j].nodules.len() ==> (#[trigger] st.maps[j].nodules[i]).node_id == branch_ids_for(
                tree,
                end_points(tree)[j],
            )[i] by {}
        assert(nodes_inv(tree, st));
        lemma_run_places_each_node_once(tree, st);
    }
}

/// Whether every branch ends at one node only: each branch runs as one
/// unbroken line, and so has one branch map.
pub open spec fn each_branch_ends_once<P, S, I>(tree: Tree<P, S, I>) -> bool {
    forall|k1: int, k2: int|
        0 <= k1 < end_points(tree).len() && 0 <= k2 < end_points(tree).len() && tree.branch_of(
            #[trigger] end_points(tree)[k1],
        ) == tree.branch_of(#[trigger] end_points(tree)[k2]) ==> k1 == k2
}

/// Whether the layout has placed a nodule of node `x`.
pub open spec fn placed(st: Assembly, x: u128) -> bool {
    exists|a: int| 0 <= a < st.mapped.len() && (#[trigger] st.mapped[a]).node_id == x
}

/// Whether the branch map of branch `b` has handed out all its nodules.
pub open spec fn used_up(st: Assembly, b: u128) -> bool {
    forall|j: int| #[trigger] find_map(st.maps, b, 0) == Some(j) ==> st.maps[j].next >= st.maps[j].nodules.len()
}

/// What the layout keeps for showing every node: the branch maps hold the
/// nodes of the maps built for the end points and are found by branch as
/// those are; every nodule a map has handed out is placed; and each branch
/// that starts below a placed node, like the branch of the root, is still on
/// the stack or has its map used up.
pub open spec fn cover_inv<P, S, I>(tree: Tree<P, S, I>, st: Assembly) -> bool {
    &&& st.maps.len() == end_points(tree).len()
    &&& forall|j: int|
        0 <= j < st.maps.len() ==> (#[trigger] st.maps[j]).nodules.len() == branch_ids_for(
            tree,
            end_points(tree)[j],
        ).len() && st.maps[j].next <= st.maps[j].nodules.len() && forall|i: int|
            0 <= i < st.maps[j].nodules.len() ==> (#[trigger] st.maps[j].nodules[i]).node_id == branch_ids_for(
                tree,
                end_points(tree)[j],
            )[i]
    &&& forall|b: u128| #[trigger] find_map(st.maps, b, 0) == find_map(built_maps(tree), b, 0)
    &&& forall|j: int, i: int|
        0 <= j < st.maps.len() && 0 <= i < st.maps[j].next ==> placed(st, (#[trigger] st.maps[j].nodules[i]).node_id)
    &&& forall|a: int, b: u128|
        0 <= a < st.mapped.len() && #[trigger] tree.other_branches((#[trigger] st.mapped[a]).node_id).contains(b)
            ==> st.stack.contains(b) || used_up(st, b)
    &&& st.stack.contains(tree.branch_of(tree.root())) || used_up(st, tree.branch_of(tree.root()))
}

/// The maps of a tree are not empty.
proof fn lemma_branch_ids_len<P, S, I>(tree: Tree<P, S, I>, e: u128)
    ensures
        branch_ids_for(tree, e).len() >= 1,
        branch_ids_for(tree, e)[0] == e,
{
}

/// A step keeps what the layout keeps for showing every node.
#[verifier::spinoff_prover]
#[verifier::rlimit(100)]
proof fn lemma_step_keeps_cover_inv<P, S, I>(tree: Tree<P, S, I>, st: Assembly, next: Assembly, j: int)
    requires
        tree.wf(),
        cover_inv(tree, st),
        st.stack.len() > 0,
        step_shape(st, next, j),
        step_stack(tree, st, next, j),
    ensures
        cover_inv(tree, next),
{
    let rb = tree.branch_of(tree.root());
    lemma_branch_ids_len(tree, end_points(tree)[j]);
    assert(next.maps =~= st.maps.update(j, next.maps[j]));
    assert forall|b: u128| #[trigger] find_map(next.maps, b, 0) == find_map(st.maps, b, 0) by {
        lemma_find_map_update(st.maps, j, next.maps[j], b, 0);
    }
    assert forall|k: int| 0 <= k < next.maps.len() implies (#[trigger] next.maps[k]).nodules.len() == branch_ids_for(
        tree,
        end_points(tree)[k],
    ).len() && next.maps[k].next <= next.maps[k].nodules.len() && forall|i: int|
        0 <= i < next.maps[k].nodules.len() ==> (#[trigger] next.maps[k].nodules[i]).node_id == branch_ids_for(
            tree,
            end_points(tree)[k],
        )[i] by {
        if k != j {
            assert(next.maps[k] == st.maps[k]);
        } else {
            assert forall|i: int| 0 <= i < next.maps[k].nodules.len() implies (#[trigger] next.maps[k].nodules[i]).node_id
                == branch_ids_for(tree, end_points(tree)[k])[i] by {
                assert(next.maps[j].nodules[i].node_id == st.maps[j].nodules[i].node_id);
            }
        }
    }
    // what was used up stays used up
    assert forall|b: u128| used_up(st, b) implies used_up(next, b) by {
        assert forall|k: int| #[trigger] find_map(next.maps, b, 0) == Some(k) implies next.maps[k].next
            >= next.maps[k].nodules.len() by {
            assert(find_map(st.maps, b, 0) == Some(k));
            lemma_find_map(st.maps, b, 0);
            if k != j {
                assert(next.maps[k] == st.maps[k]);
            }
        }
    }
    // what was placed stays placed
    assert forall|x: u128| placed(st, x) implies placed(next, x) by {
        let a = choose|a: int| 0 <= a < st.mapped.len() && (#[trigger] st.mapped[a]).node_id == x;
        if next.mapped != st.mapped {
            assert(next.mapped.drop_last()[a] == st.mapped[a]);
            assert(next.mapped[a] == st.mapped[a]);
        }
    }
    assert forall|k: int, i: int| 0 <= k < next.maps.len() && 0 <= i < next.maps[k].next implies placed(
        next,
        (#[trigger] next.maps[k].nodules[i]).node_id,
    ) by {
        if k != j {
            assert(next.maps[k] == st.maps[k]);
            assert(placed(st, st.maps[k].nodules[i].node_id));
        } else if i < st.maps[j].next {
            assert(next.maps[j].nodules[i].node_id == st.maps[j].nodules[i].node_id);
            assert(placed(st, st.maps[j].nodules[i].node_id));
        } else {
            let last = st.mapped.len() as int;
            assert(next.mapped[last] == next.mapped.last());
            assert(next.maps[j].nodules[i].node_id == st.maps[j].nodules[i].node_id);
        }
    }
    // a branch on the stack stays on it, or its map is used up
    assert forall|b: u128| st.stack.contains(b) || used_up(st, b) implies next.stack.contains(b) || used_up(next, b) by {
        if !used_up(st, b) {
            if next.mapped == st.mapped {
                let t = choose|t: int| 0 <= t < st.stack.len() && st.stack[t] == b;
                if t < st.stack.len() - 1 {
                    assert(next.stack[t] == b);
                } else {
                    assert(b == st.stack.last());
                    assert forall|k: int| #[trigger] find_map(next.maps, b, 0) == Some(k) implies next.maps[k].next
                        >= next.maps[k].nodules.len() by {
                        assert(k == j);
                    }
                }
            } else {
                crate::workspace::shape::lemma_concat_contains(
                    st.stack,
                    tree.other_branches(next.mapped.last().node_id),
                    b,
                );
            }
        }
    }
    assert forall|a: int, b: u128|
        0 <= a < next.mapped.len() && #[trigger] tree.other_branches((#[trigger] next.mapped[a]).node_id).contains(b)
            implies next.stack.contains(b) || used_up(next, b) by {
        if a < st.mapped.len() {
            if next.mapped != st.mapped {
                assert(next.mapped.drop_last()[a] == st.mapped[a]);
            }
            assert(next.mapped[a] == st.mapped[a]);
            assert(st.stack.contains(b) || used_up(st, b));
        } else {
            assert(next.mapped != st.mapped);
            assert(next.mapped[a] == next.mapped.last());
            crate::workspace::shape::lemma_concat_contains(
                st.stack,
                tree.other_branches(next.mapped.last().node_id),
                b,
            );
        }
    }
    assert(next.stack.contains(rb) || used_up(next, rb));
}

/// Where every branch ends once, the map built for end point `k` is the one
/// its branch finds.
proof fn lemma_find_built<P, S, I>(tree: Tree<P, S, I>, k: int)
    requires
        tree.wf(),
        each_branch_ends_once(tree),
        0 <= k < end_points(tree).len(),
    ensures
        find_map(built_maps(tree), tree.branch_of(end_points(tree)[k]), 0) == Some(k),
{
    let maps = built_maps(tree);
    let b = tree.branch_of(end_points(tree)[k]);
    lemma_branch_ids_len(tree, end_points(tree)[k]);
    assert(maps[k].nodules[0].branch_id == b);
    lemma_find_map(maps, b, 0);
    if let Some(j) = find_map(maps, b, 0) {
        lemma_branch_ids_len(tree, end_points(tree)[j]);
        assert(maps[j].nodules[0].branch_id == tree.branch_of(end_points(tree)[j]));
    }
}

/// Once the stack is empty, where every branch ends once, the map of the
/// branch of every node is used up and every node is placed.
#[verifier::spinoff_prover]
#[verifier::rlimit(60)]
proof fn lemma_every_node_placed<P, S, I>(tree: Tree<P, S, I>, st: Assembly, y: u128)
    requires
        tree.wf(),
        each_branch_ends_once(tree),
        cover_inv(tree, st),
        st.stack.len() == 0,
        tree.has(y),
    ensures
        used_up(st, tree.branch_of(y)),
        placed(st, y),
    decreases tree.shape().rank[y],
{
    let s = tree.shape();
    let rb = tree.branch_of(tree.root());
    let b = tree.branch_of(y);
    if b == rb {
        assert(!st.stack.contains(rb));
    } else {
        let p = s.parent(y);
        assert(y != tree.root());
        assert(s.has(p) && s.children(p).contains(y));
        lemma_every_node_placed(tree, st, p);
        if tree.branch_of(p) != b {
            let a = choose|a: int| 0 <= a < st.mapped.len() && (#[trigger] st.mapped[a]).node_id == p;
            let ch = s.children(p);
            let i = choose|i: int| 0 <= i < ch.len() && ch[i] == y;
            let mapped = ch.map_values(|c: u128| tree.branch_of(c));
            assert(mapped[i] == b);
            mapped.lemma_filter_contains(differs_from(tree.branch_of(p)), i);
            assert(tree.other_branches(p).contains(b));
            assert(tree.other_branches(st.mapped[a].node_id).contains(b));
            assert(!st.stack.contains(b));
        }
    }
    // the nodule of `y` was handed out by the used-up map of its branch
    law_every_node_lies_in_a_branch_map(tree, y);
    let k = choose|k: int|
        0 <= k < end_points(tree).len() && branch_ids_for(tree, #[trigger] end_points(tree)[k]).contains(y);
    lemma_end_points(tree);
    lemma_member_ends_in_branch(tree, end_points(tree)[k], y);
    lemma_find_built(tree, k);
    assert(find_map(st.maps, b, 0) == Some(k));
    let ids = branch_ids_for(tree, end_points(tree)[k]);
    let i = choose|i: int| 0 <= i < ids.len() && ids[i] == y;
    assert(st.maps[k].nodules[i].node_id == y);
    assert(placed(st, st.maps[k].nodules[i].node_id));
}

/// Whether some nodule of `nodules` stands for node `y`.
pub open spec fn shows_node(nodules: Seq<Nodule>, y: u128) -> bool {
    exists|a: int| 0 <= a < nodules.len() && (#[trigger] nodules[a]).node_id == y
}

/// Once the stack is empty, where every branch ends once, every node of the
/// tree is placed.
proof fn lemma_all_nodes_placed<P, S, I>(tree: Tree<P, S, I>, st: Assembly)
    requires
        tree.wf(),
        each_branch_ends_once(tree),
        cover_inv(tree, st),
        st.stack.len() == 0,
    ensures
        forall|y: u128| tree.has(y) ==> #[trigger] shows_node(st.mapped, y),
{
    assert forall|y: u128| tree.has(y) implies #[trigger] shows_node(st.mapped, y) by {
        lemma_every_node_placed(tree, st, y);
    }
}

/// Where every branch ends once, the layout, run to its end, places every
/// node of the tree.
#[verifier::spinoff_prover]
#[verifier::rlimit(60)]
proof fn lemma_run_places_every_node<P, S, I>(tree: Tree<P, S, I>, st: Assembly)
    requires
        tree.wf(),
        each_branch_ends_once(tree),
        cover_inv(tree, st),
    ensures
        assemble_run(tree, st) matches Ok(nodules) ==> forall|y: u128|
            tree.has(y) ==> #[trigger] shows_node(nodules, y),
    decreases remaining(st.maps), st.stack.len(),
{
    if st.stack.len() == 0 {
        lemma_all_nodes_placed(tree, st);
        assert(assemble_run(tree, st) == Ok::<Seq<Nodule>, MapError>(st.mapped));
    } else {
        lemma_step_shape(tree, st);
        if let Ok(next) = assemble_step(tree, st) {
            let j = choose|j: int| step_shape(st, next, j) && step_stack(tree, st, next, j);
            lemma_step_keeps_cover_inv(tree, st, next, j);
            lemma_assemble_step_decreases(tree, st);
            lemma_run_places_every_node(tree, next);
            assert(assemble_run(tree, st) == assemble_run(tree, next));
        } else {
            assert(assemble_run(tree, st) is Err);
        }
    }
}

/// Where every branch runs as one unbroken line (it ends at one node only),
/// the map of a tree shows every node of the tree.
pub proof fn law_the_map_shows_every_node<P, S, I>(tree: Tree<P, S, I>)
    requires
        tree.wf(),
        each_branch_ends_once(tree),
    ensures
        layout(tree) matches Ok(nodules) ==> forall|y: u128| tree.has(y) ==> #[trigger] shows_node(nodules, y),
{
    if root_branch_ends(tree) {
        let st = assemble_start(tree, built_maps(tree));
        assert forall|j: int| 0 <= j < st.maps.len() implies (#[trigger] st.maps[j]).nodules.len() == branch_ids_for(
            tree,
            end_points(tree)[j],
        ).len() && st.maps[j].next <= st.maps[j].nodules.len() && forall|i: int|
            0 <= i < st.maps[j].nodules.len() ==> (#[trigger] st.maps[j].nodules[i]).node_id == branch_ids_for(
                tree,
                end_points(tree)[j],
            )[i] by {}
        assert(st.stack[0] == tree.branch_of(tree.root()));
        assert(cover_inv(tree, st));
        lemma_run_places_every_node(tree, st);
    }
}

/// Whether a nodule lies in branch `b`.
pub open spec fn of_branch(b: u128) -> spec_fn(Nodule) -> bool {
    |n: Nodule| n.branch_id == b
}

/// Whether the layout has taken into use a branch map of branch `b`.
pub open spec fn branch_in_use(st: Assembly, b: u128) -> bool {
    exists|j: int| 0 <= j < st.maps.len() && #[trigger] uses(st, j) && st.maps[j].nodules[0].branch_id == b
}

/// What the layout keeps of the columns: each branch map is of one branch;
/// a map not in use has handed out nothing; the nodules placed of the branch
/// of a map in use are, in order, the nodules that map has handed out, and
/// that map stands at `x == 0` exactly when it is the map of the branch of
/// the root (`rb`); every placed nodule is of a branch in use.
pub open spec fn col_inv(st: Assembly, rb: u128) -> bool {
    &&& st.touched.contains(rb)
    &&& forall|j: int|
        0 <= j < st.maps.len() ==> (#[trigger] st.maps[j]).nodules.len() > 0 && st.maps[j].next
            <= st.maps[j].nodules.len() && forall|i: int|
            0 <= i < st.maps[j].nodules.len() ==> (#[trigger] st.maps[j].nodules[i]).branch_id
                == st.maps[j].nodules[0].branch_id
    &&& forall|j: int| 0 <= j < st.maps.len() && !#[trigger] uses(st, j) ==> st.maps[j].next == 0
    &&& forall|j: int|
        0 <= j < st.maps.len() && #[trigger] uses(st, j) ==> st.mapped.filter(
            of_branch(st.maps[j].nodules[0].branch_id),
        ) == st.maps[j].nodules.take(st.maps[j].next as int) && (st.maps[j].nodules[0].x == 0
            <==> st.maps[j].nodules[0].branch_id == rb)
    &&& forall|a: int| 0 <= a < st.mapped.len() ==> branch_in_use(st, (#[trigger] st.mapped[a]).branch_id)
}

/// A map in use is the map its branch finds, and its branch has been met.
proof fn lemma_uses_branch(st: Assembly, j: int)
    requires
        uses(st, j),
    ensures
        0 <= j < st.maps.len(),
        st.maps[j].nodules.len() > 0,
        st.touched.contains(st.maps[j].nodules[0].branch_id),
        find_map(st.maps, st.maps[j].nodules[0].branch_id, 0) == Some(j),
{
    let t = choose|t: int| 0 <= t < st.touched.len() && find_map(st.maps, #[trigger] st.touched[t], 0) == Some(j);
    lemma_find_map(st.maps, st.touched[t], 0);
}

/// Filtering keeps nothing when no element passes.
proof fn lemma_filter_none(s: Seq<Nodule>, pred: spec_fn(Nodule) -> bool)
    requires
        forall|a: int| 0 <= a < s.len() ==> !pred(#[trigger] s[a]),
    ensures
        s.filter(pred) == Seq::<Nodule>::empty(),
{
    if s.filter(pred).len() > 0 {
        let x = s.filter(pred)[0];
        s.lemma_filter_pred(pred, 0);
        assert(s.filter(pred).contains(x));
        s.lemma_filter_contains_rev(pred, x);
    }
    assert(s.filter(pred) =~= Seq::<Nodule>::empty());
}

/// A step on a branch already met keeps what the layout keeps of the columns.
#[verifier::spinoff_prover]
#[verifier::rlimit(100)]
proof fn lemma_visit_keeps_col_inv<P, S, I>(tree: Tree<P, S, I>, st: Assembly, j: int, rb: u128)
    requires
        st.stack.len() > 0,
        col_inv(st, rb),
        find_map(st.maps, st.stack.last(), 0) == Some(j),
        st.touched.contains(st.stack.last()),
    ensures
        assemble_step(tree, st) matches Ok(next) ==> col_inv(next, rb),
{
    let top = st.stack.last();
    lemma_find_map(st.maps, top, 0);
    let t0 = choose|t: int| 0 <= t < st.touched.len() && st.touched[t] == top;
    assert(find_map(st.maps, st.touched[t0], 0) == Some(j));
    assert(uses(st, j));
    let m = st.maps[j];
    let b = m.nodules[0].branch_id;
    assert(b == top);
    if m.next < m.nodules.len() {
        let nodule = m.nodules[m.next as int];
        if tree.has(nodule.node_id) {
            let m2 = BranchMapView { next: m.next + 1, ..m };
            let next = Assembly {
                maps: st.maps.update(j, m2),
                mapped: st.mapped.push(nodule),
                branch_x: st.branch_x,
                last_y: nodule.y,
                stack: st.stack + tree.other_branches(nodule.node_id),
                touched: st.touched,
            };
            assert(assemble_step(tree, st) == Ok::<Assembly, MapError>(next));
            assert forall|c: u128| find_map(next.maps, c, 0) == find_map(st.maps, c, 0) by {
                lemma_find_map_update(st.maps, j, m2, c, 0);
            }
            assert forall|k: int| uses(next, k) <==> uses(st, k) by {
                if uses(st, k) {
                    lemma_uses_kept(st, next, k);
                }
                if uses(next, k) {
                    lemma_uses_back(st, next, k);
                }
            }
            assert(nodule.branch_id == b);
            assert forall|k: int| 0 <= k < next.maps.len() implies (#[trigger] next.maps[k]).nodules.len() > 0
                && next.maps[k].next <= next.maps[k].nodules.len() && forall|i: int|
                0 <= i < next.maps[k].nodules.len() ==> (#[trigger] next.maps[k].nodules[i]).branch_id
                    == next.maps[k].nodules[0].branch_id by {
                assert(next.maps[k].nodules == st.maps[k].nodules);
            }
            assert forall|k: int| 0 <= k < next.maps.len() && !#[trigger] uses(next, k) implies next.maps[k].next == 0 by {
                assert(k != j);
            }
            assert forall|k: int| 0 <= k < next.maps.len() && #[trigger] uses(next, k) implies next.mapped.filter(
                of_branch(next.maps[k].nodules[0].branch_id),
            ) == next.maps[k].nodules.take(next.maps[k].next as int) && (next.maps[k].nodules[0].x == 0
                <==> next.maps[k].nodules[0].branch_id == rb) by {
                assert(uses(st, k));
                let bk = st.maps[k].nodules[0].branch_id;
                st.mapped.lemma_filter_push(nodule, of_branch(bk));
                if k == j {
                    assert(m.nodules.take((m.next + 1) as int) =~= m.nodules.take(m.next as int).push(nodule));
                } else {
                    assert(next.maps[k] == st.maps[k]);
                    lemma_uses_branch(st, k);
                    lemma_uses_branch(st, j);
                    assert(bk != b);
                }
            }
            assert forall|a: int| 0 <= a < next.mapped.len() implies branch_in_use(
                next,
                (#[trigger] next.mapped[a]).branch_id,
            ) by {
                if a < st.mapped.len() {
                    assert(next.mapped[a] == st.mapped[a]);
                    assert(branch_in_use(st, st.mapped[a].branch_id));
                    let k = choose|k: int|
                        0 <= k < st.maps.len() && #[trigger] uses(st, k) && st.maps[k].nodules[0].branch_id
                            == st.mapped[a].branch_id;
                    assert(uses(next, k));
                    assert(next.maps[k].nodules == st.maps[k].nodules);
                } else {
                    assert(next.mapped[a] == nodule);
                    assert(uses(next, j));
                    assert(next.maps[j].nodules == st.maps[j].nodules);
                }
            }
        }
    } else {
        let next = Assembly {
            maps: st.maps.update(j, m),
            mapped: st.mapped,
            branch_x: st.branch_x,
            last_y: st.last_y,
            stack: st.stack.drop_last(),
            touched: st.touched,
        };
        assert(st.maps.update(j, m) =~= st.maps);
        assert(assemble_step(tree, st) == Ok::<Assembly, MapError>(next));
        assert forall|k: int| uses(next, k) <==> uses(st, k) by {
            if uses(st, k) {
                lemma_uses_kept(st, next, k);
            }
            if uses(next, k) {
                lemma_uses_back(st, next, k);
            }
        }
        assert forall|a: int| 0 <= a < next.mapped.len() implies branch_in_use(
            next,
            (#[trigger] next.mapped[a]).branch_id,
        ) by {
            assert(branch_in_use(st, st.mapped[a].branch_id));
            let k = choose|k: int|
                0 <= k < st.maps.len() && #[trigger] uses(st, k) && st.maps[k].nodules[0].branch_id
                    == st.mapped[a].branch_id;
            assert(uses(next, k));
        }
    }
}

/// A step on a branch met for the first time keeps what the layout keeps of
/// the columns.
#[verifier::spinoff_prover]
#[verifier::rlimit(100)]
proof fn lemma_touch_keeps_col_inv<P, S, I>(tree: Tree<P, S, I>, st: Assembly, j: int, rb: u128)
    requires
        st.stack.len() > 0,
        col_inv(st, rb),
        layout_inv(st),
        find_map(st.maps, st.stack.last(), 0) == Some(j),
        !st.touched.contains(st.stack.last()),
    ensures
        assemble_step(tree, st) matches Ok(next) ==> col_inv(next, rb),
{
    let top = st.stack.last();
    lemma_find_map(st.maps, top, 0);
    assert(!uses(st, j)) by {
        if uses(st, j) {
            lemma_uses_branch(st, j);
        }
    }
    let old = st.maps[j];
    assert(old.next == 0);
    assert(old.nodules[0].x == 0);
    assert(top != rb);
    if st.branch_x < u32::MAX {
        let bx = (st.branch_x + 1) as u32;
        if BranchMap::offset_fits(old.nodules, bx, st.last_y) {
            let m = BranchMapView { nodules: BranchMap::offset_nodules(old.nodules, bx, st.last_y), next: old.next };
            let touched = st.touched.push(top);
            let nodule = m.nodules[0];
            assert(nodule.branch_id == top && nodule.x == bx);
            if tree.has(nodule.node_id) {
                let m2 = BranchMapView { next: 1, ..m };
                let next = Assembly {
                    maps: st.maps.update(j, m2),
                    mapped: st.mapped.push(nodule),
                    branch_x: bx,
                    last_y: nodule.y,
                    stack: st.stack + tree.other_branches(nodule.node_id),
                    touched,
                };
                assert(assemble_step(tree, st) == Ok::<Assembly, MapError>(next));
                assert forall|c: u128| find_map(next.maps, c, 0) == find_map(st.maps, c, 0) by {
                    lemma_find_map_update(st.maps, j, m2, c, 0);
                }
                assert(uses(next, j)) by {
                    assert(next.touched[st.touched.len() as int] == top);
                }
                assert forall|k: int| k != j implies (uses(next, k) <==> uses(st, k)) by {
                    if uses(st, k) {
                        lemma_uses_kept(st, next, k);
                    }
                    if uses(next, k) {
                        lemma_uses_back(st, next, k);
                    }
                }
                // nothing of the new branch was placed before
                assert forall|a: int| 0 <= a < st.mapped.len() implies !of_branch(top)(#[trigger] st.mapped[a]) by {
                    assert(branch_in_use(st, st.mapped[a].branch_id));
                    let k = choose|k: int|
                        0 <= k < st.maps.len() && #[trigger] uses(st, k) && st.maps[k].nodules[0].branch_id
                            == st.mapped[a].branch_id;
                    lemma_uses_branch(st, k);
                }
                lemma_filter_none(st.mapped, of_branch(top));
                assert forall|k: int| 0 <= k < next.maps.len() implies (#[trigger] next.maps[k]).nodules.len() > 0
                    && next.maps[k].next <= next.maps[k].nodules.len() && forall|i: int|
                    0 <= i < next.maps[k].nodules.len() ==> (#[trigger] next.maps[k].nodules[i]).branch_id
                        == next.maps[k].nodules[0].branch_id by {
                    if k != j {
                        assert(next.maps[k] == st.maps[k]);
                    } else {
                        assert forall|i: int| 0 <= i < next.maps[k].nodules.len() implies (#[trigger] next.maps[k].nodules[i]).branch_id
                            == next.maps[k].nodules[0].branch_id by {
                            assert(old.nodules[i].branch_id == old.nodules[0].branch_id);
                        }
                    }
                }
                assert forall|k: int| 0 <= k < next.maps.len() && !#[trigger] uses(next, k) implies next.maps[k].next == 0 by {
                    assert(k != j);
                    assert(next.maps[k] == st.maps[k]);
                }
                assert forall|k: int| 0 <= k < next.maps.len() && #[trigger] uses(next, k) implies next.mapped.filter(
                    of_branch(next.maps[k].nodules[0].branch_id),
                ) == next.maps[k].nodules.take(next.maps[k].next as int) && (next.maps[k].nodules[0].x == 0
                    <==> next.maps[k].nodules[0].branch_id == rb) by {
                    let bk = next.maps[k].nodules[0].branch_id;
                    st.mapped.lemma_filter_push(nodule, of_branch(bk));
                    if k == j {
                        assert(m2.nodules.take(1) =~= seq![nodule]);
                        assert(Seq::<Nodule>::empty().push(nodule) =~= seq![nodule]);
                    } else {
                        assert(uses(st, k));
                        assert(next.maps[k] == st.maps[k]);
                        lemma_uses_branch(st, k);
                        assert(bk != top);
                    }
                }
                assert forall|a: int| 0 <= a < next.mapped.len() implies branch_in_use(
                    next,
                    (#[trigger] next.mapped[a]).branch_id,
                ) by {
                    if a < st.mapped.len() {
                        assert(next.mapped[a] == st.mapped[a]);
                        assert(branch_in_use(st, st.mapped[a].branch_id));
                        let k = choose|k: int|
                            0 <= k < st.maps.len() && #[trigger] uses(st, k) && st.maps[k].nodules[0].branch_id
                                == st.mapped[a].branch_id;
                        assert(k != j);
                        assert(uses(next, k));
                        assert(next.maps[k] == st.maps[k]);
                    } else {
                        assert(next.mapped[a] == nodule);
                    }
                }
                assert(next.touched.contains(rb)) by {
                    let t = choose|t: int| 0 <= t < st.touched.len() && st.touched[t] == rb;
                    assert(next.touched[t] == rb);
                }
            }
        }
    }
}

/// Every step of the layout keeps what it keeps of the columns.
proof fn lemma_step_keeps_col_inv<P, S, I>(tree: Tree<P, S, I>, st: Assembly, rb: u128)
    requires
        st.stack.len() > 0,
        col_inv(st, rb),
        layout_inv(st),
    ensures
        assemble_step(tree, st) matches Ok(next) ==> col_inv(next, rb),
{
    if let Some(j) = find_map(st.maps, st.stack.last(), 0) {
        if st.touched.contains(st.stack.last()) {
            lemma_visit_keeps_col_inv(tree, st, j, rb);
        } else {
            lemma_touch_keeps_col_inv(tree, st, j, rb);
        }
    }
}

/// The map in use that a placed nodule comes from, whose column it stands in.
proof fn lemma_placed_column(st: Assembly, rb: u128, a: int) -> (k: int)
    requires
        layout_inv(st),
        col_inv(st, rb),
        0 <= a < st.mapped.len(),
    ensures
        0 <= k < st.maps.len(),
        uses(st, k),
        st.maps[k].nodules[0].branch_id == st.mapped[a].branch_id,
        st.mapped[a].x == st.maps[k].nodules[0].x,
{
    let n = st.mapped[a];
    assert(branch_in_use(st, n.branch_id));
    let k = choose|k: int|
        0 <= k < st.maps.len() && #[trigger] uses(st, k) && st.maps[k].nodules[0].branch_id == n.branch_id;
    let pred = of_branch(n.branch_id);
    st.mapped.lemma_filter_contains(pred, a);
    let taken = st.maps[k].nodules.take(st.maps[k].next as int);
    assert(taken.contains(n));
    let i = choose|i: int| 0 <= i < taken.len() && taken[i] == n;
    assert(st.maps[k].nodules[i] == n);
    assert(is_column(st.maps[k].nodules));
    k
}

/// How the placed nodules stand: those of each branch, in the order
/// placed, in one column one row apart; those of different branches in
/// different columns; and those of the branch of the root (`rb`), and only
/// those, in column 0.
pub open spec fn columns_by_branch(nodules: Seq<Nodule>, rb: u128) -> bool {
    &&& forall|b: u128| is_column(#[trigger] nodules.filter(of_branch(b)))
    &&& forall|a: int, c: int|
        0 <= a < nodules.len() && 0 <= c < nodules.len() ==> ((#[trigger] nodules[a]).branch_id
            == (#[trigger] nodules[c]).branch_id <==> nodules[a].x == nodules[c].x)
    &&& forall|a: int| 0 <= a < nodules.len() ==> ((#[trigger] nodules[a]).x == 0 <==> nodules[a].branch_id == rb)
}

/// What the layout keeps gives the columns by branch.
#[verifier::spinoff_prover]
#[verifier::rlimit(60)]
proof fn lemma_columns_hold(st: Assembly, rb: u128)
    requires
        layout_inv(st),
        col_inv(st, rb),
    ensures
        columns_by_branch(st.mapped, rb),
{
    let ns = st.mapped;
    assert forall|b: u128| is_column(#[trigger] ns.filter(of_branch(b))) by {
        if branch_in_use(st, b) {
            let k = choose|k: int|
                0 <= k < st.maps.len() && #[trigger] uses(st, k) && st.maps[k].nodules[0].branch_id == b;
            let taken = st.maps[k].nodules.take(st.maps[k].next as int);
            assert(is_column(st.maps[k].nodules));
            assert forall|i: int| 0 <= i < taken.len() implies (#[trigger] taken[i]).x == taken[0].x && taken[i].y
                == taken[0].y + i by {
                assert(taken[i] == st.maps[k].nodules[i]);
                assert(taken[0] == st.maps[k].nodules[0]);
            }
        } else {
            assert forall|a: int| 0 <= a < ns.len() implies !of_branch(b)(#[trigger] ns[a]) by {
                assert(branch_in_use(st, ns[a].branch_id));
            }
            lemma_filter_none(ns, of_branch(b));
        }
    }
    assert forall|a: int, c: int| 0 <= a < ns.len() && 0 <= c < ns.len() implies ((#[trigger] ns[a]).branch_id
        == (#[trigger] ns[c]).branch_id <==> ns[a].x == ns[c].x) by {
        let ka = lemma_placed_column(st, rb, a);
        let kc = lemma_placed_column(st, rb, c);
        lemma_uses_branch(st, ka);
        lemma_uses_branch(st, kc);
    }
    assert forall|a: int| 0 <= a < ns.len() implies ((#[trigger] ns[a]).x == 0 <==> ns[a].branch_id == rb) by {
        let k = lemma_placed_column(st, rb, a);
    }
}

/// The layout, run to its end, places the nodules in columns by branch.
#[verifier::spinoff_prover]
#[verifier::rlimit(60)]
proof fn lemma_run_columns<P, S, I>(tree: Tree<P, S, I>, st: Assembly, rb: u128)
    requires
        layout_inv(st),
        col_inv(st, rb),
    ensures
        assemble_run(tree, st) matches Ok(nodules) ==> columns_by_branch(nodules, rb),
    decreases remaining(st.maps), st.stack.len(),
{
    if st.stack.len() == 0 {
        lemma_columns_hold(st, rb);
        assert(assemble_run(tree, st) == Ok::<Seq<Nodule>, MapError>(st.mapped));
    } else {
        lemma_step_keeps_layout_inv(tree, st);
        lemma_step_keeps_col_inv(tree, st, rb);
        if let Ok(next) = assemble_step(tree, st) {
            lemma_assemble_step_decreases(tree, st);
            lemma_run_columns(tree, next, rb);
            assert(assemble_run(tree, st) == assemble_run(tree, next));
        }
    }
}

/// The map of a tree stands in columns by branch: the nodules of each
/// branch, in the order placed, stand in one column, one row apart; the
/// branch of the root stands in column 0, and every other branch in a
/// column of its own.
pub proof fn law_each_branch_stands_in_its_own_column<P, S, I>(tree: Tree<P, S, I>)
    requires
        tree.wf(),
        tree.nodes().len() < u32::MAX - 1,
    ensures
        layout(tree) matches Ok(nodules) ==> columns_by_branch(nodules, tree.branch_of(tree.root())),
{
    if root_branch_ends(tree) {
        let rb = tree.branch_of(tree.root());
        let st = assemble_start(tree, built_maps(tree));
        lemma_start_layout_inv(tree);
        lemma_end_points(tree);
        assert(st.touched[0] == rb);
        assert forall|j: int| 0 <= j < st.maps.len() implies (#[trigger] st.maps[j]).nodules.len() > 0
            && st.maps[j].next <= st.maps[j].nodules.len() && forall|i: int|
            0 <= i < st.maps[j].nodules.len() ==> (#[trigger] st.maps[j].nodules[i]).branch_id
                == st.maps[j].nodules[0].branch_id by {
            let e = end_points(tree)[j];
            let ids = branch_ids_for(tree, e);
            lemma_branch_ids_len(tree, e);
            assert forall|i: int| 0 <= i < st.maps[j].nodules.len() implies (#[trigger] st.maps[j].nodules[i]).branch_id
                == st.maps[j].nodules[0].branch_id by {
                assert(ids.contains(ids[i]));
                lemma_member_ends_in_branch(tree, e, ids[i]);
            }
        }
        assert forall|j: int| 0 <= j < st.maps.len() && #[trigger] uses(st, j) implies st.mapped.filter(
            of_branch(st.maps[j].nodules[0].branch_id),
        ) == st.maps[j].nodules.take(st.maps[j].next as int) && (st.maps[j].nodules[0].x == 0
            <==> st.maps[j].nodules[0].branch_id == rb) by {
            let t = choose|t: int| 0 <= t < st.touched.len() && find_map(st.maps, #[trigger] st.touched[t], 0) == Some(j);
            lemma_find_map(st.maps, st.touched[t], 0);
            lemma_filter_none(st.mapped, of_branch(st.maps[j].nodules[0].branch_id));
            assert(st.maps[j].nodules.take(0) =~= Seq::<Nodule>::empty());
        }
        assert(col_inv(st, rb));
        lemma_run_columns(tree, st, rb);
    }
}

/// The nodes of a climb from `y` are `y` and ancestors of `y`.
proof fn lemma_climb_upstream<P, S, I>(tree: Tree<P, S, I>, y: u128, b: u128, z: u128)
    requires
        tree.wf(),
        climb(tree, y, b).contains(z),
    ensures
        z == y || tree.upstream(y).contains(z),
    decreases tree.shape().rank[y],
{
    let s = tree.shape();
    assert(s.has(y) && y != tree.root() && tree.branch_of(y) == b);
    let p = s.parent(y);
    let rest = climb(tree, p, b);
    assert(climb(tree, y, b) == seq![y] + rest);
    lemma_concat_contains(seq![y], rest, z);
    assert(s.upstream(y) == seq![p] + s.upstream(p));
    if z != y {
        assert(s.has(p));
        lemma_climb_upstream(tree, p, b, z);
        lemma_concat_contains(seq![p], s.upstream(p), z);
        if z == p {
            assert(seq![p][0] == p);
        }
    }
}

/// The `k`-th ancestor of `y` lies `k + 1` levels above it.
proof fn lemma_upstream_depth<P, S, I>(tree: Tree<P, S, I>, y: u128, k: int)
    requires
        tree.wf(),
        tree.has(y),
        0 <= k < tree.upstream(y).len(),
    ensures
        tree.shape().depth(tree.upstream(y)[k]) + k + 1 == tree.shape().depth(y),
    decreases tree.shape().rank[y],
{
    let s = tree.shape();
    let p = s.parent(y);
    assert(y != tree.root());
    assert(s.has(p));
    assert(s.upstream(y) == seq![p] + s.upstream(p));
    if k > 0 {
        lemma_upstream_depth(tree, p, k - 1);
        assert(s.upstream(y)[k] == s.upstream(p)[k - 1]);
    }
}

/// Where every branch ends once, every branch runs as one line: no node has
/// two children in its own branch.
#[verifier::spinoff_prover]
#[verifier::rlimit(60)]
pub proof fn law_branches_that_end_once_are_lines<P, S, I>(tree: Tree<P, S, I>)
    requires
        tree.wf(),
        each_branch_ends_once(tree),
    ensures
        linear_branches(tree),
{
    let s = tree.shape();
    assert forall|x: u128, i: int, j: int|
        #![trigger s.children(x)[i], s.children(x)[j]]
        tree.has(x) && 0 <= i < s.children(x).len() && 0 <= j < s.children(x).len() && tree.branch_of(
            s.children(x)[i],
        ) == tree.branch_of(x) && tree.branch_of(s.children(x)[j]) == tree.branch_of(x) implies i == j by {
        let c1 = s.children(x)[i];
        let c2 = s.children(x)[j];
        assert(s.children(x).contains(c1) && s.children(x).contains(c2));
        s.lemma_child_depth(x, c1);
        s.lemma_child_depth(x, c2);
        assert(c1 != tree.root() && c2 != tree.root());
        lemma_branch_end(tree, c1);
        lemma_branch_end(tree, c2);
        let e1 = branch_end(tree, c1);
        let e2 = branch_end(tree, c2);
        // both ends are end points of the branch of `x`, so they are one
        law_every_node_lies_in_a_branch_map(tree, c1);
        lemma_end_points(tree);
        let all = seq![tree.root()] + tree.downstream(tree.root());
        let pred = |y: u128| ends_branch(tree, y);
        assert(end_points(tree) == all.filter(pred));
        assert forall|e: u128| tree.has(e) && ends_branch(tree, e) && e != tree.root() implies end_points(tree).contains(e) by {
            lemma_upstream_reaches_root(tree, e);
            assert(s.has(tree.root()));
            s.lemma_downstream_iff_upstream(tree.root(), e);
            let m = choose|m: int| 0 <= m < tree.downstream(tree.root()).len() && tree.downstream(tree.root())[m] == e;
            assert(all[m + 1] == e);
            all.lemma_filter_contains(pred, m + 1);
        }
        let k1 = choose|k: int| 0 <= k < end_points(tree).len() && end_points(tree)[k] == e1;
        let k2 = choose|k: int| 0 <= k < end_points(tree).len() && end_points(tree)[k] == e2;
        assert(tree.branch_of(end_points(tree)[k1]) == tree.branch_of(end_points(tree)[k2]));
        assert(e1 == e2);
        // `c1` and `c2` are `e1` or its ancestors, at one depth, so they are one
        let e = e1;
        let b = tree.branch_of(e);
        let ids = seq![e] + climb(tree, s.parent(e), b);
        assert forall|c: u128| branch_ids_for(tree, e).contains(c) && c != tree.root() implies c == e
            || tree.upstream(e).contains(c) by {
            lemma_push_contains_u128(ids, tree.root(), c);
            lemma_concat_contains(seq![e], climb(tree, s.parent(e), b), c);
            if c != e {
                assert(climb(tree, s.parent(e), b).contains(c));
                assert(s.has(s.parent(e)));
                lemma_climb_upstream(tree, s.parent(e), b, c);
                assert(s.upstream(e) == seq![s.parent(e)] + s.upstream(s.parent(e)));
                lemma_concat_contains(seq![s.parent(e)], s.upstream(s.parent(e)), c);
                if c == s.parent(e) {
                    assert(seq![s.parent(e)][0] == c);
                }
            }
        }
        let up = tree.upstream(e);
        if c1 != c2 {
            if c1 == e {
                let m = choose|m: int| 0 <= m < up.len() && up[m] == c2;
                lemma_upstream_depth(tree, e, m);
            } else if c2 == e {
                let m = choose|m: int| 0 <= m < up.len() && up[m] == c1;
                lemma_upstream_depth(tree, e, m);
            } else {
                let m1 = choose|m: int| 0 <= m < up.len() && up[m] == c1;
                let m2 = choose|m: int| 0 <= m < up.len() && up[m] == c2;
                lemma_upstream_depth(tree, e, m1);
                lemma_upstream_depth(tree, e, m2);
            }
        }
        assert(s.children(x).no_duplicates());
    }
}

/// Whether each coordinate leaves room for the padding on both sides.
pub open spec fn within_bounds(nodules: Seq<Nodule>) -> bool {
    forall|k: int|
        0 <= k < nodules.len() ==> (#[trigger] nodules[k]).x <= u32::MAX - 2 * MAP_PADDING && nodules[k].y
            <= u32::MAX - 2 * MAP_PADDING
}

/// The largest `x` of the nodules, 0 when there are none.
pub open spec fn largest_x(nodules: Seq<Nodule>) -> u32
    decreases nodules.len(),
{
    if nodules.len() == 0 {
        0
    } else if nodules.last().x > largest_x(nodules.drop_last()) {
        nodules.last().x
    } else {
        largest_x(nodules.drop_last())
    }
}

/// The largest `y` of the nodules, 0 when there are none.
pub open spec fn largest_y(nodules: Seq<Nodule>) -> u32
    decreases nodules.len(),
{
    if nodules.len() == 0 {
        0
    } else if nodules.last().y > largest_y(nodules.drop_last()) {
        nodules.last().y
    } else {
        largest_y(nodules.drop_last())
    }
}

pub proof fn lemma_largest_within(nodules: Seq<Nodule>)
    requires
        within_bounds(nodules),
    ensures
        largest_x(nodules) <= u32::MAX - 2 * MAP_PADDING,
        largest_y(nodules) <= u32::MAX - 2 * MAP_PADDING,
    decreases nodules.len(),
{
    if nodules.len() > 0 {
        assert(within_bounds(nodules.drop_last())) by {
            assert forall|k: int| 0 <= k < nodules.drop_last().len() implies (#[trigger] nodules.drop_last()[k]).x
                <= u32::MAX - 2 * MAP_PADDING && nodules.drop_last()[k].y <= u32::MAX - 2 * MAP_PADDING by {
                assert(nodules.drop_last()[k] == nodules[k]);
            }
        }
        lemma_largest_within(nodules.drop_last());
        assert(nodules.last() == nodules[nodules.len() - 1]);
    }
}

/// Every nodule lies within the largest coordinates, which with the padding
/// on both sides make the bounds of a map.
pub proof fn law_bounds_enclose_nodules(nodules: Seq<Nodule>, k: int)
    requires
        0 <= k < nodules.len(),
    ensures
        nodules[k].x <= largest_x(nodules),
        nodules[k].y <= largest_y(nodules),
    decreases nodules.len(),
{
    if k < nodules.len() - 1 {
        law_bounds_enclose_nodules(nodules.drop_last(), k);
        assert(nodules.drop_last()[k] == nodules[k]);
    }
}

/// The largest coordinates are those of some nodule: a map with nodules is
/// bounded no wider and no taller than its nodules and the padding need; a
/// map without nodules has largest coordinates 0.
pub proof fn law_bounds_are_reached(nodules: Seq<Nodule>)
    ensures
        nodules.len() == 0 ==> largest_x(nodules) == 0 && largest_y(nodules) == 0,
        nodules.len() > 0 ==> exists|k: int| 0 <= k < nodules.len() && (#[trigger] nodules[k]).x == largest_x(nodules),
        nodules.len() > 0 ==> exists|k: int| 0 <= k < nodules.len() && (#[trigger] nodules[k]).y == largest_y(nodules),
    decreases nodules.len(),
{
    if nodules.len() > 0 {
        let rest = nodules.drop_last();
        let n = nodules.len() - 1;
        assert(nodules[n] == nodules.last());
        law_bounds_are_reached(rest);
        if rest.len() > 0 {
            if nodules.last().x <= largest_x(rest) {
                let k = choose|k: int| 0 <= k < rest.len() && (#[trigger] rest[k]).x == largest_x(rest);
                assert(nodules[k] == rest[k]);
            }
            if nodules.last().y <= largest_y(rest) {
                let k = choose|k: int| 0 <= k < rest.len() && (#[trigger] rest[k]).y == largest_y(rest);
                assert(nodules[k] == rest[k]);
            }
        }
    }
}

/// The map of a whole tree: its positioned `Nodule`s.
pub struct TreeMap {
    nodules: Vec<Nodule>,
}

impl TreeMap {
    /// Every coordinate leaves room for the padding.
    #[verifier::type_invariant]
    spec fn fits(self) -> bool {
        within_bounds(self.nodules@)
    }

    pub closed spec fn nodules(&self) -> Seq<Nodule> {
        self.nodules@
    }

    // initializing
    /// Creates a new `TreeMap` of the tree: builds its branch maps and assembles
    /// them. The nodules of each branch stand in one column, one row apart;
    /// the branch of the root in column 0, every other branch in a column of
    /// its own; no two nodules share a position; every node is shown where
    /// each branch runs as one line, and none twice where no node has two
    /// children in its own branch. Fails as they fail, when the tree has too many nodes for their
    /// depths to fit in 32 bits, and when a coordinate leaves no room for the
    /// padding.
    pub fn new<P, S, I>(tree: &Tree<P, S, I>) -> (result: Result<TreeMap, MapError>)
        requires
            tree.wf(),
        ensures
            tree.nodes().len() >= u32::MAX - 1 ==> result == Err::<TreeMap, MapError>(MapError::Overflow),
            tree.nodes().len() < u32::MAX - 1 ==> match result {
                Ok(map) => layout(*tree) == Ok::<Seq<Nodule>, MapError>(map.nodules()),
                Err(e) => layout(*tree) == Err::<Seq<Nodule>, MapError>(e) || (e == MapError::Overflow
                    && (layout(*tree) matches Ok(nodules) && !within_bounds(nodules))),
            },
            result matches Ok(map) ==> {
                &&& columns_by_branch(map.nodules(), tree.branch_of(tree.root()))
                &&& no_overlap(map.nodules())
                &&& forall|k: int| 0 <= k < map.nodules().len() ==> tree.has(#[trigger] map.nodules()[k].node_id)
                &&& each_branch_ends_once(*tree) ==> forall|y: u128|
                    tree.has(y) ==> #[trigger] shows_node(map.nodules(), y)
                &&& linear_branches(*tree) ==> forall|a: int, b: int|
                    0 <= a < b < map.nodules().len() ==> (#[trigger] map.nodules()[a]).node_id
                        != (#[trigger] map.nodules()[b]).node_id
            },
    {
        if tree.node_count() >= 4294967294usize {
            return Err(MapError::Overflow);
        }
        proof {
            law_each_branch_stands_in_its_own_column(*tree);
            law_no_two_nodules_share_a_position(*tree);
            law_the_map_shows_only_nodes_of_the_tree(*tree);
            if each_branch_ends_once(*tree) {
                law_the_map_shows_every_node(*tree);
            }
            if linear_branches(*tree) {
                law_no_node_is_placed_twice(*tree);
            }
        }
        let branch_maps = BranchMap::build_branch_maps(tree);
        proof {
            law_the_root_branch_ends(*tree);
        }
        let branch_maps = match branch_maps {
            Ok(branch_maps) => branch_maps,
            Err(e) => {
                return Err(e);
            },
        };
        proof {
            assert(maps_view(branch_maps@) =~= built_maps(*tree));
            assert forall|k: int| 0 <= k < branch_maps@.len() implies (#[trigger] branch_maps@[k]).nodules().len() > 0 by {
                assert(branch_maps@[k].nodules() == nodules_for(*tree, branch_ids_for(*tree, end_points(*tree)[k])));
            }
        }
        let assembled = BranchMap::assemble_nodules(tree, branch_maps);
        let nodules = match assembled {
            Ok(nodules) => nodules,
            Err(e) => {
                return Err(e);
            },
        };
        let mut i: usize = 0;
        while i < nodules.len()
            invariant
                i <= nodules@.len(),
                layout(*tree) == Ok::<Seq<Nodule>, MapError>(nodules@),
                forall|k: int|
                    0 <= k < i ==> (#[trigger] nodules@[k]).x <= u32::MAX - 2 * MAP_PADDING && nodules@[k].y
                        <= u32::MAX - 2 * MAP_PADDING,
            decreases nodules@.len() - i,
        {
            if nodules[i].get_x() > u32::MAX - 2 * MAP_PADDING || nodules[i].get_y() > u32::MAX - 2 * MAP_PADDING {
                return Err(MapError::Overflow);
            }
            i = i + 1;
        }
        Ok(TreeMap { nodules })
    }

    // drawing
    /// Gets the overall size of the rendered `TreeMap`: the largest coordinates
    /// of its `Nodule`s, with the padding on both sides.
    pub fn get_bounds(&self) -> (bounds: (u32, u32))
        ensures
            bounds.0 == largest_x(self.nodules()) + 2 * MAP_PADDING,
            bounds.1 == largest_y(self.nodules()) + 2 * MAP_PADDING,
    {
        proof {
            use_type_invariant(self);
            lemma_largest_within(self.nodules@);
        }
        let mut largest_x_so_far: u32 = 0;
        let mut largest_y_so_far: u32 = 0;
        let mut i: usize = 0;
        while i < self.nodules.len()
            invariant
                i <= self.nodules@.len(),
                largest_x_so_far == largest_x(self.nodules@.take(i as int)),
                largest_y_so_far == largest_y(self.nodules@.take(i as int)),
            decreases self.nodules@.len() - i,
        {
            proof {
                assert(self.nodules@.take(i + 1).drop_last() =~= self.nodules@.take(i as int));
            }
            if self.nodules[i].get_x() > largest_x_so_far {
                largest_x_so_far = self.nodules[i].get_x();
            }
            if self.nodules[i].get_y() > largest_y_so_far {
                largest_y_so_far = self.nodules[i].get_y();
            }
            i = i + 1;
        }
        proof {
            assert(self.nodules@.take(i as int) =~= self.nodules@);
        }
        (largest_x_so_far + 2 * MAP_PADDING, largest_y_so_far + 2 * MAP_PADDING)
    }

    /// Gets the positioned `Nodule`s.
    pub fn get_nodules(&self) -> (nodules: &Vec<Nodule>)
        ensures
            nodules@ == self.nodules(),
    {
        &self.nodules
    }
}

} // verus!
