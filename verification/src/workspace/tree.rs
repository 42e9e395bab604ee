use vstd::prelude::*;

use crate::id::fresh_id;
use crate::workspace::error::TreeError;
use crate::workspace::node::{differs_from, Direction, Node, NodeView};
use crate::workspace::operation::{applied, Edit, Operation};
use crate::workspace::shape::{lemma_concat_contains, lemma_push_contains_u128, Shape};

verus! {

/// The distinct values of `s`, each at the place of its first occurrence.
pub open spec fn first_occurrences(s: Seq<u128>) -> Seq<u128>
    decreases s.len(),
{
    if s.len() == 0 {
        Seq::empty()
    } else {
        let earlier = first_occurrences(s.drop_last());
        if earlier.contains(s.last()) {
            earlier
        } else {
            earlier.push(s.last())
        }
    }
}

/// `first_occurrences` lists each value of `s` once, and nothing else.
pub proof fn lemma_first_occurrences(s: Seq<u128>)
    ensures
        first_occurrences(s).no_duplicates(),
        forall|x: u128| first_occurrences(s).contains(x) <==> s.contains(x),
    decreases s.len(),
{
    if s.len() > 0 {
        let rest = s.drop_last();
        let v = s.last();
        lemma_first_occurrences(rest);
        assert(s =~= rest.push(v));
        let e = first_occurrences(rest);
        assert forall|x: u128| first_occurrences(s).contains(x) <==> s.contains(x) by {
            lemma_push_contains_u128(rest, v, x);
            lemma_push_contains_u128(e, v, x);
        }
    }
}

/// The distinct values of `s` come in the order in which they first occur:
/// a value listed before another occurs in `s` before every occurrence of
/// that other.
pub proof fn lemma_first_occurrences_order(s: Seq<u128>)
    ensures
        forall|i: int, j: int, b: int|
            #![trigger first_occurrences(s)[i], first_occurrences(s)[j], s[b]]
            0 <= i < j < first_occurrences(s).len() && 0 <= b < s.len() && s[b] == first_occurrences(s)[j]
                ==> s.take(b).contains(first_occurrences(s)[i]),
    decreases s.len(),
{
    if s.len() > 0 {
        let rest = s.drop_last();
        let v = s.last();
        let last = s.len() - 1;
        lemma_first_occurrences_order(rest);
        lemma_first_occurrences(rest);
        let e = first_occurrences(rest);
        let f = first_occurrences(s);
        assert forall|i: int, j: int, b: int|
            #![trigger first_occurrences(s)[i], first_occurrences(s)[j], s[b]]
            0 <= i < j < first_occurrences(s).len() && 0 <= b < s.len() && s[b] == first_occurrences(s)[j]
                implies s.take(b).contains(first_occurrences(s)[i]) by {
            assert(f[i] == e[i]);
            assert(e.contains(e[i]));
            assert(rest.contains(e[i]));
            let a0 = choose|a: int| 0 <= a < rest.len() && rest[a] == e[i];
            assert(s[a0] == rest[a0]);
            if b == last {
                assert(s.take(b) =~= rest);
            } else {
                if j < e.len() {
                    assert(f[j] == e[j]);
                    assert(rest[b] == s[b]);
                    assert(e[i] == e[i] && e[j] == e[j] && rest[b] == rest[b]);
                    assert(rest.take(b).contains(e[i]));
                    assert(s.take(b) =~= rest.take(b));
                } else {
                    // `f[j]` is `v`, which does not occur in `rest`
                    assert(f[j] == v);
                    assert(!e.contains(v));
                    assert(rest[b] == v);
                    assert(rest.contains(v));
                }
            }
        }
    }
}

/// `nodes` with the cached image taken out of each node whose id `cleared` lists.
pub open spec fn with_images_cleared<I>(nodes: Seq<NodeView<I>>, cleared: Seq<u128>) -> Seq<NodeView<I>> {
    Seq::new(
        nodes.len(),
        |k: int|
            NodeView {
                image: if cleared.contains(nodes[k].id) {
                    None
                } else {
                    nodes[k].image
                },
                ..nodes[k]
            },
    )
}

/// `after` is `before` with the node `x` holding an image where it may not
/// have held one, and nothing else changed.
pub open spec fn image_refreshed<I>(before: Seq<NodeView<I>>, after: Seq<NodeView<I>>, x: u128) -> bool {
    &&& after.len() == before.len()
    &&& forall|k: int|
        0 <= k < before.len() ==> #[trigger] after[k] == if before[k].id == x {
            NodeView { image: after[k].image, ..before[k] }
        } else {
            before[k]
        }
    &&& forall|k: int| 0 <= k < before.len() && before[k].id == x ==> (#[trigger] after[k]).image is Some
}

/// Whether `v` holds `x`.
pub(crate) fn vec_contains(v: &Vec<u128>, x: u128) -> (found: bool)
    ensures
        found == v@.contains(x),
{
    let mut i: usize = 0;
    while i < v.len()
        invariant
            i <= v@.len(),
            forall|k: int| 0 <= k < i ==> v@[k] != x,
        decreases v@.len() - i,
    {
        if v[i] == x {
            assert(v@[i as int] == x);
            return true;
        }
        i = i + 1;
    }
    false
}

/// Turns a source image into the image that the edits of a tree work on.
pub trait Develop<S>: Sized {
    fn develop(source: &S) -> Self;
}

/// Whether `chain` starts with an image developed from `source` and goes on
/// by applying each of `operations` in turn.
pub open spec fn developed_through<S, I: Develop<S> + Edit + Clone>(
    source: S,
    operations: Seq<Operation>,
    chain: Seq<I>,
) -> bool {
    &&& chain.len() == operations.len() + 1
    &&& call_ensures(<I as Develop<S>>::develop, (&source,), chain[0])
    &&& forall|i: int| 0 <= i < operations.len() ==> applied(#[trigger] operations[i], chain[i], chain[i + 1])
}

/// Holds all the project data.
///
/// `P` is the type of the source path, `S` that of the source image and `I`
/// that of the working images cached in the nodes.
pub struct Tree<P, S, I> {
    /// The source path of the image being edited.
    source_path: Option<P>,
    /// The source image being edited.
    source_image: Option<S>,
    /// All the nodes, the root among them; each keeps track of its own heredity.
    all_nodes: Vec<Node<I>>,
    /// The id of the base `Node` to which all other `Node`s are attached.
    /// It cannot be edited or removed.
    root_id: u128,
    /// Which `Node` is being looked at.
    position: u128,
    /// A rank per node that grows from parent to child.
    rank: Ghost<Map<u128, nat>>,
}

impl<P, S, I> Tree<P, S, I> {
    // model
    /// The nodes, in storage order.
    pub closed spec fn nodes(&self) -> Seq<NodeView<I>> {
        self.all_nodes@.map_values(|n: Node<I>| n@)
    }

    pub closed spec fn root(&self) -> u128 {
        self.root_id
    }

    /// The id of the node being looked at.
    pub closed spec fn pos(&self) -> u128 {
        self.position
    }

    pub closed spec fn rank(&self) -> Map<u128, nat> {
        self.rank@
    }

    pub closed spec fn source(&self) -> Option<S> {
        self.source_image
    }

    pub closed spec fn path(&self) -> Option<P> {
        self.source_path
    }

    pub open spec fn shape(&self) -> Shape {
        Shape {
            links: self.nodes().map_values(|n: NodeView<I>| n.link()),
            root: self.root(),
            rank: self.rank(),
        }
    }

    /// A well-formed tree whose position is one of its nodes.
    pub open spec fn wf(&self) -> bool {
        &&& self.shape().wf()
        &&& self.shape().has(self.pos())
    }

    pub open spec fn has(&self, x: u128) -> bool {
        self.shape().has(x)
    }

    /// The node with id `x`.
    pub open spec fn node(&self, x: u128) -> NodeView<I> {
        self.nodes()[self.shape().index_of(x)]
    }

    pub open spec fn upstream(&self, x: u128) -> Seq<u128> {
        self.shape().upstream(x)
    }

    pub open spec fn downstream(&self, x: u128) -> Seq<u128> {
        self.shape().downstream(x)
    }

    proof fn lemma_node_at(&self, i: int)
        requires
            self.shape().ids().no_duplicates(),
            0 <= i < self.nodes().len(),
        ensures
            self.has(self.nodes()[i].id),
            self.shape().index_of(self.nodes()[i].id) == i,
            self.node(self.nodes()[i].id) == self.nodes()[i],
            self.nodes()[i] == self.all_nodes@[i]@,
    {
        assert(self.shape().links[i] == self.nodes()[i].link());
        self.shape().lemma_index_of(i);
    }

    proof fn lemma_node_of(&self, x: u128)
        requires
            self.shape().ids().no_duplicates(),
            self.has(x),
        ensures
            0 <= self.shape().index_of(x) < self.nodes().len(),
            self.node(x).id == x,
            self.node(x) == self.all_nodes@[self.shape().index_of(x)]@,
            self.node(x).link() == self.shape().link(x),
    {
        self.shape().lemma_has(x);
        let i = self.shape().index_of(x);
        assert(self.shape().links[i] == self.nodes()[i].link());
    }

    // initializing
    /// Creates a new `Tree` holding only a root node with the given ids.
    #[verifier::spinoff_prover]
    pub fn new_with_ids(root_id: u128, root_branch_id: u128) -> (tree: Self)
        ensures
            tree.wf(),
            tree.nodes() == seq![
                NodeView::<I> {
                    id: root_id,
                    branch_id: root_branch_id,
                    parent_id: root_id,
                    children_ids: Seq::empty(),
                    operation: Operation::Root,
                    image: None,
                },
            ],
            tree.root() == root_id,
            tree.pos() == root_id,
            tree.source() is None,
            tree.path() is None,
    {
        let root = Node::new_root_with_ids(root_id, root_branch_id);
        let mut all_nodes: Vec<Node<I>> = Vec::new();
        all_nodes.push(root);
        let ghost first_rank = map![root_id => 0nat];
        let tree = Tree {
            source_path: None,
            source_image: None,
            all_nodes,
            root_id,
            position: root_id,
            rank: Ghost(first_rank),
        };
        proof {
            assert(tree.nodes() =~= seq![root@]);
            assert(tree.shape().ids() =~= seq![root_id]);
            assert(tree.shape().ids()[0] == root_id);
            tree.lemma_node_at(0);
            assert forall|x: u128| tree.has(x) implies x == root_id by {
                let k = choose|k: int| 0 <= k < tree.shape().ids().len() && tree.shape().ids()[k] == x;
            }
        }
        tree
    }

    /// Creates a new `Tree` holding only a root node with fresh ids.
    pub fn new() -> (tree: Self)
        ensures
            tree.wf(),
            tree.nodes().len() == 1,
            tree.nodes()[0].id == tree.root(),
            tree.nodes()[0].parent_id == tree.root(),
            tree.nodes()[0].children_ids == Seq::<u128>::empty(),
            tree.nodes()[0].operation == Operation::Root,
            tree.nodes()[0].image is None,
            tree.pos() == tree.root(),
            tree.root() != 0,
            tree.source() is None,
            tree.path() is None,
    {
        let root_id = fresh_id();
        proof {
            crate::id::lemma_fresh_id_nonzero(root_id);
        }
        let branch_id = fresh_id();
        Tree::new_with_ids(root_id, branch_id)
    }

    /// Sets the source path and the source image loaded from it.
    pub fn set_source(&mut self, path: P, image: S)
        ensures
            final(self).source() == Some(image),
            final(self).path() == Some(path),
            final(self).nodes() == old(self).nodes(),
            final(self).root() == old(self).root(),
            final(self).pos() == old(self).pos(),
            final(self).rank() == old(self).rank(),
    {
        self.source_path = Some(path);
        self.source_image = Some(image);
    }

    // basic getters
    /// Gets the source image of the `Tree`.
    pub fn get_image(&self) -> (image: Option<&S>)
        ensures
            image.is_some() == self.source().is_some(),
            image.is_some() ==> self.source() == Some(*image.unwrap()),
    {
        match &self.source_image {
            Some(image) => Some(image),
            None => None,
        }
    }

    /// The number of `Node`s, the root among them.
    pub fn node_count(&self) -> (count: usize)
        ensures
            count == self.nodes().len(),
    {
        self.all_nodes.len()
    }

    /// Gets the id of the `Node` being looked at.
    pub fn get_position(&self) -> (position: u128)
        ensures
            position == self.pos(),
    {
        self.position
    }

    /// Where the node with the given id is stored, if there is one.
    #[verifier::spinoff_prover]
    fn find(&self, id: u128) -> (index: Option<usize>)
        requires
            self.shape().ids().no_duplicates(),
        ensures
            index is Some <==> self.has(id),
            index is Some ==> index.unwrap() == self.shape().index_of(id)
                && index.unwrap() < self.nodes().len() && self.nodes()[index.unwrap() as int].id == id,
    {
        let mut i: usize = 0;
        while i < self.all_nodes.len()
            invariant
                i <= self.all_nodes@.len(),
                self.shape().ids().no_duplicates(),
                forall|k: int| 0 <= k < i ==> self.shape().ids()[k] != id,
            decreases self.all_nodes@.len() - i,
        {
            proof {
                self.lemma_node_at(i as int);
            }
            if self.all_nodes[i].get_id() == id {
                return Some(i);
            }
            i = i + 1;
        }
        None
    }

    /// Gets an immutable reference to a `Node` in the `Tree`.
    pub fn get(&self, id: u128) -> (result: Result<&Node<I>, TreeError>)
        requires
            self.wf(),
        ensures
            result is Ok <==> self.has(id),
            result is Ok ==> result.unwrap()@ == self.node(id),
            result is Err ==> result == Err::<&Node<I>, TreeError>(TreeError::NodeNotFound(id)),
    {
        match self.find(id) {
            Some(i) => {
                proof {
                    self.lemma_node_at(i as int);
                }
                Ok(&self.all_nodes[i])
            },
            None => Err(TreeError::NodeNotFound(id)),
        }
    }

    /// Gets a mutable reference to a `Node` in the `Tree`.
    ///
    /// Edits made through it are not checked against the shape of the tree:
    /// the tree is well formed afterwards only if they keep it so.
    pub fn get_mut(&mut self, id: u128) -> (result: Option<&mut Node<I>>)
        requires
            old(self).wf(),
        ensures
            result is Some <==> old(self).has(id),
            result is None ==> final(self).nodes() == old(self).nodes(),
            result is Some ==> (*result.unwrap())@ == old(self).node(id),
            result is Some ==> final(self).nodes() == old(self).nodes().update(
                old(self).shape().index_of(id),
                (*final(result.unwrap()))@,
            ),
            final(self).root() == old(self).root(),
            final(self).pos() == old(self).pos(),
            final(self).rank() == old(self).rank(),
            final(self).source() == old(self).source(),
            final(self).path() == old(self).path(),
    {
        match self.find(id) {
            Some(i) => {
                proof {
                    self.lemma_node_at(i as int);
                }
                Some(&mut self.all_nodes[i])
            },
            None => None,
        }
    }

    /// Gets the root `Node`.
    pub fn get_root(&self) -> (root: &Node<I>)
        requires
            self.wf(),
        ensures
            root@ == self.node(self.root()),
    {
        let i = self.find(self.root_id).unwrap();
        proof {
            self.lemma_node_at(i as int);
        }
        &self.all_nodes[i]
    }

    // traversal
    /// The branch of the node `x`.
    pub open spec fn branch_of(&self, x: u128) -> u128 {
        self.node(x).branch_id
    }

    /// The branches of the children of `x` other than the branch of `x`,
    /// in the order of the children.
    pub open spec fn other_branches(&self, x: u128) -> Seq<u128> {
        self.shape().children(x).map_values(|c: u128| self.branch_of(c)).filter(
            differs_from(self.branch_of(x)),
        )
    }

    /// The branches that start right below `x` are exactly the branches of
    /// its children other than the branch of `x`.
    pub proof fn lemma_other_branches_members(&self, x: u128)
        ensures
            forall|b: u128|
                #[trigger] self.other_branches(x).contains(b) <==> b != self.branch_of(x) && exists|c: u128|
                    #[trigger] self.shape().children(x).contains(c) && self.branch_of(c) == b,
    {
        let ch = self.shape().children(x);
        let mapped = ch.map_values(|c: u128| self.branch_of(c));
        let pred = differs_from(self.branch_of(x));
        assert forall|b: u128| #[trigger] self.other_branches(x).contains(b) <==> b != self.branch_of(x) && exists|c: u128|
            #[trigger] ch.contains(c) && self.branch_of(c) == b by {
            if self.other_branches(x).contains(b) {
                mapped.lemma_filter_contains_rev(pred, b);
                let k = choose|k: int| 0 <= k < self.other_branches(x).len() && self.other_branches(x)[k] == b;
                mapped.lemma_filter_pred(pred, k);
                let i = choose|i: int| 0 <= i < mapped.len() && mapped[i] == b;
                assert(ch.contains(ch[i]));
            }
            if b != self.branch_of(x) && exists|c: u128| #[trigger] ch.contains(c) && self.branch_of(c) == b {
                let c = choose|c: u128| #[trigger] ch.contains(c) && self.branch_of(c) == b;
                let i = choose|i: int| 0 <= i < ch.len() && ch[i] == c;
                assert(mapped[i] == b);
                mapped.lemma_filter_contains(pred, i);
            }
        }
    }

    /// Gets the branches that start right below the given `Node`: those of
    /// its children that lie in another branch than it, in order.
    #[verifier::spinoff_prover]
    #[verifier::rlimit(40)]
    pub fn get_other_downstream_branches(&self, node_id: u128) -> (result: Result<Vec<u128>, TreeError>)
        requires
            self.wf(),
        ensures
            result is Ok <==> self.has(node_id),
            result is Ok ==> result.unwrap()@ == self.other_branches(node_id),
            result is Ok ==> forall|b: u128|
                #[trigger] result.unwrap()@.contains(b) <==> b != self.branch_of(node_id) && exists|c: u128|
                    #[trigger] self.shape().children(node_id).contains(c) && self.branch_of(c) == b,
            result is Err ==> result == Err::<Vec<u128>, TreeError>(TreeError::NodeNotFound(node_id)),
    {
        let found = self.find(node_id);
        if found.is_none() {
            return Err(TreeError::NodeNotFound(node_id));
        }
        let i = found.unwrap();
        proof {
            self.lemma_node_at(i as int);
            self.lemma_node_of(node_id);
        }
        let own = self.all_nodes[i].get_branch_id();
        let children = self.all_nodes[i].get_children_ids();
        let ghost pred = differs_from(own);
        let ghost mapped = children@.map_values(|c: u128| self.branch_of(c));
        let mut others: Vec<u128> = Vec::new();
        let mut j: usize = 0;
        while j < children.len()
            invariant
                self.wf(),
                j <= children@.len(),
                children@ == self.shape().children(node_id),
                self.has(node_id),
                pred == differs_from(own),
                own == self.branch_of(node_id),
                mapped == children@.map_values(|c: u128| self.branch_of(c)),
                others@ == mapped.take(j as int).filter(pred),
            decreases children@.len() - j,
        {
            let c = children[j];
            proof {
                assert(self.shape().children(node_id).contains(c));
                assert(self.has(c));
                self.lemma_node_of(c);
                reveal(Seq::filter);
                assert(mapped.take(j + 1).drop_last() =~= mapped.take(j as int));
            }
            let ci = self.find(c).unwrap();
            proof {
                self.lemma_node_at(ci as int);
            }
            let b = self.all_nodes[ci].get_branch_id();
            if b != own {
                others.push(b);
            }
            j = j + 1;
        }
        proof {
            assert(mapped.take(j as int) =~= mapped);
            self.lemma_other_branches_members(node_id);
        }
        Ok(others)
    }

    /// Gets all the upstream `Node`s from the given `Node`, its parent first.
    /// This does not include the given `Node`.
    #[verifier::spinoff_prover]
    #[verifier::rlimit(40)]
    pub fn get_all_upstream_nodes(&self, node_id: u128) -> (result: Result<Vec<u128>, TreeError>)
        requires
            self.wf(),
        ensures
            result is Ok <==> self.has(node_id),
            result is Ok ==> result.unwrap()@ == self.upstream(node_id),
            result is Err ==> result == Err::<Vec<u128>, TreeError>(TreeError::NodeNotFound(node_id)),
    {
        let start = self.find(node_id);
        if start.is_none() {
            return Err(TreeError::NodeNotFound(node_id));
        }
        let mut index = start.unwrap();
        let mut current = node_id;
        let mut all: Vec<u128> = Vec::new();
        proof {
            assert(all@ + self.upstream(current) =~= self.upstream(node_id));
        }
        while !self.all_nodes[index].is_root()
            invariant
                self.wf(),
                self.has(current),
                index == self.shape().index_of(current),
                index < self.nodes().len(),
                all@ + self.upstream(current) == self.upstream(node_id),
            decreases self.rank()[current],
        {
            proof {
                self.lemma_node_of(current);
            }
            let parent = self.all_nodes[index].get_parent_id();
            proof {
                assert(current != self.root());
                assert(self.upstream(current) == seq![parent] + self.upstream(parent));
                assert(all@.push(parent) + self.upstream(parent) =~= all@ + self.upstream(current));
            }
            all.push(parent);
            current = parent;
            index = self.find(parent).unwrap();
        }
        proof {
            self.lemma_node_of(current);
            if current != self.root() {
                assert(self.rank()[self.shape().parent(current)] < self.rank()[current]);
            }
            assert(all@ =~= all@ + self.upstream(current));
        }
        Ok(all)
    }

    /// Gets all the downstream `Node`s from the given `Node`, generation by
    /// generation. This does not include the given `Node`.
    #[verifier::spinoff_prover]
    #[verifier::rlimit(40)]
    pub fn get_all_downstream_nodes(&self, node_id: u128) -> (result: Result<Vec<u128>, TreeError>)
        requires
            self.wf(),
        ensures
            result is Ok <==> self.has(node_id),
            result is Ok ==> result.unwrap()@ == self.downstream(node_id),
            result is Ok ==> result.unwrap()@.no_duplicates(),
            result is Err ==> result == Err::<Vec<u128>, TreeError>(TreeError::NodeNotFound(node_id)),
    {
        let start = self.find(node_id);
        if start.is_none() {
            return Err(TreeError::NodeNotFound(node_id));
        }
        proof {
            self.lemma_node_at(start.unwrap() as int);
        }
        let mut frontier = self.all_nodes[start.unwrap()].get_children_ids();
        let mut all: Vec<u128> = Vec::new();
        let ghost n = self.nodes().len();
        let ghost mut level: nat = 0;
        let ghost shape = self.shape();
        proof {
            self.lemma_node_of(node_id);
            assert forall|k: int| 0 <= k < frontier@.len() implies shape.has(#[trigger] frontier@[k]) && shape.rank[frontier@[k]] >= level by {
                assert(shape.children(node_id).contains(frontier@[k]));
            }
            assert(all@ + shape.levels(frontier@, (n - level) as nat) =~= self.downstream(node_id));
        }
        while frontier.len() > 0
            invariant
                self.wf(),
                shape == self.shape(),
                n == self.nodes().len(),
                level <= n,
                forall|k: int| 0 <= k < frontier@.len() ==> shape.has(#[trigger] frontier@[k]) && shape.rank[frontier@[k]] >= level,
                all@ + shape.levels(frontier@, (n - level) as nat) == self.downstream(node_id),
            decreases n - level,
        {
            proof {
                assert(shape.has(frontier@[0]));
                assert(level < n);
            }
            let next = self.expand_frontier(&frontier);
            proof {
                shape.lemma_expand_members(frontier@, level as int);
                shape.lemma_levels_unfold(frontier@, (n - level) as nat);
                assert(all@ + frontier@ + shape.levels(next@, (n - level - 1) as nat) =~= all@ + shape.levels(frontier@, (n - level) as nat));
                level = level + 1;
            }
            all.append(&mut frontier);
            frontier = next;
        }
        proof {
            assert(all@ =~= all@ + shape.levels(frontier@, (n - level) as nat));
            shape.lemma_downstream_no_duplicates(node_id);
        }
        Ok(all)
    }

    /// The children of the nodes of `frontier`, in order.
    #[verifier::spinoff_prover]
    fn expand_frontier(&self, frontier: &Vec<u128>) -> (next: Vec<u128>)
        requires
            self.wf(),
            forall|k: int| 0 <= k < frontier@.len() ==> self.has(#[trigger] frontier@[k]),
        ensures
            next@ == self.shape().expand(frontier@),
    {
        let ghost shape = self.shape();
        let mut next: Vec<u128> = Vec::new();
        let mut j: usize = 0;
        while j < frontier.len()
            invariant
                self.wf(),
                shape == self.shape(),
                j <= frontier@.len(),
                forall|k: int| 0 <= k < frontier@.len() ==> shape.has(#[trigger] frontier@[k]),
                next@ == shape.expand(frontier@.take(j as int)),
            decreases frontier@.len() - j,
        {
            let f = frontier[j];
            let i = self.find(f).unwrap();
            proof {
                self.lemma_node_of(f);
                shape.lemma_expand_take(frontier@, j as int);
            }
            let mut more = self.all_nodes[i].get_children_ids();
            next.append(&mut more);
            j = j + 1;
        }
        proof {
            assert(frontier@.take(frontier@.len() as int) =~= frontier@);
        }
        next
    }

    /// Gets all the farthest downstream `Node`s from the given `Node`, those
    /// without children, breadth first. This includes the given `Node` if it
    /// has no children.
    #[verifier::spinoff_prover]
    #[verifier::rlimit(40)]
    pub fn get_downstream_end_nodes(&self, node_id: u128) -> (result: Result<Vec<u128>, TreeError>)
        requires
            self.wf(),
        ensures
            result is Ok <==> self.has(node_id),
            result is Ok ==> result.unwrap()@ == self.shape().end_nodes(node_id),
            result is Ok ==> forall|y: u128|
                #[trigger] result.unwrap()@.contains(y) <==> self.has(y) && (y == node_id || self.upstream(y).contains(
                    node_id,
                )) && self.shape().children(y).len() == 0,
            result is Err ==> result == Err::<Vec<u128>, TreeError>(TreeError::NodeNotFound(node_id)),
    {
        let downstream = self.get_all_downstream_nodes(node_id);
        if downstream.is_err() {
            return Err(TreeError::NodeNotFound(node_id));
        }
        let mut candidates: Vec<u128> = Vec::new();
        candidates.push(node_id);
        let mut rest = downstream.unwrap();
        candidates.append(&mut rest);
        let ghost shape = self.shape();
        let ghost pred = shape.is_end();
        proof {
            assert(candidates@ =~= seq![node_id] + self.downstream(node_id));
            shape.lemma_downstream_members(node_id);
        }
        let mut ends: Vec<u128> = Vec::new();
        let mut j: usize = 0;
        while j < candidates.len()
            invariant
                self.wf(),
                shape == self.shape(),
                pred == shape.is_end(),
                j <= candidates@.len(),
                candidates@ == seq![node_id] + self.downstream(node_id),
                forall|k: int| 0 <= k < candidates@.len() ==> shape.has(#[trigger] candidates@[k]),
                ends@ == candidates@.take(j as int).filter(pred),
            decreases candidates@.len() - j,
        {
            let c = candidates[j];
            proof {
                assert(shape.has(candidates@[j as int]));
                self.lemma_node_of(c);
                reveal(Seq::filter);
                assert(candidates@.take(j + 1).drop_last() =~= candidates@.take(j as int));
            }
            let i = self.find(c).unwrap();
            if !self.all_nodes[i].has_child() {
                ends.push(c);
            }
            j = j + 1;
        }
        proof {
            assert(candidates@.take(candidates@.len() as int) =~= candidates@);
            assert(self.has(node_id));
            assert(ends@ == self.shape().end_nodes(node_id));
            self.lemma_end_nodes_exactly(node_id);
        }
        Ok(ends)
    }

    /// The end nodes of `x` are exactly the nodes without children at or
    /// below `x`.
    pub proof fn lemma_end_nodes_exactly(&self, x: u128)
        requires
            self.wf(),
            self.has(x),
        ensures
            forall|y: u128|
                #[trigger] self.shape().end_nodes(x).contains(y) <==> self.has(y) && (y == x || self.upstream(
                    y,
                ).contains(x)) && self.shape().children(y).len() == 0,
    {
        let s = self.shape();
        s.lemma_end_nodes_members(x);
        assert forall|y: u128| #[trigger] s.end_nodes(x).contains(y) <==> self.has(y) && (y == x || self.upstream(
            y,
        ).contains(x)) && s.children(y).len() == 0 by {
            if s.end_nodes(x).contains(y) {
                let k = choose|k: int| 0 <= k < s.end_nodes(x).len() && s.end_nodes(x)[k] == y;
                assert(s.has(s.end_nodes(x)[k]));
                s.lemma_end_nodes_below(x, y);
            }
            if self.has(y) && (y == x || self.upstream(y).contains(x)) && s.children(y).len() == 0 {
                s.lemma_end_nodes_complete(x, y);
            }
        }
    }

    /// Whether nodes already follow the position, so that a node added there
    /// as a branch starts a new branch.
    pub open spec fn opens_branch(&self) -> bool {
        self.shape().children(self.pos()).len() > 0
    }

    /// The branch ids of the nodes, in storage order.
    pub open spec fn branch_ids(&self) -> Seq<u128> {
        self.nodes().map_values(|n: NodeView<I>| n.branch_id)
    }

    /// Gets every branch id, once each, in the order of the first node of
    /// each branch.
    #[verifier::spinoff_prover]
    #[verifier::rlimit(40)]
    pub fn get_branch_ids(&self) -> (branches: Vec<u128>)
        ensures
            branches@ == first_occurrences(self.branch_ids()),
            branches@.no_duplicates(),
            forall|i: int, j: int, b: int|
                #![trigger branches@[i], branches@[j], self.branch_ids()[b]]
                0 <= i < j < branches@.len() && 0 <= b < self.nodes().len() && self.branch_ids()[b] == branches@[j]
                    ==> self.branch_ids().take(b).contains(branches@[i]),
            forall|b: u128| branches@.contains(b) <==> self.branch_ids().contains(b),
    {
        let mut branches: Vec<u128> = Vec::new();
        let mut i: usize = 0;
        while i < self.all_nodes.len()
            invariant
                i <= self.all_nodes@.len(),
                branches@ == first_occurrences(self.branch_ids().take(i as int)),
            decreases self.all_nodes@.len() - i,
        {
            let b = self.all_nodes[i].get_branch_id();
            proof {
                assert(self.branch_ids().take(i + 1).drop_last() =~= self.branch_ids().take(i as int));
                assert(self.nodes()[i as int] == self.all_nodes@[i as int]@);
            }
            if !vec_contains(&branches, b) {
                branches.push(b);
            }
            i = i + 1;
        }
        proof {
            assert(self.branch_ids().take(i as int) =~= self.branch_ids());
            lemma_first_occurrences(self.branch_ids());
            lemma_first_occurrences_order(self.branch_ids());
            assert(self.branch_ids().len() == self.nodes().len());
        }
        branches
    }

    // resource management
    /// The ids whose cached images pruning from `start` in `direction` clears.
    pub open spec fn prune_list(&self, start: u128, direction: Direction) -> Seq<u128> {
        match direction {
            Direction::UpStream => self.upstream(start),
            Direction::DownStream => self.downstream(start),
        }
    }

    /// Clears all cached images in all the `Node`s `UpStream` or `DownStream`
    /// of the `starting_node_id`. This does not affect the given `Node`.
    #[verifier::spinoff_prover]
    #[verifier::rlimit(40)]
    pub fn prune(&mut self, starting_node_id: u128, direction: Direction) -> (result: Result<(), TreeError>)
        requires
            old(self).wf(),
        ensures
            final(self).wf(),
            final(self).shape() == old(self).shape(),
            final(self).pos() == old(self).pos(),
            final(self).source() == old(self).source(),
            final(self).path() == old(self).path(),
            result is Ok <==> old(self).has(starting_node_id),
            result is Err ==> final(self).nodes() == old(self).nodes() && result
                == Err::<(), TreeError>(TreeError::NodeNotFound(starting_node_id)),
            result is Ok ==> final(self).nodes() == with_images_cleared(
                old(self).nodes(),
                old(self).prune_list(starting_node_id, direction),
            ),
    {
        let ids = match direction {
            Direction::UpStream => self.get_all_upstream_nodes(starting_node_id),
            Direction::DownStream => self.get_all_downstream_nodes(starting_node_id),
        };
        if ids.is_err() {
            return Err(TreeError::NodeNotFound(starting_node_id));
        }
        let ids = ids.unwrap();
        let ghost old_nodes = self.nodes();
        let ghost shape = self.shape();
        proof {
            match direction {
                Direction::UpStream => shape.lemma_upstream_members(starting_node_id),
                Direction::DownStream => shape.lemma_downstream_members(starting_node_id),
            }
            assert(old_nodes =~= with_images_cleared(old_nodes, ids@.take(0)));
        }
        let mut j: usize = 0;
        while j < ids.len()
            invariant
                shape.wf(),
                shape.has(self.pos()),
                shape == self.shape(),
                old_nodes.map_values(|n: NodeView<I>| n.link()) == shape.links,
                self.pos() == old(self).pos(),
                self.source() == old(self).source(),
                self.path() == old(self).path(),
                j <= ids@.len(),
                forall|k: int| 0 <= k < ids@.len() ==> shape.has(#[trigger] ids@[k]),
                self.nodes() == with_images_cleared(old_nodes, ids@.take(j as int)),
            decreases ids@.len() - j,
        {
            let x = ids[j];
            proof {
                assert(shape.has(ids@[j as int]));
                shape.lemma_has(x);
            }
            let i = self.find(x).unwrap();
            let ghost before = self.nodes();
            self.all_nodes[i].set_image(None);
            proof {
                let t = ids@.take(j as int);
                assert(ids@.take(j + 1) =~= t.push(x));
                assert(self.nodes() =~= before.update(i as int, NodeView { image: None, ..before[i as int] }));
                assert forall|k: int| 0 <= k < old_nodes.len() implies
                    #[trigger] with_images_cleared(old_nodes, t.push(x))[k]
                        == before.update(i as int, NodeView { image: None, ..before[i as int] })[k] by {
                    lemma_push_contains_u128(t, x, old_nodes[k].id);
                    assert(shape.links[k] == old_nodes[k].link());
                    assert(shape.ids()[k] == old_nodes[k].id);
                    assert(shape.ids()[i as int] == x);
                }
                assert(with_images_cleared(old_nodes, t.push(x)) =~= self.nodes());
                assert(self.shape().links =~= shape.links);
            }
            j = j + 1;
        }
        proof {
            assert(ids@.take(j as int) =~= ids@);
        }
        Ok(())
    }
}

impl<P, S, I: Develop<S> + Edit + Clone> Tree<P, S, I> {
    /// `after` is this tree with a node `new_id` carrying `operation` added
    /// below the position as its last child, in the branch `new_branch_id`:
    /// the position moved to it, its image generated, and the cached images
    /// upstream of it cleared.
    pub open spec fn branch_added(&self, after: &Self, operation: Operation, new_id: u128, new_branch_id: u128) -> bool {
            &&& after.pos() == new_id
            &&& after.shape() == self.shape().branched(self.pos(), new_id)
            &&& after.upstream(new_id) == seq![self.pos()] + self.upstream(self.pos())
            &&& after.nodes().len() == self.nodes().len() + 1
            &&& forall|k: int|
                0 <= k < self.nodes().len() ==> {
                    &&& #[trigger] after.nodes()[k].branch_id == self.nodes()[k].branch_id
                    &&& after.nodes()[k].operation == self.nodes()[k].operation
                    &&& after.nodes()[k].image == if after.upstream(new_id).contains(
                        self.nodes()[k].id,
                    ) {
                        None
                    } else {
                        self.nodes()[k].image
                    }
                }
            &&& after.node(new_id).branch_id == new_branch_id
            &&& after.node(new_id).operation == operation
            &&& after.holds_generated_image(new_id)
    }

    /// `after` is this tree with a node `new_id` carrying `operation` put
    /// between the position and its children, in the branch of the position:
    /// the position moved to it, its image generated, and the cached images
    /// upstream and downstream of it cleared.
    pub open spec fn node_added(&self, after: &Self, operation: Operation, new_id: u128) -> bool {
            &&& after.pos() == new_id
            &&& after.shape() == self.shape().inserted(self.pos(), new_id)
            &&& after.upstream(new_id) == seq![self.pos()] + self.upstream(self.pos())
            &&& after.nodes().len() == self.nodes().len() + 1
            &&& forall|k: int|
                0 <= k < self.nodes().len() ==> {
                    &&& #[trigger] after.nodes()[k].branch_id == self.nodes()[k].branch_id
                    &&& after.nodes()[k].operation == self.nodes()[k].operation
                    &&& after.nodes()[k].image == if after.upstream(new_id).contains(
                        self.nodes()[k].id,
                    ) || after.downstream(new_id).contains(self.nodes()[k].id) {
                        None
                    } else {
                        self.nodes()[k].image
                    }
                }
            &&& after.node(new_id).branch_id == self.node(self.pos()).branch_id
            &&& after.node(new_id).operation == operation
            &&& after.holds_generated_image(new_id)
    }
}

impl<P, S, I: Develop<S> + Edit + Clone> Tree<P, S, I> {
    /// The operations of the nodes from the root down to `x`, in that order.
    pub open spec fn path_operations(&self, x: u128) -> Seq<Operation> {
        Seq::new(
            self.upstream(x).len() + 1,
            |m: int|
                if m < self.upstream(x).len() {
                    self.node(self.upstream(x)[self.upstream(x).len() - 1 - m]).operation
                } else {
                    self.node(x).operation
                },
        )
    }

    /// The operations down to a node other than the root are those down to
    /// its parent, then its own.
    pub proof fn lemma_path_operations_step(&self, x: u128)
        requires
            self.wf(),
            self.has(x),
            x != self.root(),
        ensures
            self.path_operations(x) == self.path_operations(self.shape().parent(x)).push(self.node(x).operation),
    {
        let s = self.shape();
        let p = s.parent(x);
        assert(s.has(p));
        let up = self.upstream(x);
        let upp = self.upstream(p);
        assert(up == seq![p] + upp);
        let a = self.path_operations(x);
        let b = self.path_operations(p).push(self.node(x).operation);
        assert forall|m: int| 0 <= m < a.len() implies a[m] == b[m] by {
            if m < upp.len() {
                assert(up[up.len() - 1 - m] == upp[upp.len() - 1 - m]);
            } else if m == upp.len() {
                assert(up[up.len() - 1 - m] == p);
            }
        }
        assert(a =~= b);
    }

    /// The operations down to the root are the root's own.
    pub proof fn lemma_path_operations_root(&self)
        requires
            self.wf(),
        ensures
            self.path_operations(self.root()) == seq![self.node(self.root()).operation],
    {
        assert(self.upstream(self.root()) == Seq::<u128>::empty());
        assert(self.path_operations(self.root()) =~= seq![self.node(self.root()).operation]);
    }

    /// Whether `image` is what generating the image of node `x` gives: the
    /// source image developed, then taken through one operation per node
    /// from the root down to `x`. Only the source, the shape and the
    /// operations enter it, never a cached image.
    pub open spec fn generates(&self, x: u128, image: I) -> bool {
        exists|chain: Seq<I>|
            developed_through(self.source().unwrap(), self.path_operations(x), chain) && chain.last() == image
    }

    /// Whether node `x` holds the image that generating it gives: the source
    /// image developed, then taken through one operation per node from the
    /// root down to `x`.
    #[verifier::opaque]
    pub open spec fn holds_generated_image(&self, x: u128) -> bool {
        &&& self.source() is Some
        &&& self.node(x).image is Some
        &&& exists|chain: Seq<I>|
            developed_through(self.source().unwrap(), self.path_operations(x), chain) && chain.last()
                == self.node(x).image.unwrap()
    }

    /// A node keeps its generated image in a tree of the same shape and
    /// source where its image is left as it was.
    proof fn lemma_generated_image_kept(&self, other: &Self, x: u128)
        requires
            self.holds_generated_image(x),
            other.shape() == self.shape(),
            other.source() == self.source(),
            other.node(x).image == self.node(x).image,
            forall|y: u128| #[trigger] self.has(y) ==> other.node(y).operation == self.node(y).operation,
            self.wf(),
            self.has(x),
        ensures
            other.holds_generated_image(x),
    {
        reveal(Tree::holds_generated_image);
        self.shape().lemma_upstream_members(x);
        assert(other.path_operations(x) =~= self.path_operations(x)) by {
            assert forall|m: int| 0 <= m < self.path_operations(x).len() implies other.path_operations(x)[m]
                == self.path_operations(x)[m] by {
                if m < self.upstream(x).len() {
                    assert(self.has(self.upstream(x)[self.upstream(x).len() - 1 - m]));
                }
            }
        }
    }

    /// Pruning from `x` keeps the generated image that `x` holds.
    proof fn lemma_pruned_keeps_generated_image(&self, other: &Self, x: u128, direction: Direction)
        requires
            self.wf(),
            self.has(x),
            self.holds_generated_image(x),
            other.shape() == self.shape(),
            other.source() == self.source(),
            other.nodes() == with_images_cleared(self.nodes(), self.prune_list(x, direction)),
        ensures
            other.holds_generated_image(x),
    {
        crate::workspace::laws::law_prune_spares_the_start(self, x, direction);
        self.shape().lemma_has(x);
        let i = self.shape().index_of(x);
        assert(other.node(x) == other.nodes()[i]);
        assert forall|y: u128| #[trigger] self.has(y) implies other.node(y).operation == self.node(y).operation by {
            self.shape().lemma_has(y);
        }
        self.lemma_generated_image_kept(other, x);
    }
}

impl<P, S, I: Develop<S> + Edit + Clone> Tree<P, S, I> {
    /// Generates a new image for the given `Node`: the developed source image
    /// with the operation of every node from the root down to the given one
    /// applied in turn.
    #[verifier::spinoff_prover]
    pub fn generate_image_for(&self, node_id: u128) -> (result: Result<I, TreeError>)
        requires
            self.wf(),
        ensures
            result is Ok <==> self.has(node_id) && self.source() is Some,
            !self.has(node_id) ==> result == Err::<I, TreeError>(TreeError::NodeNotFound(node_id)),
            self.has(node_id) && self.source() is None ==> result == Err::<I, TreeError>(
                TreeError::NoSourceImage,
            ),
            result is Ok ==> self.generates(node_id, result.unwrap()),
    {
        let upstream = self.get_all_upstream_nodes(node_id);
        if upstream.is_err() {
            return Err(TreeError::NodeNotFound(node_id));
        }
        let upstream = upstream.unwrap();
        let source = match &self.source_image {
            Some(source) => source,
            None => {
                return Err(TreeError::NoSourceImage);
            },
        };
        proof {
            self.shape().lemma_upstream_members(node_id);
        }
        let mut image = I::develop(source);
        let ghost mut chain: Seq<I> = seq![image];
        let ghost ops = self.path_operations(node_id);
        let mut k = upstream.len();
        while k > 0
            invariant
                self.wf(),
                self.has(node_id),
                upstream@ == self.upstream(node_id),
                ops == self.path_operations(node_id),
                k <= upstream@.len(),
                forall|m: int| 0 <= m < upstream@.len() ==> self.has(#[trigger] upstream@[m]),
                self.source() == Some(*source),
                chain.len() == upstream@.len() - k + 1,
                call_ensures(<I as Develop<S>>::develop, (source,), chain[0]),
                forall|m: int| 0 <= m < chain.len() - 1 ==> applied(#[trigger] ops[m], chain[m], chain[m + 1]),
                chain.last() == image,
            decreases k,
        {
            k = k - 1;
            let ancestor = upstream[k];
            proof {
                assert(self.has(upstream@[k as int]));
                self.lemma_node_of(ancestor);
            }
            let i = self.find(ancestor).unwrap();
            proof {
                self.lemma_node_at(i as int);
            }
            let ghost previous = chain;
            image = self.all_nodes[i].get_operation().applied_to(&image);
            proof {
                chain = previous.push(image);
                let m0 = previous.len() - 1;
                assert(ops[m0] == self.node(ancestor).operation);
                assert forall|m: int| 0 <= m < chain.len() - 1 implies applied(#[trigger] ops[m], chain[m], chain[m + 1]) by {
                    if m < m0 {
                        assert(chain[m] == previous[m]);
                        assert(chain[m + 1] == previous[m + 1]);
                    }
                }
            }
        }
        let i = self.find(node_id).unwrap();
        proof {
            self.lemma_node_at(i as int);
        }
        let ghost previous = chain;
        image = self.all_nodes[i].get_operation().applied_to(&image);
        proof {
            chain = previous.push(image);
            let m0 = previous.len() - 1;
            assert(ops[m0] == self.node(node_id).operation);
            assert forall|m: int| 0 <= m < chain.len() - 1 implies applied(#[trigger] ops[m], chain[m], chain[m + 1]) by {
                if m < m0 {
                    assert(chain[m] == previous[m]);
                    assert(chain[m + 1] == previous[m + 1]);
                }
            }
            assert(developed_through(*source, ops, chain));
            assert(chain.last() == image);
            assert(self.source().unwrap() == *source);
            assert(exists|c: Seq<I>| developed_through(self.source().unwrap(), self.path_operations(node_id), c)
                && c.last() == image);
            assert(self.generates(node_id, image));
        }
        Ok(image)
    }

    /// Updates the cached image for the given `Node`.
    #[verifier::spinoff_prover]
    pub fn update_image_for(&mut self, node_id: u128) -> (result: Result<(), TreeError>)
        requires
            old(self).wf(),
        ensures
            final(self).wf(),
            final(self).shape() == old(self).shape(),
            final(self).pos() == old(self).pos(),
            final(self).source() == old(self).source(),
            final(self).path() == old(self).path(),
            result is Ok <==> old(self).has(node_id) && old(self).source() is Some,
            !old(self).has(node_id) ==> result == Err::<(), TreeError>(TreeError::NodeNotFound(node_id)),
            old(self).has(node_id) && old(self).source() is None ==> result == Err::<(), TreeError>(
                TreeError::NoSourceImage,
            ),
            result is Err ==> final(self).nodes() == old(self).nodes(),
            result is Ok ==> image_refreshed(old(self).nodes(), final(self).nodes(), node_id)
                && final(self).holds_generated_image(node_id),
    {
        let new_image = self.generate_image_for(node_id);
        match new_image {
            Err(e) => Err(e),
            Ok(new_image) => {
                let i = self.find(node_id).unwrap();
                let ghost before = self.nodes();
                let ghost shape = self.shape();
                let ghost old_tree = *self;
                proof {
                    self.lemma_node_at(i as int);
                }
                self.all_nodes[i].set_image(Some(new_image));
                proof {
                    assert(self.nodes() =~= before.update(i as int, NodeView { image: Some(new_image), ..before[i as int] }));
                    assert forall|k: int| 0 <= k < before.len() && before[k].id == node_id implies k == i by {
                        assert(shape.ids()[k] == before[k].id);
                        assert(shape.ids()[i as int] == node_id);
                    }
                    assert(self.shape().links =~= shape.links);
                    self.lemma_node_at(i as int);
                    assert(self.node(node_id).image == Some(new_image));
                    reveal(Tree::holds_generated_image);
                    shape.lemma_upstream_members(node_id);
                    assert forall|m: int| 0 <= m < self.path_operations(node_id).len() implies self.path_operations(
                        node_id,
                    )[m] == old_tree.path_operations(node_id)[m] by {
                        if m < self.upstream(node_id).len() {
                            let y = self.upstream(node_id)[self.upstream(node_id).len() - 1 - m];
                            assert(shape.has(y));
                            shape.lemma_has(y);
                        }
                    }
                    assert(self.path_operations(node_id) =~= old_tree.path_operations(node_id));
                }
                Ok(())
            },
        }
    }

    /// Gets the cached image for the given `Node`; if it has none, a new one
    /// is generated and cached.
    #[verifier::spinoff_prover]
    pub fn get_image_for(&mut self, node_id: u128) -> (result: Result<&I, TreeError>)
        requires
            old(self).wf(),
        ensures
            final(self).wf(),
            final(self).shape() == old(self).shape(),
            final(self).pos() == old(self).pos(),
            final(self).source() == old(self).source(),
            final(self).path() == old(self).path(),
            !old(self).has(node_id) ==> result == Err::<&I, TreeError>(TreeError::NodeNotFound(node_id))
                && final(self).nodes() == old(self).nodes(),
            old(self).has(node_id) && old(self).node(node_id).image is Some ==> result is Ok && Some(
                *result.unwrap(),
            ) == old(self).node(node_id).image && final(self).nodes() == old(self).nodes(),
            old(self).has(node_id) && old(self).node(node_id).image is None && old(self).source() is None
                ==> result == Err::<&I, TreeError>(TreeError::NoSourceImage) && final(self).nodes() == old(
                self,
            ).nodes(),
            old(self).has(node_id) && old(self).node(node_id).image is None && old(self).source() is Some
                ==> result is Ok && image_refreshed(old(self).nodes(), final(self).nodes(), node_id)
                && final(self).node(node_id).image == Some(*result.unwrap())
                && final(self).holds_generated_image(node_id),
    {
        let found = self.find(node_id);
        if found.is_none() {
            return Err(TreeError::NodeNotFound(node_id));
        }
        let i = found.unwrap();
        proof {
            self.lemma_node_at(i as int);
        }
        // hands out the cached image when there is one
        if self.all_nodes[i].get_image().is_some() {
            return match self.all_nodes[i].get_image() {
                Some(image) => Ok(image),
                None => Err(TreeError::NoImage),
            };
        }
        let update_result = self.update_image_for(node_id);
        match update_result {
            Err(e) => Err(e),
            Ok(()) => {
                let i = self.find(node_id).unwrap();
                proof {
                    self.lemma_node_at(i as int);
                }
                match self.all_nodes[i].get_image() {
                    Some(image) => Ok(image),
                    None => Err(TreeError::NoImage),
                }
            },
        }
    }

    /// The nodes after the operation of `x` is set to `operation`.
    pub open spec fn with_operation(nodes: Seq<NodeView<I>>, x: u128, operation: Operation) -> Seq<NodeView<I>> {
        Seq::new(
            nodes.len(),
            |k: int|
                if nodes[k].id == x {
                    NodeView { operation, ..nodes[k] }
                } else {
                    nodes[k]
                },
        )
    }

    /// Edits the `Operation` of the given `Node`.
    ///
    /// Before the edit, the cached images downstream of the edited node are
    /// cleared; after it, the image of the edited node is generated anew.
    #[verifier::spinoff_prover]
    pub fn edit_node(&mut self, node_id: u128, new_operation: Operation) -> (result: Result<(), TreeError>)
        requires
            old(self).wf(),
        ensures
            final(self).wf(),
            final(self).shape() == old(self).shape(),
            final(self).pos() == old(self).pos(),
            final(self).source() == old(self).source(),
            final(self).path() == old(self).path(),
            node_id == old(self).root() ==> result == Err::<(), TreeError>(TreeError::RootIsFixed)
                && final(self).nodes() == old(self).nodes(),
            node_id != old(self).root() && !old(self).has(node_id) ==> result == Err::<(), TreeError>(
                TreeError::NodeNotFound(node_id),
            ) && final(self).nodes() == old(self).nodes(),
            node_id != old(self).root() && old(self).has(node_id) && old(self).source() is None ==> result
                == Err::<(), TreeError>(TreeError::NoSourceImage) && final(self).nodes()
                == Self::with_operation(
                with_images_cleared(old(self).nodes(), old(self).downstream(node_id)),
                node_id,
                new_operation,
            ),
            node_id != old(self).root() && old(self).has(node_id) && old(self).source() is Some ==> result
                is Ok && image_refreshed(
                Self::with_operation(
                    with_images_cleared(old(self).nodes(), old(self).downstream(node_id)),
                    node_id,
                    new_operation,
                ),
                final(self).nodes(),
                node_id,
            ) && final(self).holds_generated_image(node_id),
    {
        if node_id == self.root_id {
            return Err(TreeError::RootIsFixed);
        }
        // prunes to prevent stale images downstream of the edit
        let prune_result = self.prune(node_id, Direction::DownStream);
        if prune_result.is_err() {
            return prune_result;
        }
        let found = self.find(node_id);
        let i = found.unwrap();
        let ghost before = self.nodes();
        let ghost shape = self.shape();
        proof {
            self.lemma_node_at(i as int);
        }
        self.all_nodes[i].edit_operation(new_operation);
        proof {
            assert forall|k: int| 0 <= k < before.len() && before[k].id == node_id implies k == i by {
                assert(shape.ids()[k] == before[k].id);
                assert(shape.ids()[i as int] == node_id);
            }
            assert(self.nodes() =~= Self::with_operation(before, node_id, new_operation));
            assert(self.shape().links =~= shape.links);
        }
        self.update_image_for(node_id)
    }

    /// Gets the image cached in the `Node` at the current position.
    pub fn get_current_image(&self) -> (result: Result<&I, TreeError>)
        requires
            self.wf(),
        ensures
            result is Ok <==> self.node(self.pos()).image is Some,
            result is Ok ==> self.node(self.pos()).image == Some(*result.unwrap()),
            result is Err ==> result == Err::<&I, TreeError>(TreeError::NoImage),
    {
        let i = self.find(self.position).unwrap();
        proof {
            self.lemma_node_at(i as int);
        }
        match self.all_nodes[i].get_image() {
            Some(image) => Ok(image),
            None => Err(TreeError::NoImage),
        }
    }

    // tree management
    /// Adds a new `Node`, with the given id, after the current `position` in
    /// the `Tree`, as the last of its children; the new `Node` becomes the
    /// current position. If there are `Node`s after the current position, the
    /// new `Node` starts a new branch with the given branch id; otherwise it
    /// stays in the branch of the position.
    ///
    /// Its image is generated, and the cached images upstream of it are
    /// cleared. Fails when there is no source image, when a node already has
    /// the id, or when a new branch is to start with a branch id in use.
    #[verifier::spinoff_prover]
    pub fn add_branch_with_ids(&mut self, operation: Operation, new_id: u128, new_branch_id: u128) -> (result:
        Result<(), TreeError>)
        requires
            old(self).wf(),
        ensures
            final(self).wf(),
            final(self).source() == old(self).source(),
            final(self).path() == old(self).path(),
            final(self).root() == old(self).root(),
            old(self).source() is None ==> result == Err::<(), TreeError>(TreeError::NoSourceImage),
            old(self).source() is Some && old(self).has(new_id) ==> result == Err::<(), TreeError>(
                TreeError::IdTaken(new_id),
            ),
            old(self).source() is Some && !old(self).has(new_id) && old(self).opens_branch()
                && old(self).branch_ids().contains(new_branch_id) ==> result == Err::<(), TreeError>(
                TreeError::BranchTaken(new_branch_id),
            ),
            result is Err ==> final(self).nodes() == old(self).nodes() && final(self).shape() == old(
                self,
            ).shape() && final(self).pos() == old(self).pos(),
            result is Ok <==> old(self).source() is Some && !old(self).has(new_id) && !(old(self).opens_branch()
                && old(self).branch_ids().contains(new_branch_id)),
            result is Ok ==> old(self).branch_added(
                final(self),
                operation,
                new_id,
                if old(self).opens_branch() {
                    new_branch_id
                } else {
                    old(self).node(old(self).pos()).branch_id
                },
            ),
    {
        if self.source_image.is_none() {
            return Err(TreeError::NoSourceImage);
        }
        if self.find(new_id).is_some() {
            return Err(TreeError::IdTaken(new_id));
        }
        let position = self.position;
        let pi = self.find(position).unwrap();
        let ghost old_shape = self.shape();
        let ghost old_nodes = self.nodes();
        proof {
            self.lemma_node_at(pi as int);
            assert(old_shape.links[pi as int] == old_nodes[pi as int].link());
        }
        // a new branch only starts where nodes already follow the position
        let branch_id = if self.all_nodes[pi].has_child() {
            let branches = self.get_branch_ids();
            if vec_contains(&branches, new_branch_id) {
                return Err(TreeError::BranchTaken(new_branch_id));
            }
            new_branch_id
        } else {
            self.all_nodes[pi].get_branch_id()
        };
        self.all_nodes[pi].add_child(new_id);
        let node = Node::new_with_id(new_id, position, branch_id, operation);
        self.all_nodes.push(node);
        self.position = new_id;
        self.rank = Ghost(self.rank@.insert(new_id, old_nodes.len()));
        proof {
            let f = Shape::add_child_of(position, new_id);
            let grown = old_shape.links.map_values(f).push(
                crate::workspace::shape::Link { id: new_id, parent_id: position, children_ids: Seq::empty() },
            );
            assert forall|k: int| 0 <= k < grown.len() implies #[trigger] self.shape().links[k] == grown[k] by {
                if k < old_nodes.len() {
                    assert(old_shape.links[k] == old_nodes[k].link());
                    assert(old_shape.ids()[k] == old_nodes[k].id);
                    assert(old_shape.ids()[pi as int] == position);
                }
            }
            assert(self.shape().links =~= grown);
            assert(self.shape() == old_shape.branched(position, new_id));
            old_shape.lemma_branched(position, new_id);
            old_shape.lemma_upstream_members(position);
            old_shape.lemma_upstream_same(self.shape(), position);
            assert(self.upstream(new_id) == seq![position] + old_shape.upstream(position));
        }
        let ghost grown_nodes = self.nodes();
        let update_result = self.update_image_for(new_id);
        proof {
            assert(update_result is Ok);
        }
        let ghost refreshed_nodes = self.nodes();
        let ghost refreshed = *self;
        let prune_result = self.prune(new_id, Direction::UpStream);
        proof {
            assert(prune_result is Ok);
            refreshed.lemma_pruned_keeps_generated_image(self, new_id, Direction::UpStream);
            let s = self.shape();
            s.lemma_upstream_members(new_id);
            assert(s.ids()[old_nodes.len() as int] == new_id);
            s.lemma_index_of(old_nodes.len() as int);
            assert(!self.upstream(new_id).contains(new_id)) by {
                if self.upstream(new_id).contains(new_id) {
                    let k = choose|k: int| 0 <= k < self.upstream(new_id).len() && self.upstream(new_id)[k] == new_id;
                    assert(s.rank[self.upstream(new_id)[k]] < s.rank[new_id]);
                }
            }
            assert(self.nodes()[old_nodes.len() as int] == self.node(new_id));
            assert(grown_nodes.len() == old_nodes.len() + 1);
            assert forall|k: int| 0 <= k < old_nodes.len() implies {
                &&& #[trigger] self.nodes()[k].branch_id == old_nodes[k].branch_id
                &&& self.nodes()[k].operation == old_nodes[k].operation
                &&& self.nodes()[k].image == if self.upstream(new_id).contains(old_nodes[k].id) {
                    None
                } else {
                    old_nodes[k].image
                }
            } by {
                assert(grown_nodes[k].id == old_nodes[k].id);
                assert(grown_nodes[k].branch_id == old_nodes[k].branch_id);
                assert(grown_nodes[k].image == old_nodes[k].image);
                assert(old_shape.ids()[k] == old_nodes[k].id);
                assert(s.ids()[k] == old_nodes[k].id);
                assert(refreshed_nodes[k] == grown_nodes[k]);
            }
            assert(self.node(new_id).branch_id == branch_id);
        }
        Ok(())
    }

    /// The nodes while the children of the node stored at `pi` move below
    /// the new node `x`: the node at `pi` has `x` as its only child, and the
    /// nodes listed in `moved` have `x` as their parent.
    pub open spec fn moving_below(nodes: Seq<NodeView<I>>, pi: int, x: u128, moved: Seq<u128>) -> Seq<
        NodeView<I>,
    > {
        Seq::new(
            nodes.len(),
            |k: int|
                NodeView {
                    children_ids: if k == pi {
                        seq![x]
                    } else {
                        nodes[k].children_ids
                    },
                    parent_id: if moved.contains(nodes[k].id) {
                        x
                    } else {
                        nodes[k].parent_id
                    },
                    ..nodes[k]
                },
        )
    }

    /// The nodes with `parent` as the parent of each node that `ids` lists.
    pub open spec fn with_parent(nodes: Seq<NodeView<I>>, ids: Seq<u128>, parent: u128) -> Seq<NodeView<I>> {
        Seq::new(
            nodes.len(),
            |k: int|
                NodeView {
                    parent_id: if ids.contains(nodes[k].id) {
                        parent
                    } else {
                        nodes[k].parent_id
                    },
                    ..nodes[k]
                },
        )
    }

    /// Makes `parent` the parent of each node that `ids` lists.
    #[verifier::spinoff_prover]
    fn set_parents(&mut self, ids: &Vec<u128>, parent: u128)
        requires
            old(self).shape().ids().no_duplicates(),
            forall|k: int| 0 <= k < ids@.len() ==> old(self).has(#[trigger] ids@[k]),
        ensures
            final(self).nodes() == Self::with_parent(old(self).nodes(), ids@, parent),
            final(self).shape().ids() == old(self).shape().ids(),
            final(self).root() == old(self).root(),
            final(self).rank() == old(self).rank(),
            final(self).pos() == old(self).pos(),
            final(self).source() == old(self).source(),
            final(self).path() == old(self).path(),
    {
        let ghost old_nodes = self.nodes();
        let ghost old_ids = self.shape().ids();
        proof {
            assert(old_nodes =~= Self::with_parent(old_nodes, ids@.take(0), parent));
        }
        let mut j: usize = 0;
        while j < ids.len()
            invariant
                old_ids.no_duplicates(),
                old_ids == old(self).shape().ids(),
                forall|k: int| 0 <= k < ids@.len() ==> old(self).has(#[trigger] ids@[k]),
                old_nodes == old(self).nodes(),
                j <= ids@.len(),
                self.shape().ids() == old_ids,
                self.nodes() == Self::with_parent(old_nodes, ids@.take(j as int), parent),
                self.root() == old(self).root(),
                self.rank() == old(self).rank(),
                self.pos() == old(self).pos(),
                self.source() == old(self).source(),
                self.path() == old(self).path(),
            decreases ids@.len() - j,
        {
            let c = ids[j];
            proof {
                assert(old(self).has(ids@[j as int]));
                old(self).shape().lemma_has(c);
            }
            let ci = self.find(c).unwrap();
            let ghost before = self.nodes();
            self.all_nodes[ci].set_parent(parent);
            proof {
                let t = ids@.take(j as int);
                assert(ids@.take(j + 1) =~= t.push(c));
                assert(self.nodes() =~= before.update(ci as int, NodeView { parent_id: parent, ..before[ci as int] }));
                assert forall|k: int| 0 <= k < old_nodes.len() implies #[trigger] Self::with_parent(
                    old_nodes,
                    t.push(c),
                    parent,
                )[k] == self.nodes()[k] by {
                    lemma_push_contains_u128(t, c, old_nodes[k].id);
                    assert(old_ids[k] == old_nodes[k].id);
                    assert(old_ids[ci as int] == c);
                }
                assert(Self::with_parent(old_nodes, t.push(c), parent) =~= self.nodes());
                assert(self.shape().ids() =~= old_ids);
            }
            j = j + 1;
        }
        proof {
            assert(ids@.take(j as int) =~= ids@);
        }
    }

    /// Puts a new node, with the given id and operation, between the current
    /// position and its children, and moves the position to it.
    #[verifier::spinoff_prover]
    fn insert_at_position(&mut self, operation: Operation, new_id: u128)
        requires
            old(self).wf(),
            !old(self).has(new_id),
        ensures
            final(self).wf(),
            final(self).source() == old(self).source(),
            final(self).path() == old(self).path(),
            final(self).root() == old(self).root(),
            final(self).pos() == new_id,
            final(self).shape() == old(self).shape().inserted(old(self).pos(), new_id),
            final(self).upstream(new_id) == seq![old(self).pos()] + old(self).upstream(old(self).pos()),
            final(self).nodes().len() == old(self).nodes().len() + 1,
            forall|k: int|
                0 <= k < old(self).nodes().len() ==> {
                    &&& #[trigger] final(self).nodes()[k].id == old(self).nodes()[k].id
                    &&& final(self).nodes()[k].branch_id == old(self).nodes()[k].branch_id
                    &&& final(self).nodes()[k].operation == old(self).nodes()[k].operation
                    &&& final(self).nodes()[k].image == old(self).nodes()[k].image
                },
            final(self).nodes()[old(self).nodes().len() as int].id == new_id,
            final(self).nodes()[old(self).nodes().len() as int].branch_id == old(self).node(
                old(self).pos(),
            ).branch_id,
            final(self).nodes()[old(self).nodes().len() as int].operation == operation,
            final(self).nodes()[old(self).nodes().len() as int].image is None,
    {
        let position = self.position;
        let pi = self.find(position).unwrap();
        let ghost old_shape = self.shape();
        let ghost old_nodes = self.nodes();
        proof {
            self.lemma_node_at(pi as int);
            old_shape.lemma_inserted_links(position, new_id);
        }
        let branch_id = self.all_nodes[pi].get_branch_id();
        let children = self.all_nodes[pi].get_children_ids();
        self.all_nodes[pi].remove_children();
        self.all_nodes[pi].add_child(new_id);
        proof {
            assert(self.shape().ids() =~= old_shape.ids());
            assert forall|k: int| 0 <= k < children@.len() implies self.has(#[trigger] children@[k]) by {
                assert(old_shape.children(position).contains(children@[k]));
            }
        }
        let ghost cut = self.nodes();
        self.set_parents(&children, new_id);
        proof {
            assert(self.nodes() =~= Self::moving_below(old_nodes, pi as int, new_id, children@)) by {
                assert forall|k: int| 0 <= k < old_nodes.len() implies #[trigger] self.nodes()[k]
                    == Self::moving_below(old_nodes, pi as int, new_id, children@)[k] by {
                    assert(cut[k].id == old_nodes[k].id);
                }
            }
        }
        let mut node = Node::new_with_id(new_id, position, branch_id, operation);
        node.add_children(children);
        self.all_nodes.push(node);
        self.position = new_id;
        self.rank = Ghost(old_shape.insert_rank(position, new_id));
        proof {
            let f = old_shape.insert_below(position, new_id);
            let moved = old_shape.children(position);
            let grown = old_shape.links.map_values(f).push(
                crate::workspace::shape::Link { id: new_id, parent_id: position, children_ids: moved },
            );
            assert forall|k: int| 0 <= k < grown.len() implies #[trigger] self.shape().links[k] == grown[k] by {
                if k < old_nodes.len() {
                    assert(old_shape.links[k] == old_nodes[k].link());
                    assert(old_shape.ids()[k] == old_nodes[k].id);
                    assert(old_shape.ids()[pi as int] == position);
                }
            }
            assert(self.shape().links =~= grown);
            assert(self.shape() == old_shape.inserted(position, new_id));
            old_shape.lemma_inserted(position, new_id);
            old_shape.lemma_upstream_members(position);
            old_shape.lemma_upstream_same(self.shape(), position);
            assert(self.upstream(new_id) == seq![position] + old_shape.upstream(position));
            assert(old(self).node(position) == old_nodes[pi as int]);
            assert forall|k: int| 0 <= k < old_nodes.len() implies {
                &&& #[trigger] self.nodes()[k].id == old_nodes[k].id
                &&& self.nodes()[k].branch_id == old_nodes[k].branch_id
                &&& self.nodes()[k].operation == old_nodes[k].operation
                &&& self.nodes()[k].image == old_nodes[k].image
            } by {
                assert(self.nodes()[k] == Self::moving_below(old_nodes, pi as int, new_id, moved)[k]);
            }
        }
    }

    /// Adds a new `Node`, with the given id, after the current `position` in
    /// the `Tree`: if there are `Node`s after the current `position`, the new
    /// `Node` is inserted between them and the current `position`. It stays in
    /// the branch of the current `position` and becomes the current position.
    ///
    /// Its image is generated, and the cached images upstream and downstream of
    /// it are cleared. Fails when there is no source image, or when a node
    /// already has the id.
    #[verifier::rlimit(80)]
    #[verifier::spinoff_prover]
    pub fn add_node_with_id(&mut self, operation: Operation, new_id: u128) -> (result: Result<(), TreeError>)
        requires
            old(self).wf(),
        ensures
            final(self).wf(),
            final(self).source() == old(self).source(),
            final(self).path() == old(self).path(),
            final(self).root() == old(self).root(),
            old(self).source() is None ==> result == Err::<(), TreeError>(TreeError::NoSourceImage),
            old(self).source() is Some && old(self).has(new_id) ==> result == Err::<(), TreeError>(
                TreeError::IdTaken(new_id),
            ),
            result is Err ==> final(self).nodes() == old(self).nodes() && final(self).shape() == old(
                self,
            ).shape() && final(self).pos() == old(self).pos(),
            result is Ok <==> old(self).source() is Some && !old(self).has(new_id),
            result is Ok ==> old(self).node_added(final(self), operation, new_id),
    {
        if self.source_image.is_none() {
            return Err(TreeError::NoSourceImage);
        }
        if self.find(new_id).is_some() {
            return Err(TreeError::IdTaken(new_id));
        }
        let ghost old_nodes = self.nodes();
        self.insert_at_position(operation, new_id);
        let ghost grown_nodes = self.nodes();
        let update_result = self.update_image_for(new_id);
        proof {
            assert(update_result is Ok);
        }
        let ghost refreshed_nodes = self.nodes();
        let ghost refreshed = *self;
        let prune_result = self.prune(new_id, Direction::UpStream);
        proof {
            assert(prune_result is Ok);
            refreshed.lemma_pruned_keeps_generated_image(self, new_id, Direction::UpStream);
        }
        let ghost upstream_pruned = self.nodes();
        let ghost half = *self;
        let prune_result = self.prune(new_id, Direction::DownStream);
        proof {
            assert(prune_result is Ok);
            half.lemma_pruned_keeps_generated_image(self, new_id, Direction::DownStream);
            let s = self.shape();
            assert(s.ids()[old_nodes.len() as int] == new_id);
            s.lemma_index_of(old_nodes.len() as int);
            s.lemma_not_own_relative(new_id);
            assert(self.nodes()[old_nodes.len() as int] == self.node(new_id));
            assert forall|k: int| 0 <= k < old_nodes.len() implies {
                &&& #[trigger] self.nodes()[k].branch_id == old_nodes[k].branch_id
                &&& self.nodes()[k].operation == old_nodes[k].operation
                &&& self.nodes()[k].image == if self.upstream(new_id).contains(old_nodes[k].id)
                    || self.downstream(new_id).contains(old_nodes[k].id) {
                    None
                } else {
                    old_nodes[k].image
                }
            } by {
                assert(grown_nodes[k].id == old_nodes[k].id);
                assert(s.ids()[k] == old_nodes[k].id);
                assert(refreshed_nodes[k] == grown_nodes[k]);
                assert(upstream_pruned[k].id == old_nodes[k].id);
            }
        }
        Ok(())
    }

    /// The nodes while the children of `r` move to the node stored at `qi`:
    /// that node lists them after its other children, in place of `r`, and
    /// the nodes listed in `moved` have it as their parent.
    pub open spec fn lifting(nodes: Seq<NodeView<I>>, qi: int, r: u128, children: Seq<u128>, moved: Seq<u128>) -> Seq<
        NodeView<I>,
    > {
        Seq::new(
            nodes.len(),
            |k: int|
                NodeView {
                    children_ids: if k == qi {
                        (nodes[k].children_ids + children).filter(differs_from(r))
                    } else {
                        nodes[k].children_ids
                    },
                    parent_id: if moved.contains(nodes[k].id) {
                        nodes[qi].id
                    } else {
                        nodes[k].parent_id
                    },
                    ..nodes[k]
                },
        )
    }

    #[verifier::spinoff_prover]
    proof fn lemma_lifted_removed(
        old_shape: Shape,
        old_nodes: Seq<NodeView<I>>,
        lifted: Seq<NodeView<I>>,
        ri: int,
        qi: int,
        node_id: u128,
        children: Seq<u128>,
    )
        requires
            old_shape.ids().no_duplicates(),
            old_nodes.map_values(|n: NodeView<I>| n.link()) == old_shape.links,
            0 <= ri < old_nodes.len(),
            0 <= qi < old_nodes.len(),
            old_shape.ids()[ri] == node_id,
            old_shape.index_of(node_id) == ri,
            old_shape.ids()[qi] == old_shape.parent(node_id),
            children == old_shape.children(node_id),
            !children.contains(old_shape.parent(node_id)),
            lifted == Self::lifting(old_nodes, qi, node_id, children, children),
        ensures
            lifted.remove(ri).map_values(|n: NodeView<I>| n.link()) == old_shape.removed(node_id).links,
            forall|k: int|
                0 <= k < old_nodes.len() - 1 ==> {
                    let o = old_nodes.remove(ri)[k];
                    &&& #[trigger] lifted.remove(ri)[k].id == o.id
                    &&& lifted.remove(ri)[k].branch_id == o.branch_id
                    &&& lifted.remove(ri)[k].operation == o.operation
                    &&& lifted.remove(ri)[k].image == o.image
                },
    {
        reveal(Shape::removed);
        let parent_id = old_shape.parent(node_id);
        let f = old_shape.lift_children(node_id);
        let target = old_shape.links.remove(ri).map_values(f);
        let mine = lifted.remove(ri).map_values(|n: NodeView<I>| n.link());
        assert(old_shape.ids()[qi] == old_nodes[qi].id);
        assert forall|k: int| 0 <= k < target.len() implies #[trigger] mine[k] == target[k] by {
            let k0 = if k < ri { k } else { k + 1 };
            assert(old_shape.links.remove(ri)[k] == old_shape.links[k0]);
            assert(old_shape.links[k0] == old_nodes[k0].link());
            assert(old_shape.ids()[k0] == old_nodes[k0].id);
            assert(lifted.remove(ri)[k] == lifted[k0]);
            if k0 == qi {
                assert(old_nodes[k0].id == parent_id);
            } else {
                assert(old_nodes[k0].id != parent_id);
            }
        }
        assert(mine =~= target);
        assert forall|k: int| 0 <= k < old_nodes.len() - 1 implies {
            let o = old_nodes.remove(ri)[k];
            &&& #[trigger] lifted.remove(ri)[k].id == o.id
            &&& lifted.remove(ri)[k].branch_id == o.branch_id
            &&& lifted.remove(ri)[k].operation == o.operation
            &&& lifted.remove(ri)[k].image == o.image
        } by {
            let k0 = if k < ri { k } else { k + 1 };
            assert(lifted.remove(ri)[k] == lifted[k0]);
            assert(old_nodes.remove(ri)[k] == old_nodes[k0]);
        }
    }

    /// Takes the node `node_id` out of the tree, handing its children to its
    /// parent; the position moves to that parent if it was on the node.
    #[verifier::spinoff_prover]
    #[verifier::rlimit(100)]
    fn take_out(&mut self, node_id: u128)
        requires
            old(self).wf(),
            old(self).has(node_id),
            node_id != old(self).root(),
        ensures
            final(self).wf(),
            final(self).source() == old(self).source(),
            final(self).path() == old(self).path(),
            final(self).root() == old(self).root(),
            final(self).pos() == if old(self).pos() == node_id {
                old(self).shape().parent(node_id)
            } else {
                old(self).pos()
            },
            final(self).shape() == old(self).shape().removed(node_id),
            final(self).nodes().len() == old(self).nodes().len() - 1,
            forall|k: int|
                0 <= k < final(self).nodes().len() ==> {
                    let o = old(self).nodes().remove(old(self).shape().index_of(node_id))[k];
                    &&& #[trigger] final(self).nodes()[k].id == o.id
                    &&& final(self).nodes()[k].branch_id == o.branch_id
                    &&& final(self).nodes()[k].operation == o.operation
                    &&& final(self).nodes()[k].image == o.image
                },
    {
        let ghost old_shape = self.shape();
        let ghost old_nodes = self.nodes();
        let ri = self.find(node_id).unwrap();
        proof {
            self.lemma_node_at(ri as int);
            old_shape.lemma_removed_basics(node_id);
            old_shape.lemma_removed_links(node_id);
            old_shape.lemma_removed(node_id);
        }
        let parent_id = self.all_nodes[ri].get_parent_id();
        let children = self.all_nodes[ri].get_children_ids();
        let handed = self.all_nodes[ri].get_children_ids();
        let qi = self.find(parent_id).unwrap();
        proof {
            self.lemma_node_at(qi as int);
            lemma_concat_contains(old_shape.children(parent_id), children@, node_id);
        }
        self.all_nodes[qi].add_children(handed);
        let removed_child = self.all_nodes[qi].remove_child(node_id);
        proof {
            assert(removed_child is Ok);
            assert(self.shape().ids() =~= old_shape.ids());
            assert forall|k: int| 0 <= k < children@.len() implies self.has(#[trigger] children@[k]) by {
                assert(old_shape.children(node_id).contains(children@[k]));
            }
        }
        let ghost cut = self.nodes();
        self.set_parents(&children, parent_id);
        proof {
            assert(self.nodes() =~= Self::lifting(old_nodes, qi as int, node_id, children@, children@)) by {
                assert forall|k: int| 0 <= k < old_nodes.len() implies #[trigger] self.nodes()[k]
                    == Self::lifting(old_nodes, qi as int, node_id, children@, children@)[k] by {
                    assert(cut[k].id == old_nodes[k].id);
                    assert(old_shape.ids()[k] == old_nodes[k].id);
                    assert(old_shape.ids()[qi as int] == parent_id);
                    if k == qi {
                        assert(cut[k].children_ids == (old_nodes[k].children_ids + children@).filter(differs_from(node_id)));
                    } else {
                        assert(cut[k] == old_nodes[k]);
                    }
                }
            }
        }
        if self.position == node_id {
            self.position = parent_id;
        }
        let ghost lifted = self.nodes();
        self.all_nodes.remove(ri);
        self.rank = Ghost(old_shape.remove_rank(node_id));
        proof {
            assert(old_shape.index_of(node_id) == ri);
            assert(self.nodes() =~= lifted.remove(ri as int));
            Self::lemma_lifted_removed(old_shape, old_nodes, lifted, ri as int, qi as int, node_id, children@);
            assert(self.shape().links =~= lifted.remove(ri as int).map_values(|n: NodeView<I>| n.link()));
            assert(self.shape() == old_shape.removed(node_id));
            assert(self.has(self.pos())) by {
                if old(self).pos() != node_id {
                    assert(old_shape.has(old(self).pos()));
                }
            }
        }
    }
}

impl<P, S, I: Develop<S> + Edit + Clone> Tree<P, S, I> {
    /// Removes the given `Node` while preserving heredity: its children, in
    /// their order, follow the other children of its parent, and have that
    /// parent as theirs. The position moves to the parent if it was on the
    /// removed node.
    ///
    /// Before the removal the cached images downstream of the current
    /// position are cleared; after it the image of the (new) current position
    /// is generated anew, which fails when there is no source image.
    #[verifier::spinoff_prover]
    pub fn remove_node(&mut self, node_id: u128) -> (result: Result<(), TreeError>)
        requires
            old(self).wf(),
        ensures
            final(self).wf(),
            final(self).source() == old(self).source(),
            final(self).path() == old(self).path(),
            final(self).root() == old(self).root(),
            node_id == old(self).root() ==> result == Err::<(), TreeError>(TreeError::RootIsFixed)
                && final(self).nodes() == old(self).nodes() && final(self).shape() == old(self).shape()
                && final(self).pos() == old(self).pos(),
            node_id != old(self).root() && !old(self).has(node_id) ==> result == Err::<(), TreeError>(
                TreeError::NodeNotFound(node_id),
            ) && final(self).nodes() == with_images_cleared(
                old(self).nodes(),
                old(self).downstream(old(self).pos()),
            ) && final(self).shape() == old(self).shape() && final(self).pos() == old(self).pos(),
            node_id != old(self).root() && old(self).has(node_id) ==> {
                let kept = with_images_cleared(old(self).nodes(), old(self).downstream(old(self).pos())).remove(
                    old(self).shape().index_of(node_id),
                );
                &&& final(self).shape() == old(self).shape().removed(node_id)
                &&& final(self).pos() == if old(self).pos() == node_id {
                    old(self).shape().parent(node_id)
                } else {
                    old(self).pos()
                }
                &&& final(self).nodes().len() == kept.len()
                &&& forall|k: int|
                    0 <= k < kept.len() ==> {
                        &&& #[trigger] final(self).nodes()[k].id == kept[k].id
                        &&& final(self).nodes()[k].branch_id == kept[k].branch_id
                        &&& final(self).nodes()[k].operation == kept[k].operation
                        &&& (kept[k].id != final(self).pos() || result is Err) ==> final(self).nodes()[k].image
                            == kept[k].image
                    }
                &&& result is Ok <==> old(self).source() is Some
                &&& result is Err ==> result == Err::<(), TreeError>(TreeError::NoSourceImage)
                &&& result is Ok ==> final(self).holds_generated_image(final(self).pos())
            },
    {
        if node_id == self.root_id {
            return Err(TreeError::RootIsFixed);
        }
        let position = self.position;
        let prune_result = self.prune(position, Direction::DownStream);
        proof {
            assert(prune_result is Ok);
        }
        if self.find(node_id).is_none() {
            return Err(TreeError::NodeNotFound(node_id));
        }
        let ghost pruned = self.nodes();
        self.take_out(node_id);
        let ghost taken = self.nodes();
        let position = self.position;
        let result = self.update_image_for(position);
        proof {
            let s = self.shape();
            s.lemma_has(position);
            let i = s.index_of(position);
            assert(s.ids()[i] == self.nodes()[i].id);
            assert(self.node(position) == self.nodes()[i]);
            assert forall|k: int| 0 <= k < taken.len() implies self.nodes()[k].id == taken[k].id by {
                assert(s.ids()[k] == self.nodes()[k].id);
            }
        }
        result
    }

    /// Adds a new `Node` after the current `position` in the `Tree`, with a
    /// freshly drawn id; see `add_node_with_id`.
    pub fn add_node(&mut self, operation: Operation) -> (result: Result<(), TreeError>)
        requires
            old(self).wf(),
        ensures
            final(self).wf(),
            final(self).source() == old(self).source(),
            final(self).path() == old(self).path(),
            final(self).root() == old(self).root(),
            old(self).source() is None ==> result == Err::<(), TreeError>(TreeError::NoSourceImage),
            old(self).source() is Some ==> result is Ok || result matches Err(TreeError::IdTaken(_)),
            result matches Err(TreeError::IdTaken(id)) ==> old(self).has(id),
            result is Err ==> final(self).nodes() == old(self).nodes() && final(self).shape() == old(
                self,
            ).shape() && final(self).pos() == old(self).pos(),
            result is Ok ==> !old(self).has(final(self).pos()) && old(self).node_added(
                final(self),
                operation,
                final(self).pos(),
            ),
    {
        let new_id = fresh_id();
        self.add_node_with_id(operation, new_id)
    }

    /// Adds a new `Node` after the current `position` in the `Tree`, in a new
    /// branch, with freshly drawn ids; see `add_branch_with_ids`.
    pub fn add_branch(&mut self, operation: Operation) -> (result: Result<(), TreeError>)
        requires
            old(self).wf(),
        ensures
            final(self).wf(),
            final(self).source() == old(self).source(),
            final(self).path() == old(self).path(),
            final(self).root() == old(self).root(),
            old(self).source() is None ==> result == Err::<(), TreeError>(TreeError::NoSourceImage),
            old(self).source() is Some ==> result is Ok || result matches Err(TreeError::IdTaken(_))
                || result matches Err(TreeError::BranchTaken(_)),
            result matches Err(TreeError::IdTaken(id)) ==> old(self).has(id),
            result matches Err(TreeError::BranchTaken(b)) ==> old(self).opens_branch() && old(
                self,
            ).branch_ids().contains(b),
            result is Err ==> final(self).nodes() == old(self).nodes() && final(self).shape() == old(
                self,
            ).shape() && final(self).pos() == old(self).pos(),
            result is Ok ==> !old(self).has(final(self).pos()) && old(self).branch_added(
                final(self),
                operation,
                final(self).pos(),
                final(self).node(final(self).pos()).branch_id,
            ),
            result is Ok && old(self).opens_branch() ==> !old(self).branch_ids().contains(
                final(self).node(final(self).pos()).branch_id,
            ),
            result is Ok && !old(self).opens_branch() ==> final(self).node(final(self).pos()).branch_id == old(
                self,
            ).node(old(self).pos()).branch_id,
    {
        let new_id = fresh_id();
        let new_branch_id = fresh_id();
        self.add_branch_with_ids(operation, new_id, new_branch_id)
    }
}

} // verus!
