use vstd::prelude::*;

use crate::id::fresh_id;
use crate::processor::operation::Operation;
use crate::workspace::error::TreeError;
use crate::workspace::node::differs_from;
use crate::workspace::shape::lemma_push_contains_u128;

verus! {

/// What a `Node` of a `Pool` holds, as mathematical values.
pub struct PoolNodeView<I> {
    pub id: u128,
    pub branch_id: u128,
    pub parent_id: Option<u128>,
    pub children_ids: Seq<u128>,
    pub operation: Operation,
    pub image: Option<I>,
}

/// Holds information for an individual `Operation` or step in the edit tree
/// of a `Pool`.
pub struct Node<I> {
    /// The unique id for this `Node` so it can be identified.
    id: u128,
    /// Identifies which branch this `Node` lives in.
    branch_id: u128,
    /// Holds the parent of this `Node`; only the root of a `Pool` has none.
    parent_id: Option<u128>,
    /// Holds the children of this `Node`.
    children_ids: Vec<u128>,
    /// What edit operation is being performed by this `Node`.
    operation: Operation,
    /// A cached image of the project up to this point in the tree.
    image: Option<I>,
}

impl<I> View for Node<I> {
    type V = PoolNodeView<I>;

    closed spec fn view(&self) -> PoolNodeView<I> {
        PoolNodeView {
            id: self.id,
            branch_id: self.branch_id,
            parent_id: self.parent_id,
            children_ids: self.children_ids@,
            operation: self.operation,
            image: self.image,
        }
    }
}

impl<I> PartialEq for Node<I> {
    /// Two nodes are the same node when their ids agree.
    fn eq(&self, other: &Self) -> (same: bool) {
        self.id == other.id
    }
}

impl<I> vstd::std_specs::cmp::PartialEqSpecImpl for Node<I> {
    open spec fn obeys_eq_spec() -> bool {
        true
    }

    open spec fn eq_spec(&self, other: &Self) -> bool {
        self@.id == other@.id
    }
}

impl<I> Node<I> {
    // initializing
    /// Creates a new `Node` with a freshly drawn id.
    pub fn new(parent_id: Option<u128>, branch_id: u128, operation: Operation) -> (node: Node<I>)
        ensures
            node@.branch_id == branch_id,
            node@.parent_id == parent_id,
            node@.children_ids == Seq::<u128>::empty(),
            node@.operation == operation,
            node@.image is None,
    {
        Node::new_with_id(fresh_id(), parent_id, branch_id, operation)
    }

    /// Creates a new `Node` with the given id.
    pub fn new_with_id(id: u128, parent_id: Option<u128>, branch_id: u128, operation: Operation) -> (node:
        Node<I>)
        ensures
            node@ == (PoolNodeView::<I> {
                id,
                branch_id,
                parent_id,
                children_ids: Seq::empty(),
                operation,
                image: None,
            }),
    {
        let node = Node { id, branch_id, parent_id, children_ids: Vec::new(), operation, image: None };
        assert(node@.children_ids =~= Seq::<u128>::empty());
        node
    }

    // basic getters
    /// Gets the `id`.
    pub fn get_id(&self) -> (id: u128)
        ensures
            id == self@.id,
    {
        self.id
    }

    /// Gets the `branch_id`.
    pub fn get_branch_id(&self) -> (branch_id: u128)
        ensures
            branch_id == self@.branch_id,
    {
        self.branch_id
    }

    /// Gets the optional `parent_id`.
    pub fn get_parent_id(&self) -> (parent_id: Option<u128>)
        ensures
            parent_id == self@.parent_id,
    {
        self.parent_id
    }

    /// Checks if this `Node` has at least one child.
    pub fn has_child(&self) -> (b: bool)
        ensures
            b == (self@.children_ids.len() > 0),
    {
        self.children_ids.len() > 0
    }

    /// Gets the `children_ids`.
    pub fn get_children_ids(&self) -> (children_ids: Vec<u128>)
        ensures
            children_ids@ == self@.children_ids,
    {
        let mut copy: Vec<u128> = Vec::new();
        let mut i: usize = 0;
        while i < self.children_ids.len()
            invariant
                i <= self.children_ids@.len(),
                copy@ == self.children_ids@.take(i as int),
            decreases self.children_ids@.len() - i,
        {
            copy.push(self.children_ids[i]);
            i = i + 1;
            assert(copy@ =~= self.children_ids@.take(i as int));
        }
        assert(copy@ =~= self.children_ids@);
        copy
    }

    /// Gets the `operation`.
    pub fn get_operation(&self) -> (operation: Operation)
        ensures
            operation == self@.operation,
    {
        self.operation
    }

    // basic editing
    /// Sets the `parent_id`.
    pub fn set_parent(&mut self, parent_id: Option<u128>)
        ensures
            final(self)@ == (PoolNodeView { parent_id, ..old(self)@ }),
    {
        self.parent_id = parent_id;
    }

    /// Adds a child.
    pub fn add_child(&mut self, child_id: u128)
        ensures
            final(self)@ == (PoolNodeView { children_ids: old(self)@.children_ids.push(child_id), ..old(self)@ }),
    {
        self.children_ids.push(child_id);
    }

    /// Adds a list of children, after the present ones.
    pub fn add_children(&mut self, children_ids: Vec<u128>)
        ensures
            final(self)@ == (PoolNodeView { children_ids: old(self)@.children_ids + children_ids@, ..old(self)@ }),
    {
        let mut more = children_ids;
        self.children_ids.append(&mut more);
    }

    /// Removes a given child, failing when it is not a child of this `Node`.
    pub fn remove_child(&mut self, child_id: u128) -> (result: Result<(), TreeError>)
        ensures
            result is Ok <==> old(self)@.children_ids.contains(child_id),
            result is Ok ==> final(self)@ == (PoolNodeView {
                children_ids: old(self)@.children_ids.filter(differs_from(child_id)),
                ..old(self)@
            }),
            result is Err ==> final(self)@ == old(self)@ && result == Err::<(), TreeError>(
                TreeError::NotAChild { parent: old(self)@.id, child: child_id },
            ),
    {
        let mut found = false;
        let mut kept: Vec<u128> = Vec::new();
        let mut i: usize = 0;
        let ghost pred = differs_from(child_id);
        while i < self.children_ids.len()
            invariant
                i <= self.children_ids@.len(),
                pred == differs_from(child_id),
                kept@ == self.children_ids@.take(i as int).filter(pred),
                found == self.children_ids@.take(i as int).contains(child_id),
            decreases self.children_ids@.len() - i,
        {
            let c = self.children_ids[i];
            proof {
                reveal(Seq::filter);
                assert(self.children_ids@.take(i + 1).drop_last() =~= self.children_ids@.take(i as int));
                assert(self.children_ids@.take(i + 1) =~= self.children_ids@.take(i as int).push(c));
                lemma_push_contains_u128(self.children_ids@.take(i as int), c, child_id);
            }
            if c == child_id {
                found = true;
            } else {
                kept.push(c);
            }
            i = i + 1;
        }
        assert(self.children_ids@.take(i as int) =~= self.children_ids@);
        if !found {
            return Err(TreeError::NotAChild { parent: self.id, child: child_id });
        }
        self.children_ids = kept;
        Ok(())
    }

    /// Removes all children.
    pub fn remove_children(&mut self)
        ensures
            final(self)@ == (PoolNodeView { children_ids: Seq::<u128>::empty(), ..old(self)@ }),
    {
        self.children_ids = Vec::new();
    }

    /// Edits the `operation`.
    pub fn edit_operation(&mut self, new_operation: Operation)
        ensures
            final(self)@ == (PoolNodeView { operation: new_operation, ..old(self)@ }),
    {
        self.operation = new_operation;
    }

    /// Clears the cached image.
    pub fn snip(&mut self)
        ensures
            final(self)@ == (PoolNodeView { image: None, ..old(self)@ }),
    {
        self.image = None;
    }
}

/// `nodes` with the cached image taken out of each node whose id `cleared` lists.
pub open spec fn pool_images_cleared<I>(nodes: Seq<PoolNodeView<I>>, cleared: Seq<u128>) -> Seq<PoolNodeView<I>> {
    Seq::new(
        nodes.len(),
        |k: int|
            PoolNodeView {
                image: if cleared.contains(nodes[k].id) {
                    None
                } else {
                    nodes[k].image
                },
                ..nodes[k]
            },
    )
}

/// `nodes` with each node whose parent is `from` given `to` for a parent.
pub open spec fn reparented<I>(nodes: Seq<PoolNodeView<I>>, from: u128, to: u128) -> Seq<PoolNodeView<I>> {
    Seq::new(
        nodes.len(),
        |k: int|
            if nodes[k].parent_id == Some(from) {
                PoolNodeView { parent_id: Some(to), ..nodes[k] }
            } else {
                nodes[k]
            },
    )
}

/// Holds the tree edit information for an image project.
///
/// The root is stored first among the nodes. Every other node names a
/// parent, which is stored before it, and the child list of each node
/// names exactly the nodes that name it for their parent.
pub struct Pool<I> {
    /// The source image being edited; there is none before an image is loaded.
    source_image: Option<I>,
    /// All the `Node`s, the root first; each keeps track of its own heredity.
    all_nodes: Vec<Node<I>>,
    /// The id of the base `Node`, which cannot be edited or removed.
    root_id: u128,
    /// Which `Node` is being looked at.
    position: u128,
}

impl<I> Pool<I> {
    // model
    pub closed spec fn nodes(&self) -> Seq<PoolNodeView<I>> {
        self.all_nodes@.map_values(|n: Node<I>| n@)
    }

    pub closed spec fn root(&self) -> u128 {
        self.root_id
    }

    pub closed spec fn pos(&self) -> u128 {
        self.position
    }

    pub closed spec fn source(&self) -> Option<I> {
        self.source_image
    }

    pub open spec fn ids(&self) -> Seq<u128> {
        Seq::new(self.nodes().len(), |k: int| self.nodes()[k].id)
    }

    pub open spec fn has(&self, x: u128) -> bool {
        self.ids().contains(x)
    }

    pub open spec fn index_of(&self, x: u128) -> int {
        self.ids().index_of(x)
    }

    /// Whether `x` is the id of a node of the pool or the parent id that a
    /// node names.
    pub open spec fn known(&self, x: u128) -> bool {
        self.has(x) || exists|i: int| 0 <= i < self.nodes().len() && (#[trigger] self.nodes()[i]).parent_id == Some(x)
    }

    pub open spec fn node(&self, x: u128) -> PoolNodeView<I> {
        self.nodes()[self.index_of(x)]
    }

    /// The parent links of a well-formed pool: the root is stored first and
    /// has no parent; every other node has a parent, stored before it while
    /// it is in the pool; ids are unique; the position is a node of the pool.
    pub open spec fn links_wf(&self) -> bool {
        &&& self.nodes().len() >= 1
        &&& self.nodes()[0].id == self.root()
        &&& self.nodes()[0].parent_id is None
        &&& self.ids().no_duplicates()
        &&& forall|i: int| 1 <= i < self.nodes().len() ==> (#[trigger] self.nodes()[i]).parent_id is Some
        &&& forall|i: int, j: int|
            0 <= i < self.nodes().len() && 0 <= j < self.nodes().len() && #[trigger] self.nodes()[i].parent_id
                == Some(#[trigger] self.nodes()[j].id) ==> j < i
        &&& self.has(self.pos())
    }

    /// The child lists of the pool agree with its parent links: a child list
    /// names each node once, and names exactly the nodes that have its node
    /// for a parent; the parent of every node but the root is in the pool.
    pub open spec fn children_agree(&self) -> bool {
        &&& forall|i: int| 0 <= i < self.nodes().len() ==> (#[trigger] self.nodes()[i]).children_ids.no_duplicates()
        &&& forall|i: int, k: int|
            0 <= i < self.nodes().len() && 0 <= k < self.nodes()[i].children_ids.len() ==> self.has(
                #[trigger] self.nodes()[i].children_ids[k],
            ) && self.node(self.nodes()[i].children_ids[k]).parent_id == Some(self.nodes()[i].id)
        &&& forall|j: int|
            1 <= j < self.nodes().len() ==> self.has((#[trigger] self.nodes()[j]).parent_id.unwrap()) && self.node(
                self.nodes()[j].parent_id.unwrap(),
            ).children_ids.contains(self.nodes()[j].id)
    }

    /// A well-formed pool: its parent links are well formed, and its child
    /// lists agree with them.
    pub open spec fn wf(&self) -> bool {
        &&& self.links_wf()
        &&& self.children_agree()
    }

    /// The nodes that pruning from `x` walks through: `x` and its ancestors,
    /// as long as they are in the pool.
    pub open spec fn upward(&self, x: u128) -> Seq<u128>
        decreases self.index_of(x),
        when self.links_wf()
    {
        if !self.has(x) {
            Seq::empty()
        } else {
            match self.node(x).parent_id {
                None => seq![x],
                Some(p) => if self.has(p) && self.index_of(p) < self.index_of(x) {
                    seq![x] + self.upward(p)
                } else {
                    seq![x]
                },
            }
        }
    }

    /// Where a walk up from `x` stops: `None` at the root, or the first id
    /// on the way that is not in the pool.
    pub open spec fn walk_end(&self, x: u128) -> Option<u128>
        decreases self.index_of(x),
        when self.links_wf()
    {
        if !self.has(x) {
            Some(x)
        } else {
            match self.node(x).parent_id {
                None => None,
                Some(p) => if self.has(p) && self.index_of(p) < self.index_of(x) {
                    self.walk_end(p)
                } else {
                    Some(p)
                },
            }
        }
    }

    proof fn lemma_node_at(&self, i: int)
        requires
            self.ids().no_duplicates(),
            0 <= i < self.nodes().len(),
        ensures
            self.has(self.nodes()[i].id),
            self.index_of(self.nodes()[i].id) == i,
            self.node(self.nodes()[i].id) == self.nodes()[i],
            self.nodes()[i] == self.all_nodes@[i]@,
    {
        assert(self.ids()[i] == self.nodes()[i].id);
        let j = self.index_of(self.nodes()[i].id);
        assert(self.ids()[j] == self.nodes()[i].id);
    }

    proof fn lemma_has(&self, x: u128)
        requires
            self.ids().no_duplicates(),
            self.has(x),
        ensures
            0 <= self.index_of(x) < self.nodes().len(),
            self.nodes()[self.index_of(x)].id == x,
    {
        let j = self.index_of(x);
        assert(self.ids()[j] == x);
    }

    /// A walk up through a pool with a parent in it goes on to the parent.
    proof fn lemma_parent_walk(&self, x: u128)
        requires
            self.links_wf(),
            self.has(x),
        ensures
            forall|p: u128| self.node(x).parent_id == Some(p) && self.has(p) ==> self.index_of(p) < self.index_of(x),
    {
        self.lemma_has(x);
        if let Some(p) = self.node(x).parent_id {
            if self.has(p) {
                self.lemma_has(p);
                assert(self.nodes()[self.index_of(x)].parent_id == Some(self.nodes()[self.index_of(p)].id));
            }
        }
    }

    // initializing
    /// Creates a new `Pool` holding only a root node with the given ids.
    pub fn new_with_ids(root_id: u128, root_branch_id: u128) -> (pool: Self)
        ensures
            pool.wf(),
            pool.nodes() == seq![
                PoolNodeView::<I> {
                    id: root_id,
                    branch_id: root_branch_id,
                    parent_id: None,
                    children_ids: Seq::empty(),
                    operation: Operation::Root,
                    image: None,
                },
            ],
            pool.root() == root_id,
            pool.pos() == root_id,
            pool.source() is None,
    {
        let root = Node::new_with_id(root_id, None, root_branch_id, Operation::Root);
        let mut all_nodes: Vec<Node<I>> = Vec::new();
        all_nodes.push(root);
        let pool = Pool { source_image: None, all_nodes, root_id, position: root_id };
        proof {
            assert(pool.nodes() =~= seq![root@]);
            assert(pool.ids() =~= seq![root_id]);
            assert(pool.ids()[0] == root_id);
        }
        pool
    }

    /// Creates a new `Pool` holding only a root node with fresh ids.
    pub fn new() -> (pool: Self)
        ensures
            pool.wf(),
            pool.nodes().len() == 1,
            pool.nodes()[0].parent_id is None,
            pool.nodes()[0].operation == Operation::Root,
            pool.pos() == pool.root(),
            pool.root() != 0,
            pool.source() is None,
    {
        let root_id = fresh_id();
        proof {
            crate::id::lemma_fresh_id_nonzero(root_id);
        }
        let branch_id = fresh_id();
        Pool::new_with_ids(root_id, branch_id)
    }

    /// Sets the image.
    pub fn set_image(&mut self, image: I)
        ensures
            final(self).source() == Some(image),
            final(self).nodes() == old(self).nodes(),
            final(self).root() == old(self).root(),
            final(self).pos() == old(self).pos(),
    {
        self.source_image = Some(image);
    }

    // basic getters
    /// Gets the image.
    pub fn get_image(&self) -> (image: Option<&I>)
        ensures
            image.is_some() == self.source().is_some(),
            image.is_some() ==> self.source() == Some(*image.unwrap()),
    {
        match &self.source_image {
            Some(image) => Some(image),
            None => None,
        }
    }

    /// Gets the id of the `Node` being looked at.
    pub fn get_position(&self) -> (position: u128)
        ensures
            position == self.pos(),
    {
        self.position
    }

    /// Where the node with the given id is stored, if there is one.
    fn find(&self, id: u128) -> (index: Option<usize>)
        requires
            self.ids().no_duplicates(),
        ensures
            index is Some <==> self.has(id),
            index is Some ==> index.unwrap() == self.index_of(id) && index.unwrap() < self.nodes().len()
                && self.nodes()[index.unwrap() as int].id == id,
    {
        let mut i: usize = 0;
        while i < self.all_nodes.len()
            invariant
                i <= self.all_nodes@.len(),
                self.ids().no_duplicates(),
                forall|k: int| 0 <= k < i ==> self.ids()[k] != id,
            decreases self.all_nodes@.len() - i,
        {
            proof {
                self.lemma_node_at(i as int);
            }
            if self.all_nodes[i].get_id() == id {
                return Some(i);
            }
            i = i + 1;
        }
        None
    }

    /// Whether `id` is taken: the id of a node, or the parent id that a node
    /// names.
    fn is_known(&self, id: u128) -> (known: bool)
        ensures
            known == self.known(id),
    {
        let mut i: usize = 0;
        while i < self.all_nodes.len()
            invariant
                i <= self.all_nodes@.len(),
                forall|k: int| 0 <= k < i ==> self.ids()[k] != id && (#[trigger] self.nodes()[k]).parent_id != Some(id),
            decreases self.all_nodes@.len() - i,
        {
            let node = &self.all_nodes[i];
            assert(self.nodes()[i as int] == node@);
            assert(self.ids()[i as int] == node@.id);
            if node.get_id() == id || node.get_parent_id() == Some(id) {
                proof {
                    if node@.id == id {
                        assert(self.ids()[i as int] == id);
                    }
                }
                return true;
            }
            i = i + 1;
        }
        proof {
            if self.has(id) {
                let k = self.index_of(id);
                assert(self.ids()[k] == id);
            }
        }
        false
    }

    /// Whether nodes already follow the position, so that a node added there
    /// as a branch starts a new branch.
    pub open spec fn opens_branch(&self) -> bool {
        self.node(self.pos()).children_ids.len() > 0
    }

    /// Whether a node of the pool carries the branch id `b`.
    pub open spec fn branch_in_use(&self, b: u128) -> bool {
        exists|i: int| 0 <= i < self.nodes().len() && (#[trigger] self.nodes()[i]).branch_id == b
    }

    /// Whether a node of the pool carries the branch id `b`.
    fn branch_is_used(&self, b: u128) -> (used: bool)
        ensures
            used == self.branch_in_use(b),
    {
        let mut i: usize = 0;
        while i < self.all_nodes.len()
            invariant
                i <= self.all_nodes@.len(),
                forall|k: int| 0 <= k < i ==> (#[trigger] self.nodes()[k]).branch_id != b,
            decreases self.all_nodes@.len() - i,
        {
            assert(self.nodes()[i as int] == self.all_nodes@[i as int]@);
            if self.all_nodes[i].get_branch_id() == b {
                return true;
            }
            i = i + 1;
        }
        false
    }

    /// Gets an immutable reference to a `Node` in the `Pool`.
    pub fn get(&self, id: u128) -> (result: Result<&Node<I>, TreeError>)
        requires
            self.wf(),
        ensures
            result is Ok <==> self.has(id),
            result is Ok ==> result.unwrap()@ == self.node(id),
            result is Err ==> result == Err::<&Node<I>, TreeError>(TreeError::NodeNotFound(id)),
    {
        match self.find(id) {
            Some(i) => {
                proof {
                    self.lemma_node_at(i as int);
                }
                Ok(&self.all_nodes[i])
            },
            None => Err(TreeError::NodeNotFound(id)),
        }
    }

    /// Gets a mutable reference to a `Node` in the `Pool`.
    ///
    /// Edits made through it are not checked: the pool is well formed
    /// afterwards only if they keep it so.
    pub fn get_mut(&mut self, id: u128) -> (result: Option<&mut Node<I>>)
        requires
            old(self).wf(),
        ensures
            result is Some <==> old(self).has(id),
            result is None ==> final(self).nodes() == old(self).nodes(),
            result is Some ==> (*result.unwrap())@ == old(self).node(id),
            result is Some ==> final(self).nodes() == old(self).nodes().update(
                old(self).index_of(id),
                (*final(result.unwrap()))@,
            ),
            final(self).root() == old(self).root(),
            final(self).pos() == old(self).pos(),
            final(self).source() == old(self).source(),
    {
        match self.find(id) {
            Some(i) => {
                proof {
                    self.lemma_node_at(i as int);
                }
                Some(&mut self.all_nodes[i])
            },
            None => None,
        }
    }

    // resource management
    /// Clears the cached images of the `last_node_id` and of all the `Node`s
    /// upstream of it. Fails when the walk up meets an id that is not in the
    /// `Pool`, after clearing what it walked through.
    #[verifier::spinoff_prover]
    #[verifier::rlimit(40)]
    pub fn prune(&mut self, last_node_id: u128) -> (result: Result<(), TreeError>)
        requires
            old(self).wf(),
        ensures
            final(self).wf(),
            final(self).root() == old(self).root(),
            final(self).pos() == old(self).pos(),
            final(self).source() == old(self).source(),
            final(self).nodes() == pool_images_cleared(old(self).nodes(), old(self).upward(last_node_id)),
            result == match old(self).walk_end(last_node_id) {
                None => Ok::<(), TreeError>(()),
                Some(missing) => Err(TreeError::NodeNotFound(missing)),
            },
    {
        let ghost old_nodes = self.nodes();
        let ghost old_pool = *self;
        let mut current = last_node_id;
        let ghost mut done: Seq<u128> = Seq::empty();
        proof {
            assert(old_nodes =~= pool_images_cleared(old_nodes, done));
        }
        loop
            invariant_except_break
                done + old_pool.upward(current) == old_pool.upward(last_node_id),
                old_pool.walk_end(current) == old_pool.walk_end(last_node_id),
            invariant
                old_pool.wf(),
                old_pool == *old(self),
                self.links_wf(),
                old_nodes == old_pool.nodes(),
                self.ids() == old_pool.ids(),
                self.root() == old(self).root(),
                self.pos() == old(self).pos(),
                self.source() == old(self).source(),
                self.nodes() == pool_images_cleared(old_nodes, done),
            ensures
                self.nodes() == pool_images_cleared(old_nodes, old_pool.upward(last_node_id)),
                old_pool.walk_end(last_node_id) is None,
            decreases (if old_pool.has(current) {
                old_pool.index_of(current) + 1
            } else {
                0
            }),
        {
            let found = self.find(current);
            let i = match found {
                Some(i) => i,
                None => {
                    proof {
                        assert(done =~= old_pool.upward(last_node_id));
                        old_pool.lemma_same_links_agree(self);
                    }
                    return Err(TreeError::NodeNotFound(current));
                },
            };
            proof {
                old_pool.lemma_has(current);
                old_pool.lemma_parent_walk(current);
                assert(old_pool.ids()[i as int] == current);
                assert(self.nodes()[i as int].parent_id == old_nodes[i as int].parent_id);
                assert(old_pool.node(current) == old_nodes[i as int]);
            }
            let ghost before = self.nodes();
            self.all_nodes[i].snip();
            let parent = self.all_nodes[i].get_parent_id();
            proof {
                assert(self.nodes() =~= before.update(i as int, PoolNodeView { image: None, ..before[i as int] }));
                assert forall|k: int| 0 <= k < old_nodes.len() implies #[trigger] pool_images_cleared(
                    old_nodes,
                    done.push(current),
                )[k] == self.nodes()[k] by {
                    lemma_push_contains_u128(done, current, old_nodes[k].id);
                    assert(old_pool.ids()[k] == old_nodes[k].id);
                }
                assert(pool_images_cleared(old_nodes, done.push(current)) =~= self.nodes());
                done = done.push(current);
                assert(self.ids() =~= old_pool.ids());
            }
            match parent {
                Some(p) => {
                    proof {
                        assert(old_pool.node(current).parent_id == Some(p));
                        if old_pool.has(p) {
                            assert(old_pool.upward(current) == seq![current] + old_pool.upward(p));
                            assert(done + old_pool.upward(p) =~= done.drop_last() + old_pool.upward(current));
                        } else {
                            assert(old_pool.upward(current) == seq![current]);
                            assert(done =~= done.drop_last() + old_pool.upward(current));
                            assert(old_pool.upward(p) == Seq::<u128>::empty());
                            assert(done + old_pool.upward(p) =~= done);
                        }
                    }
                    current = p;
                },
                None => {
                    proof {
                        assert(old_pool.upward(current) == seq![current]);
                        assert(old_pool.walk_end(current) is None);
                        assert(done =~= old_pool.upward(last_node_id));
                    }
                    break ;
                },
            }
        }
        proof {
            old_pool.lemma_same_links_agree(self);
        }
        Ok(())
    }
}


impl<I> Pool<I> {
    /// `after` is this pool with a node `id` carrying `operation` put right
    /// after the position, in its branch, the position moved to it and the
    /// cached images on its way up cleared; `result` is what clearing them
    /// gave.
    pub open spec fn node_added(&self, after: &Self, id: u128, operation: Operation, result: Result<(), TreeError>) -> bool {
            &&& after.pos() == id
            &&& after.nodes() == pool_images_cleared(
                self.spliced_with_children(
                    PoolNodeView {
                        id,
                        branch_id: self.node(self.pos()).branch_id,
                        parent_id: Some(self.pos()),
                        children_ids: Seq::empty(),
                        operation,
                        image: None,
                    },
                ),
                seq![id] + self.upward(self.pos()),
            )
            &&& result == match self.walk_end(self.pos()) {
                None => Ok::<(), TreeError>(()),
                Some(missing) => Err(TreeError::NodeNotFound(missing)),
            }
            &&& forall|y: u128|
                #[trigger] self.has(y) ==> after.upward(y).filter(differs_from(id)) == self.upward(y) && (after.upward(y).contains(id) <==> y != self.pos() && self.upward(y).contains(self.pos()))
            &&& after.upward(id) == seq![id] + self.upward(self.pos())
    }

    /// `after` is this pool with a node `id` carrying `operation` added below
    /// the position as the first node of the branch `branch_id`, the
    /// position moved to it and the cached images on its way up cleared;
    /// `result` is what clearing them gave.
    pub open spec fn branch_added(
        &self,
        after: &Self,
        id: u128,
        branch_id: u128,
        operation: Operation,
        result: Result<(), TreeError>,
    ) -> bool {
            &&& after.pos() == id
            &&& after.nodes() == pool_images_cleared(
                self.grown(
                    PoolNodeView {
                        id,
                        branch_id,
                        parent_id: Some(self.pos()),
                        children_ids: Seq::empty(),
                        operation,
                        image: None,
                    },
                ),
                seq![id] + self.upward(self.pos()),
            )
            &&& result == match self.walk_end(self.pos()) {
                None => Ok::<(), TreeError>(()),
                Some(missing) => Err(TreeError::NodeNotFound(missing)),
            }
            &&& forall|y: u128| #[trigger] self.has(y) ==> after.upward(y) == self.upward(y)
            &&& after.node(id).branch_id == branch_id
            &&& after.node(id).operation == operation
            &&& after.upward(id) == seq![id] + self.upward(self.pos())
    }
}

impl<I> Pool<I> {
    /// A pool with one node more, stored last, keeps the ids and the links
    /// of the nodes it had.
    proof fn lemma_pushed(&self, other: &Self, n: PoolNodeView<I>, x: u128)
        requires
            self.ids().no_duplicates(),
            other.nodes() == self.nodes().push(n),
            !self.has(n.id),
        ensures
            other.ids() == self.ids().push(n.id),
            other.ids().no_duplicates(),
            other.has(n.id),
            other.index_of(n.id) == self.nodes().len(),
            other.node(n.id) == n,
            self.has(x) ==> other.has(x) && other.index_of(x) == self.index_of(x) && other.node(x) == self.node(x),
            other.has(x) ==> self.has(x) || x == n.id,
    {
        assert(other.ids() =~= self.ids().push(n.id));
        let len = self.nodes().len() as int;
        assert(other.ids()[len] == n.id);
        assert(other.ids().no_duplicates()) by {
            assert forall|i: int, j: int| 0 <= i < other.ids().len() && 0 <= j < other.ids().len() && i != j implies
                other.ids()[i] != other.ids()[j] by {
                if i < len && j < len {
                } else if i == len {
                    assert(self.ids()[j] == other.ids()[j]);
                } else {
                    assert(self.ids()[i] == other.ids()[i]);
                }
            }
        }
        let k = other.index_of(n.id);
        assert(other.ids()[k] == n.id);
        if self.has(x) {
            self.lemma_has(x);
            let i = self.index_of(x);
            assert(other.ids()[i] == x);
            let j = other.index_of(x);
            assert(other.ids()[j] == x);
        }
        if other.has(x) && x != n.id {
            let j = other.index_of(x);
            assert(other.ids()[j] == x);
            assert(self.ids()[j] == x);
        }
    }

    /// A walk up from a node that was in the pool before another was added
    /// stays as it was.
    proof fn lemma_pushed_walk(&self, other: &Self, n: PoolNodeView<I>, x: u128)
        requires
            self.links_wf(),
            other.links_wf(),
            other.nodes() == self.nodes().push(n),
            !self.has(n.id),
            self.has(x),
        ensures
            other.upward(x) == self.upward(x),
            other.walk_end(x) == self.walk_end(x),
        decreases self.index_of(x),
    {
        self.lemma_pushed(other, n, x);
        self.lemma_has(x);
        self.lemma_parent_walk(x);
        if let Some(p) = self.node(x).parent_id {
            self.lemma_pushed(other, n, p);
            if self.has(p) {
                self.lemma_pushed_walk(other, n, p);
            } else if p == n.id {
                assert(other.index_of(p) >= other.index_of(x));
            }
        }
    }

    /// Walks up two pools with the same nodes, root and position agree.
    proof fn lemma_same_walk(&self, other: &Self, x: u128)
        requires
            self.links_wf(),
            other.nodes() == self.nodes(),
            other.root() == self.root(),
            other.pos() == self.pos(),
        ensures
            other.links_wf(),
            other.upward(x) == self.upward(x),
            other.walk_end(x) == self.walk_end(x),
        decreases self.index_of(x),
    {
        assert(other.ids() =~= self.ids());
        if self.has(x) {
            self.lemma_parent_walk(x);
            if let Some(p) = self.node(x).parent_id {
                if self.has(p) {
                    self.lemma_same_walk(other, p);
                }
            }
        }
    }

    /// Walks up two pools whose nodes carry the same ids and parents, with the
    /// same root and position, agree; so do the ids they know.
    proof fn lemma_links_walk(&self, other: &Self, x: u128)
        requires
            self.links_wf(),
            other.nodes().len() == self.nodes().len(),
            forall|i: int|
                0 <= i < self.nodes().len() ==> (#[trigger] other.nodes()[i]).id == self.nodes()[i].id
                    && other.nodes()[i].parent_id == self.nodes()[i].parent_id,
            other.root() == self.root(),
            other.pos() == self.pos(),
        ensures
            other.links_wf(),
            other.ids() == self.ids(),
            other.upward(x) == self.upward(x),
            other.walk_end(x) == self.walk_end(x),
            forall|z: u128| #[trigger] other.known(z) == self.known(z),
        decreases self.index_of(x),
    {
        assert forall|i: int| 0 <= i < self.nodes().len() implies #[trigger] other.ids()[i] == self.ids()[i] by {
            assert(other.nodes()[i].id == self.nodes()[i].id);
        }
        assert(other.ids() =~= self.ids());
        assert(other.nodes()[0].id == self.nodes()[0].id);
        assert forall|i: int| 1 <= i < other.nodes().len() implies (#[trigger] other.nodes()[i]).parent_id is Some by {
            assert(other.nodes()[i].parent_id == self.nodes()[i].parent_id);
        }
        assert forall|i: int, j: int|
            0 <= i < other.nodes().len() && 0 <= j < other.nodes().len() && #[trigger] other.nodes()[i].parent_id
                == Some(#[trigger] other.nodes()[j].id) implies j < i by {
            assert(other.nodes()[i].parent_id == self.nodes()[i].parent_id);
            assert(other.nodes()[j].id == self.nodes()[j].id);
        }
        assert forall|z: u128| #[trigger] other.known(z) == self.known(z) by {
            if exists|i: int| 0 <= i < other.nodes().len() && (#[trigger] other.nodes()[i]).parent_id == Some(z) {
                let i = choose|i: int| 0 <= i < other.nodes().len() && (#[trigger] other.nodes()[i]).parent_id == Some(z);
                assert(self.nodes()[i].parent_id == Some(z));
            }
            if exists|i: int| 0 <= i < self.nodes().len() && (#[trigger] self.nodes()[i]).parent_id == Some(z) {
                let i = choose|i: int| 0 <= i < self.nodes().len() && (#[trigger] self.nodes()[i]).parent_id == Some(z);
                assert(other.nodes()[i].parent_id == Some(z));
            }
        }
        if self.has(x) {
            self.lemma_has(x);
            let k = self.index_of(x);
            assert(other.nodes()[k].parent_id == self.nodes()[k].parent_id);
            self.lemma_parent_walk(x);
            if let Some(p) = self.node(x).parent_id {
                if self.has(p) {
                    self.lemma_links_walk(other, p);
                }
            }
        }
    }

    /// The nodes once `n` is added below the position, which lists it after
    /// its other children.
    pub open spec fn grown(&self, n: PoolNodeView<I>) -> Seq<PoolNodeView<I>> {
        self.nodes().update(
            self.index_of(self.pos()),
            PoolNodeView { children_ids: self.node(self.pos()).children_ids.push(n.id), ..self.node(self.pos()) },
        ).push(n)
    }

    /// Adding a leaf below the position, listed by the position, keeps child
    /// lists in agreement with parent links.
    #[verifier::spinoff_prover]
    #[verifier::rlimit(60)]
    proof fn lemma_grown_agree(&self, other: &Self, n: PoolNodeView<I>)
        requires
            self.wf(),
            !self.known(n.id),
            n.parent_id == Some(self.pos()),
            n.children_ids.len() == 0,
            other.nodes() == self.grown(n),
        ensures
            other.children_agree(),
    {
        let k = self.index_of(self.pos());
        let len = self.nodes().len() as int;
        self.lemma_has(self.pos());
        let m = PoolNodeView { children_ids: self.node(self.pos()).children_ids.push(n.id), ..self.node(self.pos()) };
        assert(other.ids() =~= self.ids().push(n.id)) by {
            assert forall|i: int| 0 <= i < other.nodes().len() implies #[trigger] other.ids()[i] == self.ids().push(
                n.id,
            )[i] by {
                if i < len && i != k {
                    assert(other.nodes()[i] == self.nodes()[i]);
                }
            }
        }
        assert(!self.has(n.id));
        assert(other.ids().no_duplicates()) by {
            assert forall|i: int, j: int| 0 <= i < other.ids().len() && 0 <= j < other.ids().len() && i != j implies
                other.ids()[i] != other.ids()[j] by {
                if i < len && j < len {
                    assert(self.ids()[i] == other.ids()[i]);
                    assert(self.ids()[j] == other.ids()[j]);
                } else if i == len {
                    assert(self.ids()[j] == other.ids()[j]);
                } else {
                    assert(self.ids()[i] == other.ids()[i]);
                }
            }
        }
        // where the nodes of the grown pool are, and what they hold
        assert forall|x: u128| self.has(x) implies other.has(x) && other.index_of(x) == self.index_of(x)
            && other.node(x) == (if x == self.pos() {
            m
        } else {
            self.node(x)
        }) by {
            self.lemma_has(x);
            let xi = self.index_of(x);
            assert(other.ids()[xi] == x);
            let oj = other.index_of(x);
            assert(other.ids()[oj] == x);
        }
        assert(other.has(n.id) && other.node(n.id) == n) by {
            assert(other.ids()[len] == n.id);
            let oj = other.index_of(n.id);
            assert(other.ids()[oj] == n.id);
        }
        assert forall|x: u128| other.has(x) implies self.has(x) || x == n.id by {
            let oj = other.index_of(x);
            assert(other.ids()[oj] == x);
            if oj < len {
                assert(self.ids()[oj] == x);
            }
        }
        assert forall|i: int| 0 <= i < other.nodes().len() implies (
        #[trigger] other.nodes()[i]).children_ids.no_duplicates() by {
            if i == k {
                let cs = self.nodes()[k].children_ids;
                assert(!cs.contains(n.id)) by {
                    if cs.contains(n.id) {
                        let kk = choose|kk: int| 0 <= kk < cs.len() && cs[kk] == n.id;
                        assert(self.has(self.nodes()[k].children_ids[kk]));
                    }
                }
                assert forall|a: int, b: int| 0 <= a < cs.push(n.id).len() && 0 <= b < cs.push(n.id).len() && a != b
                    implies cs.push(n.id)[a] != cs.push(n.id)[b] by {
                    if a < cs.len() && b == cs.len() {
                        assert(cs.contains(cs[a]));
                    } else if b < cs.len() && a == cs.len() {
                        assert(cs.contains(cs[b]));
                    }
                }
            } else if i < len {
                assert(other.nodes()[i] == self.nodes()[i]);
            }
        }
        assert forall|i: int, kk: int|
            0 <= i < other.nodes().len() && 0 <= kk < other.nodes()[i].children_ids.len() implies other.has(
                #[trigger] other.nodes()[i].children_ids[kk],
            ) && other.node(other.nodes()[i].children_ids[kk]).parent_id == Some(other.nodes()[i].id) by {
            if i < len {
                let c = other.nodes()[i].children_ids[kk];
                if i == k && kk == self.nodes()[k].children_ids.len() {
                    assert(c == n.id);
                } else {
                    if i == k {
                        assert(c == self.nodes()[k].children_ids[kk]);
                    } else {
                        assert(other.nodes()[i] == self.nodes()[i]);
                    }
                    assert(self.has(self.nodes()[i].children_ids[kk]));
                }
            }
        }
        assert forall|j: int| 1 <= j < other.nodes().len() implies other.has(
            (#[trigger] other.nodes()[j]).parent_id.unwrap(),
        ) && other.node(other.nodes()[j].parent_id.unwrap()).children_ids.contains(other.nodes()[j].id) by {
            if j == len {
                assert(other.nodes()[j] == n);
                assert(m.children_ids[m.children_ids.len() - 1] == n.id);
            } else {
                let q = self.nodes()[j].parent_id.unwrap();
                if j != k {
                    assert(other.nodes()[j] == self.nodes()[j]);
                }
                assert(other.nodes()[j].id == self.nodes()[j].id);
                assert(other.nodes()[j].parent_id == self.nodes()[j].parent_id);
                assert(self.has(q));
                if q == self.pos() {
                    let cs = self.node(q).children_ids;
                    let kk = choose|kk: int| 0 <= kk < cs.len() && cs[kk] == self.nodes()[j].id;
                    assert(cs.push(n.id)[kk] == self.nodes()[j].id);
                }
            }
        }
    }

    /// Child lists agree with parent links in a pool whose nodes keep their
    /// ids, parents and child lists.
    proof fn lemma_same_links_agree(&self, other: &Self)
        requires
            self.ids().no_duplicates(),
            self.children_agree(),
            other.nodes().len() == self.nodes().len(),
            forall|i: int|
                0 <= i < self.nodes().len() ==> (#[trigger] other.nodes()[i]).id == self.nodes()[i].id
                    && other.nodes()[i].parent_id == self.nodes()[i].parent_id && other.nodes()[i].children_ids
                    == self.nodes()[i].children_ids,
        ensures
            other.children_agree(),
            other.ids() == self.ids(),
    {
        assert forall|i: int| 0 <= i < self.nodes().len() implies #[trigger] other.ids()[i] == self.ids()[i] by {
            assert(other.nodes()[i].id == self.nodes()[i].id);
        }
        assert(other.ids() =~= self.ids());
        assert forall|x: u128| self.has(x) implies other.node(x).parent_id == self.node(x).parent_id
            && other.node(x).children_ids == self.node(x).children_ids by {
            self.lemma_has(x);
            let k = self.index_of(x);
            assert(other.nodes()[k].id == self.nodes()[k].id);
        }
        assert forall|i: int, k: int|
            0 <= i < other.nodes().len() && 0 <= k < other.nodes()[i].children_ids.len() implies other.has(
                #[trigger] other.nodes()[i].children_ids[k],
            ) && other.node(other.nodes()[i].children_ids[k]).parent_id == Some(other.nodes()[i].id) by {
            assert(other.nodes()[i].children_ids == self.nodes()[i].children_ids);
            assert(self.has(self.nodes()[i].children_ids[k]));
        }
        assert forall|j: int| 1 <= j < other.nodes().len() implies other.has(
            (#[trigger] other.nodes()[j]).parent_id.unwrap(),
        ) && other.node(other.nodes()[j].parent_id.unwrap()).children_ids.contains(other.nodes()[j].id) by {
            assert(other.nodes()[j].parent_id == self.nodes()[j].parent_id);
            assert(self.has(self.nodes()[j].parent_id.unwrap()));
        }
        assert forall|i: int| 0 <= i < other.nodes().len() implies (
        #[trigger] other.nodes()[i]).children_ids.no_duplicates() by {
            assert(other.nodes()[i].children_ids == self.nodes()[i].children_ids);
        }
    }

    /// Clearing cached images changes neither the well-formedness of a pool
    /// nor any walk up it.
    proof fn lemma_cleared_walk(&self, other: &Self, cleared: Seq<u128>, x: u128)
        requires
            self.links_wf(),
            other.nodes() == pool_images_cleared(self.nodes(), cleared),
            other.root() == self.root(),
            other.pos() == self.pos(),
        ensures
            other.links_wf(),
            other.upward(x) == self.upward(x),
            other.walk_end(x) == self.walk_end(x),
        decreases self.index_of(x),
    {
        assert forall|i: int| 0 <= i < self.nodes().len() implies #[trigger] other.nodes()[i].id == self.nodes()[i].id
            && other.nodes()[i].parent_id == self.nodes()[i].parent_id && other.nodes()[i].children_ids
            == self.nodes()[i].children_ids by {}
        assert(other.ids() =~= self.ids());
        assert(other.links_wf());
        if self.has(x) {
            self.lemma_has(x);
            self.lemma_parent_walk(x);
            if let Some(p) = self.node(x).parent_id {
                if self.has(p) {
                    self.lemma_cleared_walk(other, cleared, p);
                }
            }
        }
    }

    /// Adding a node whose parent is in the pool keeps the pool well formed.
    proof fn lemma_pushed_wf(&self, other: &Self, n: PoolNodeView<I>, parent: u128)
        requires
            self.links_wf(),
            other.nodes() == self.nodes().push(n),
            other.root() == self.root(),
            other.pos() == n.id,
            !self.known(n.id),
            self.has(parent),
            n.parent_id == Some(parent),
            n.children_ids.len() == 0,
        ensures
            other.links_wf(),
    {
        self.lemma_pushed(other, n, parent);
        let len = self.nodes().len() as int;
        assert(other.nodes()[0] == self.nodes()[0]);
        assert forall|i: int| 1 <= i < other.nodes().len() implies (#[trigger] other.nodes()[i]).parent_id is Some by {
            if i < len {
                assert(other.nodes()[i] == self.nodes()[i]);
            }
        }
        assert forall|i: int, j: int|
            0 <= i < other.nodes().len() && 0 <= j < other.nodes().len() && #[trigger] other.nodes()[i].parent_id
                == Some(#[trigger] other.nodes()[j].id) implies j < i by {
            if j == len {
                assert(other.ids()[j] == n.id);
                if i < len {
                    assert(other.nodes()[i] == self.nodes()[i]);
                    assert(self.nodes()[i].parent_id == Some(n.id));
                }
            } else if i == len {
                assert(other.nodes()[j] == self.nodes()[j]);
            } else {
                assert(other.nodes()[i] == self.nodes()[i]);
                assert(other.nodes()[j] == self.nodes()[j]);
            }
        }
    }

    /// Stores a new node below the position, moves the position to it and
    /// clears the cached images on its way up.
    #[verifier::spinoff_prover]
    fn attach(&mut self, node: Node<I>) -> (result: Result<(), TreeError>)
        requires
            old(self).wf(),
            !old(self).known(node@.id),
            node@.parent_id == Some(old(self).pos()),
            node@.children_ids.len() == 0,
        ensures
            final(self).wf(),
            final(self).root() == old(self).root(),
            final(self).source() == old(self).source(),
            final(self).pos() == node@.id,
            final(self).nodes() == pool_images_cleared(
                old(self).grown(node@),
                seq![node@.id] + old(self).upward(old(self).pos()),
            ),
            result == match old(self).walk_end(old(self).pos()) {
                None => Ok::<(), TreeError>(()),
                Some(missing) => Err(TreeError::NodeNotFound(missing)),
            },
            forall|y: u128| #[trigger] old(self).has(y) ==> final(self).upward(y) == old(self).upward(y),
            final(self).upward(node@.id) == seq![node@.id] + old(self).upward(old(self).pos()),
            final(self).node(node@.id).branch_id == node@.branch_id,
            final(self).node(node@.id).operation == node@.operation,
    {
        let ghost before = *self;
        let ghost n = node@;
        let id = node.get_id();
        let position = self.position;
        let pk = match self.find(position) {
            Some(pk) => pk,
            None => return Err(TreeError::NodeNotFound(position)),
        };
        proof {
            before.lemma_node_at(pk as int);
        }
        // the position lists the new node after its other children
        self.all_nodes[pk].add_child(id);
        let ghost mid = *self;
        proof {
            let m = PoolNodeView {
                children_ids: before.node(position).children_ids.push(id),
                ..before.node(position)
            };
            assert(mid.nodes() =~= before.nodes().update(pk as int, m));
            assert forall|y: u128| #[trigger] before.has(y) implies mid.upward(y) == before.upward(y)
                && mid.walk_end(y) == before.walk_end(y) by {
                before.lemma_links_walk(&mid, y);
            }
            before.lemma_links_walk(&mid, position);
        }
        self.position = id;
        self.all_nodes.push(node);
        proof {
            assert(self.nodes() =~= mid.nodes().push(n));
            assert(self.nodes() =~= before.grown(n));
            before.lemma_grown_agree(self, n);
            mid.lemma_has(position);
            mid.lemma_pushed_wf(self, n, position);
            mid.lemma_pushed(self, n, position);
            mid.lemma_pushed_walk(self, n, position);
            assert(self.node(id).parent_id == Some(position));
            assert(self.upward(id) == seq![id] + self.upward(position));
            assert(self.walk_end(id) == self.walk_end(position));
        }
        let ghost grown = *self;
        let result = self.prune(id);
        proof {
            assert forall|y: u128| #[trigger] before.has(y) implies self.upward(y) == before.upward(y) by {
                before.lemma_links_walk(&mid, y);
                mid.lemma_pushed_walk(&grown, n, y);
                grown.lemma_cleared_walk(self, grown.upward(id), y);
            }
            grown.lemma_cleared_walk(self, grown.upward(id), id);
            mid.lemma_pushed(&grown, n, id);
            assert(self.ids() =~= grown.ids());
            let k = grown.index_of(id);
            grown.lemma_has(id);
            assert(self.nodes()[k].branch_id == grown.nodes()[k].branch_id);
        }
        result
    }

    /// Adds a new `Node` with the given id after the current position, in
    /// its branch, and moves the position to it. Whatever came after the
    /// position now comes after the new node.
    ///
    /// Fails without a source image, or when the id is taken (by a node, or
    /// as the parent id that a node names); the new node stays when clearing
    /// the cached images up the tree fails.
    pub fn add_node_with_id(&mut self, operation: Operation, id: u128) -> (result: Result<(), TreeError>)
        requires
            old(self).wf(),
        ensures
            final(self).wf(),
            final(self).root() == old(self).root(),
            final(self).source() == old(self).source(),
            old(self).source() is None ==> result == Err::<(), TreeError>(TreeError::NoSourceImage)
                && *final(self) == *old(self),
            old(self).source() is Some && old(self).known(id) ==> result == Err::<(), TreeError>(
                TreeError::IdTaken(id),
            ) && *final(self) == *old(self),
            old(self).source() is Some && !old(self).known(id) ==> old(self).node_added(final(self), id, operation, result),
    {
        if self.source_image.is_none() {
            return Err(TreeError::NoSourceImage);
        }
        if self.is_known(id) {
            return Err(TreeError::IdTaken(id));
        }
        let position = self.position;
        let ghost before = *self;
        let branch_id = match self.get(position) {
            Ok(current) => current.get_branch_id(),
            Err(e) => return Err(e),
        };
        let new_node = Node::new_with_id(id, Some(position), branch_id, operation);
        proof {
            assert(new_node@.children_ids =~= Seq::<u128>::empty());
        }
        // stores the new node, which takes over the children of the position
        self.splice(new_node)
    }

    /// Adds a new `Node` with a freshly drawn id after the current position,
    /// as `add_node_with_id` does.
    pub fn add_node(&mut self, operation: Operation) -> (result: Result<(), TreeError>)
        requires
            old(self).wf(),
        ensures
            final(self).wf(),
            final(self).root() == old(self).root(),
            final(self).source() == old(self).source(),
            old(self).source() is None ==> result == Err::<(), TreeError>(TreeError::NoSourceImage)
                && *final(self) == *old(self),
            result matches Err(TreeError::IdTaken(id)) ==> old(self).known(id) && *final(self) == *old(self),
            old(self).source() is Some && !(result matches Err(TreeError::IdTaken(_))) ==> !old(self).known(
                final(self).pos(),
            ) && old(self).node_added(final(self), final(self).pos(), operation, result),
    {
        let id = fresh_id();
        self.add_node_with_id(operation, id)
    }

    /// Adds a new `Node` with the given ids after the current position, as
    /// the last of its children, and moves the position to it. If there are
    /// `Node`s after the current position, the new `Node` starts a new branch
    /// with the given branch id (refused when a node carries it already);
    /// otherwise it stays in the branch of the position.
    ///
    /// Fails without a source image, or when the node id is taken (by a node,
    /// or as the parent id that a node names); the new node stays when
    /// clearing the cached images up the tree fails.
    pub fn add_branch_with_ids(&mut self, operation: Operation, id: u128, branch_id: u128) -> (result: Result<
        (),
        TreeError,
    >)
        requires
            old(self).wf(),
        ensures
            final(self).wf(),
            final(self).root() == old(self).root(),
            final(self).source() == old(self).source(),
            old(self).source() is None ==> result == Err::<(), TreeError>(TreeError::NoSourceImage)
                && *final(self) == *old(self),
            old(self).source() is Some && old(self).known(id) ==> result == Err::<(), TreeError>(
                TreeError::IdTaken(id),
            ) && *final(self) == *old(self),
            old(self).source() is Some && !old(self).known(id) && old(self).opens_branch() && old(
                self,
            ).branch_in_use(branch_id) ==> result == Err::<(), TreeError>(TreeError::BranchTaken(branch_id))
                && *final(self) == *old(self),
            old(self).source() is Some && !old(self).known(id) && !(old(self).opens_branch() && old(
                self,
            ).branch_in_use(branch_id)) ==> old(self).branch_added(
                final(self),
                id,
                if old(self).opens_branch() {
                    branch_id
                } else {
                    old(self).node(old(self).pos()).branch_id
                },
                operation,
                result,
            ),
    {
        if self.source_image.is_none() {
            return Err(TreeError::NoSourceImage);
        }
        if self.is_known(id) {
            return Err(TreeError::IdTaken(id));
        }
        let position = self.position;
        let current = match self.get(position) {
            Ok(current) => current,
            Err(e) => return Err(e),
        };
        // a new branch only starts where nodes already follow the position
        let new_branch = if current.has_child() {
            if self.branch_is_used(branch_id) {
                return Err(TreeError::BranchTaken(branch_id));
            }
            branch_id
        } else {
            current.get_branch_id()
        };
        let new_node = Node::new_with_id(id, Some(position), new_branch, operation);
        self.attach(new_node)
    }

    /// Adds a new `Node` with freshly drawn ids after the current position,
    /// as `add_branch_with_ids` does.
    pub fn add_branch(&mut self, operation: Operation) -> (result: Result<(), TreeError>)
        requires
            old(self).wf(),
        ensures
            final(self).wf(),
            final(self).root() == old(self).root(),
            final(self).source() == old(self).source(),
            old(self).source() is None ==> result == Err::<(), TreeError>(TreeError::NoSourceImage)
                && *final(self) == *old(self),
            result matches Err(TreeError::IdTaken(id)) ==> old(self).known(id) && *final(self) == *old(self),
            result matches Err(TreeError::BranchTaken(b)) ==> old(self).opens_branch() && old(self).branch_in_use(b)
                && *final(self) == *old(self),
            old(self).source() is Some && !(result matches Err(TreeError::IdTaken(_))) && !(result matches Err(
                TreeError::BranchTaken(_),
            )) ==> !old(self).known(final(self).pos()) && old(self).branch_added(
                final(self),
                final(self).pos(),
                final(self).node(final(self).pos()).branch_id,
                operation,
                result,
            ) && (old(self).opens_branch() ==> !old(self).branch_in_use(final(self).node(final(self).pos()).branch_id))
                && (!old(self).opens_branch() ==> final(self).node(final(self).pos()).branch_id == old(self).node(
                old(self).pos(),
            ).branch_id),
    {
        let id = fresh_id();
        let branch_id = fresh_id();
        self.add_branch_with_ids(operation, id, branch_id)
    }
}


impl<I> Pool<I> {
    /// Changing a node in place, keeping its id, parent and children, keeps
    /// the pool well formed.
    proof fn lemma_updated_wf(&self, other: &Self, k: int, n: PoolNodeView<I>)
        requires
            self.links_wf(),
            0 <= k < self.nodes().len(),
            other.nodes() == self.nodes().update(k, n),
            n.id == self.nodes()[k].id,
            n.parent_id == self.nodes()[k].parent_id,
            n.children_ids == self.nodes()[k].children_ids,
            other.root() == self.root(),
            other.pos() == self.pos(),
        ensures
            other.links_wf(),
            other.ids() == self.ids(),
            self.children_agree() ==> other.children_agree(),
    {
        assert(other.ids() =~= self.ids());
        if self.children_agree() {
            self.lemma_same_links_agree(other);
        }
        assert forall|i: int| 1 <= i < other.nodes().len() implies (#[trigger] other.nodes()[i]).parent_id is Some by {
            assert(other.nodes()[i].parent_id == self.nodes()[i].parent_id);
        }
        assert forall|i: int, j: int|
            0 <= i < other.nodes().len() && 0 <= j < other.nodes().len() && #[trigger] other.nodes()[i].parent_id
                == Some(#[trigger] other.nodes()[j].id) implies j < i by {
            assert(other.nodes()[i].parent_id == self.nodes()[i].parent_id);
            assert(other.nodes()[j].id == self.nodes()[j].id);
        }
    }

    /// Edits the `Operation` of the given `Node`. The root cannot be edited.
    pub fn edit_node(&mut self, node_id: u128, new_operation: Operation) -> (result: Result<(), TreeError>)
        requires
            old(self).wf(),
        ensures
            final(self).wf(),
            final(self).root() == old(self).root(),
            final(self).pos() == old(self).pos(),
            final(self).source() == old(self).source(),
            node_id == old(self).root() ==> result == Err::<(), TreeError>(TreeError::RootIsFixed)
                && final(self).nodes() == old(self).nodes(),
            node_id != old(self).root() && !old(self).has(node_id) ==> result == Err::<(), TreeError>(
                TreeError::NodeNotFound(node_id),
            ) && final(self).nodes() == old(self).nodes(),
            node_id != old(self).root() && old(self).has(node_id) ==> result == Ok::<(), TreeError>(())
                && final(self).nodes() == old(self).nodes().update(
                old(self).index_of(node_id),
                PoolNodeView { operation: new_operation, ..old(self).node(node_id) },
            ),
    {
        if node_id == self.root_id {
            return Err(TreeError::RootIsFixed);
        }
        let ghost before = *self;
        match self.get_mut(node_id) {
            Some(node) => node.edit_operation(new_operation),
            None => return Err(TreeError::NodeNotFound(node_id)),
        }
        proof {
            before.lemma_has(node_id);
            before.lemma_updated_wf(
                self,
                before.index_of(node_id),
                PoolNodeView { operation: new_operation, ..before.node(node_id) },
            );
        }
        Ok(())
    }

    /// Taking out a node other than the root, handing its children to its
    /// parent and moving the position off it to that parent, keeps the pool
    /// well formed.
    #[verifier::spinoff_prover]
    proof fn lemma_removed_wf(&self, other: &Self, k: int)
        requires
            self.links_wf(),
            1 <= k < self.nodes().len(),
            self.has(self.nodes()[k].parent_id.unwrap()),
            other.nodes() == reparented(self.nodes(), self.nodes()[k].id, self.nodes()[k].parent_id.unwrap()).remove(
                k,
            ),
            other.root() == self.root(),
            other.pos() == (if self.pos() == self.nodes()[k].id {
                self.nodes()[k].parent_id.unwrap()
            } else {
                self.pos()
            }),
        ensures
            other.links_wf(),
    {
        let r = self.nodes()[k].id;
        let p = self.nodes()[k].parent_id.unwrap();
        let moved = reparented(self.nodes(), r, p);
        self.lemma_node_at(k);
        self.lemma_parent_walk(r);
        self.lemma_has(p);
        let pk = self.index_of(p);
        assert(pk < k);
        assert forall|i: int| 0 <= i < self.nodes().len() implies #[trigger] moved[i].id == self.nodes()[i].id
            && moved[i].children_ids == self.nodes()[i].children_ids && (moved[i].parent_id is Some
            <==> self.nodes()[i].parent_id is Some) by {}
        assert(other.ids() =~= self.ids().remove(k));
        assert(self.nodes()[0].parent_id is None);
        assert(other.nodes()[0] == self.nodes()[0]);
        assert forall|i: int| 1 <= i < other.nodes().len() implies (#[trigger] other.nodes()[i]).parent_id is Some by {
            let si = if i < k {
                i
            } else {
                i + 1
            };
            assert(other.nodes()[i] == moved[si]);
        }
        assert forall|i: int, j: int|
            0 <= i < other.nodes().len() && 0 <= j < other.nodes().len() && #[trigger] other.nodes()[i].parent_id
                == Some(#[trigger] other.nodes()[j].id) implies j < i by {
            let si = if i < k {
                i
            } else {
                i + 1
            };
            let sj = if j < k {
                j
            } else {
                j + 1
            };
            assert(other.nodes()[i] == moved[si]);
            assert(other.nodes()[j] == moved[sj]);
            if self.nodes()[si].parent_id == Some(r) {
                assert(self.nodes()[si].parent_id == Some(self.nodes()[k].id));
                assert(k < si);
                assert(self.ids()[sj] == p);
                assert(self.ids()[pk] == p);
                assert(sj == pk);
            }
        }
        assert(other.ids().no_duplicates()) by {
            assert forall|i: int, j: int| 0 <= i < other.ids().len() && 0 <= j < other.ids().len() && i != j implies
                other.ids()[i] != other.ids()[j] by {
                let si = if i < k {
                    i
                } else {
                    i + 1
                };
                let sj = if j < k {
                    j
                } else {
                    j + 1
                };
                assert(other.ids()[i] == self.ids()[si]);
                assert(other.ids()[j] == self.ids()[sj]);
            }
        }
        let q = other.pos();
        assert(self.has(q));
        self.lemma_has(q);
        let qi = self.index_of(q);
        assert(qi != k);
        let oi = if qi < k {
            qi
        } else {
            qi - 1
        };
        assert(other.ids()[oi] == self.ids()[qi]);
    }

    /// Takes out the node `node_id` (not the root), gives its children by
    /// their links its parent `parent_id`, and moves the position to that
    /// parent when it was on the node; child lists are left as they were.
    #[verifier::spinoff_prover]
    #[verifier::rlimit(60)]
    fn unlink(&mut self, node_id: u128, parent_id: u128)
        requires
            old(self).wf(),
            old(self).has(node_id),
            node_id != old(self).root(),
            old(self).node(node_id).parent_id == Some(parent_id),
            old(self).has(parent_id),
        ensures
            final(self).nodes() == reparented(old(self).nodes(), node_id, parent_id).remove(
                old(self).index_of(node_id),
            ),
            final(self).links_wf(),
            final(self).root() == old(self).root(),
            final(self).source() == old(self).source(),
            final(self).pos() == (if old(self).pos() == node_id {
                parent_id
            } else {
                old(self).pos()
            }),
    {
        let ghost before = *self;
        proof {
            before.lemma_has(node_id);
            let k = before.index_of(node_id);
            before.lemma_node_at(k);
            before.lemma_node_at(0);
            assert(k != 0);
        }
        // gives the parent to the children of the node, found by their links
        let ghost unchanged = self.nodes();
        let mut i: usize = 0;
        while i < self.all_nodes.len()
            invariant
                i <= self.nodes().len(),
                self.nodes().len() == unchanged.len(),
                unchanged == before.nodes(),
                self.root_id == before.root_id,
                self.position == before.position,
                self.source_image == before.source_image,
                forall|k: int|
                    0 <= k < unchanged.len() ==> #[trigger] self.nodes()[k] == if k < i {
                        reparented(unchanged, node_id, parent_id)[k]
                    } else {
                        unchanged[k]
                    },
            decreases self.nodes().len() - i,
        {
            assert(self.nodes()[i as int] == self.all_nodes@[i as int]@);
            if self.all_nodes[i].get_parent_id() == Some(node_id) {
                let ghost was = self.nodes();
                self.all_nodes[i].set_parent(Some(parent_id));
                proof {
                    assert(self.nodes() =~= was.update(
                        i as int,
                        PoolNodeView { parent_id: Some(parent_id), ..was[i as int] },
                    ));
                }
            }
            i = i + 1;
        }
        proof {
            assert(self.nodes() =~= reparented(before.nodes(), node_id, parent_id));
        }
        // moves the position off the node
        if self.position == node_id {
            self.position = parent_id;
        }
        // removes the node
        let ghost middle = *self;
        proof {
            let k = before.index_of(node_id);
            assert forall|m: int| 0 <= m < middle.nodes().len() implies #[trigger] middle.ids()[m] == before.ids()[m] by {
                assert(middle.nodes()[m].id == before.nodes()[m].id);
            }
            assert(middle.ids() =~= before.ids());
        }
        match self.find(node_id) {
            Some(i) => {
                self.all_nodes.remove(i);
            },
            None => {},
        }
        proof {
            let k = before.index_of(node_id);
            before.lemma_parent_walk(node_id);
            assert(self.nodes() =~= reparented(before.nodes(), node_id, parent_id).remove(k));
            before.lemma_removed_wf(self, k);
        }
    }

    /// Removes the given `Node` while preserving heredity: the nodes whose
    /// parent it was get its parent for theirs, and the position moves to
    /// that parent when it was on the node. The root cannot be removed;
    /// removal fails, changing nothing, when the node or its parent is not in
    /// the `Pool`.
    #[verifier::spinoff_prover]
    #[verifier::rlimit(100)]
    pub fn remove_node(&mut self, node_id: u128) -> (result: Result<(), TreeError>)
        requires
            old(self).wf(),
        ensures
            final(self).wf(),
            final(self).root() == old(self).root(),
            final(self).source() == old(self).source(),
            node_id == old(self).root() ==> result == Err::<(), TreeError>(TreeError::RootIsFixed)
                && final(self).nodes() == old(self).nodes() && final(self).pos() == old(self).pos(),
            node_id != old(self).root() && !old(self).has(node_id) ==> result == Err::<(), TreeError>(
                TreeError::NodeNotFound(node_id),
            ) && final(self).nodes() == old(self).nodes() && final(self).pos() == old(self).pos(),
            node_id != old(self).root() && old(self).has(node_id) ==> {
                let parent = old(self).node(node_id).parent_id.unwrap();
                &&& !old(self).has(parent) ==> result == Err::<(), TreeError>(TreeError::NodeNotFound(parent))
                    && final(self).nodes() == old(self).nodes() && final(self).pos() == old(self).pos()
                &&& old(self).has(parent) ==> result == Ok::<(), TreeError>(())
                    && final(self).nodes() == old(self).removed_with_children(node_id) && final(self).pos() == (if old(self).pos() == node_id {
                    parent
                } else {
                    old(self).pos()
                })
                &&& old(self).has(parent) ==> forall|y: u128|
                    #[trigger] old(self).has(y) && y != node_id ==> final(self).upward(y) == old(self).upward(
                        y,
                    ).filter(differs_from(node_id)) && final(self).walk_end(y) == old(self).walk_end(y)
            },
    {
        if node_id == self.root_id {
            return Err(TreeError::RootIsFixed);
        }
        let ghost before = *self;
        // gets the parent id and the children ids of the node
        let (parent_id, moved_ids) = match self.get(node_id) {
            Ok(node) => (node.get_parent_id(), node.get_children_ids()),
            Err(e) => return Err(e),
        };
        proof {
            before.lemma_has(node_id);
            let k = before.index_of(node_id);
            before.lemma_node_at(k);
            assert(k != 0);
        }
        // only the root has no parent
        let parent_id = match parent_id {
            Some(p) => p,
            None => return Err(TreeError::RootIsFixed),
        };
        let pk = match self.find(parent_id) {
            Some(pk) => pk,
            None => return Err(TreeError::NodeNotFound(parent_id)),
        };
        proof {
            before.lemma_has(parent_id);
            before.lemma_parent_walk(node_id);
        }
        self.unlink(node_id, parent_id);
        proof {
            before.lemma_parent_walk(node_id);
            let kp = before.index_of(parent_id);
            assert(kp == pk);
            assert(reparented(before.nodes(), node_id, parent_id)[pk as int] == before.nodes()[pk as int]);
            assert(self.nodes()[pk as int] == before.node(parent_id));
            assert(self.nodes()[pk as int] == self.all_nodes@[pk as int]@);
        }
        let ghost linked = *self;
        // the parent lists the children of the node after its other
        // children, in place of the node
        self.all_nodes[pk].add_children(moved_ids);
        let taken = self.all_nodes[pk].remove_child(node_id);
        proof {
            let pc = before.node(parent_id).children_ids;
            let rc = before.node(node_id).children_ids;
            before.lemma_node_at(before.index_of(parent_id));
            before.lemma_node_at(before.index_of(node_id));
            assert(before.node(node_id).parent_id == Some(parent_id));
            assert(pc.contains(node_id));
            crate::workspace::shape::lemma_concat_contains(pc, rc, node_id);
            assert(taken is Ok);
            assert(self.nodes() =~= before.removed_with_children(node_id));
            before.lemma_removed_agree(&linked, self, node_id);
            assert forall|y: u128| #[trigger] before.has(y) && y != node_id implies self.upward(y) == before.upward(
                y,
            ).filter(differs_from(node_id)) && self.walk_end(y) == before.walk_end(y) by {
                before.lemma_removed_walk(&linked, node_id, y);
                linked.lemma_links_walk(self, y);
            }
            linked.lemma_links_walk(self, node_id);
        }
        Ok(())
    }
}

impl<I> Pool<I> {
    /// In a well-formed pool a walk up from any of its nodes reaches the
    /// root: it never meets an id outside the pool, and the root is the last
    /// node it passes through.
    pub proof fn lemma_walk_reaches_root(&self, x: u128)
        requires
            self.wf(),
            self.has(x),
        ensures
            self.walk_end(x) is None,
            self.upward(x).len() > 0,
            self.upward(x).last() == self.root(),
        decreases self.index_of(x),
    {
        self.lemma_has(x);
        let i = self.index_of(x);
        self.lemma_node_at(i);
        self.lemma_parent_walk(x);
        if i == 0 {
            assert(self.node(x).parent_id is None);
        } else {
            let p = self.nodes()[i].parent_id.unwrap();
            assert(self.has(p));
            self.lemma_walk_reaches_root(p);
            assert(self.upward(x) == seq![x] + self.upward(p));
        }
    }

    /// What a walk up from `x` passes through lies in the pool, stored no
    /// later than `x`.
    pub proof fn lemma_upward_members(&self, x: u128)
        requires
            self.links_wf(),
        ensures
            forall|z: u128|
                #[trigger] self.upward(x).contains(z) ==> self.has(z) && self.index_of(z) <= self.index_of(x),
        decreases self.index_of(x),
    {
        if self.has(x) {
            self.lemma_parent_walk(x);
            if let Some(p) = self.node(x).parent_id {
                if self.has(p) && self.index_of(p) < self.index_of(x) {
                    self.lemma_upward_members(p);
                    assert forall|z: u128| #[trigger] self.upward(x).contains(z) implies self.has(z)
                        && self.index_of(z) <= self.index_of(x) by {
                        crate::workspace::shape::lemma_concat_contains(seq![x], self.upward(p), z);
                        if seq![x].contains(z) {
                            assert(seq![x][0] == x);
                        }
                    }
                }
            }
        }
    }

    /// The nodes of a pool from which `r` was removed, its children handed
    /// to its parent `p`: those of the pool but `r`, each with its links.
    proof fn lemma_removed_node(&self, other: &Self, r: u128, p: u128, x: u128)
        requires
            self.links_wf(),
            self.has(r),
            self.node(r).parent_id == Some(p),
            other.nodes() == reparented(self.nodes(), r, p).remove(self.index_of(r)),
        ensures
            other.has(x) <==> self.has(x) && x != r,
            self.has(x) && x != r ==> other.node(x) == (if self.node(x).parent_id == Some(r) {
                PoolNodeView { parent_id: Some(p), ..self.node(x) }
            } else {
                self.node(x)
            }),
    {
        let k = self.index_of(r);
        self.lemma_has(r);
        let moved = reparented(self.nodes(), r, p);
        assert forall|i: int| 0 <= i < other.nodes().len() implies #[trigger] other.ids()[i] == self.ids()[if i < k {
            i
        } else {
            i + 1
        }] by {
            let si = if i < k {
                i
            } else {
                i + 1
            };
            assert(other.nodes()[i] == moved[si]);
        }
        if self.has(x) && x != r {
            self.lemma_has(x);
            let xi = self.index_of(x);
            let oi = if xi < k {
                xi
            } else {
                xi - 1
            };
            assert(other.ids()[oi] == x);
            assert(other.has(x));
            let oj = other.index_of(x);
            assert(other.ids()[oj] == x);
            let sj = if oj < k {
                oj
            } else {
                oj + 1
            };
            assert(self.ids()[sj] == x);
            assert(other.nodes()[oj] == moved[sj]);
        }
        if other.has(x) {
            let oj = other.index_of(x);
            assert(other.ids()[oj] == x);
            let sj = if oj < k {
                oj
            } else {
                oj + 1
            };
            assert(self.ids()[sj] == x);
            assert(self.ids()[k] == r);
        }
    }

    /// The nodes once `r` is taken out: its children have its parent `p` for
    /// theirs, and `p` lists them after its other children, in place of `r`.
    pub open spec fn removed_with_children(&self, r: u128) -> Seq<PoolNodeView<I>> {
        let p = self.node(r).parent_id.unwrap();
        reparented(self.nodes(), r, p).remove(self.index_of(r)).update(
            self.index_of(p),
            PoolNodeView {
                children_ids: (self.node(p).children_ids + self.node(r).children_ids).filter(differs_from(r)),
                ..self.node(p)
            },
        )
    }

    /// Taking out a node, its children handed to its parent's child list,
    /// keeps the child lists in agreement with the parent links.
    #[verifier::spinoff_prover]
    #[verifier::rlimit(80)]
    proof fn lemma_removed_agree(&self, linked: &Self, other: &Self, r: u128)
        requires
            self.wf(),
            self.has(r),
            r != self.root(),
            self.has(self.node(r).parent_id.unwrap()),
            linked.nodes() == reparented(self.nodes(), r, self.node(r).parent_id.unwrap()).remove(self.index_of(r)),
            linked.links_wf(),
            other.nodes() == self.removed_with_children(r),
        ensures
            other.children_agree(),
            other.ids() == linked.ids(),
    {
        let p = self.node(r).parent_id.unwrap();
        let kr = self.index_of(r);
        let kp = self.index_of(p);
        self.lemma_has(r);
        self.lemma_has(p);
        self.lemma_node_at(0);
        self.lemma_parent_walk(r);
        assert(kr != 0);
        assert(kp < kr);
        let pc = self.node(p).children_ids;
        let rc = self.node(r).children_ids;
        let pm = PoolNodeView { children_ids: (pc + rc).filter(differs_from(r)), ..self.node(p) };
        self.lemma_removed_node(linked, r, p, p);
        assert(linked.nodes()[kp] == self.node(p)) by {
            assert(reparented(self.nodes(), r, p)[kp] == self.nodes()[kp]);
        }
        assert forall|i: int| 0 <= i < linked.nodes().len() implies #[trigger] other.ids()[i] == linked.ids()[i] by {}
        assert(other.ids() =~= linked.ids());
        assert forall|x: u128| #[trigger] other.has(x) <==> self.has(x) && x != r by {
            self.lemma_removed_node(linked, r, p, x);
        }
        assert forall|x: u128| #[trigger] self.has(x) && x != r implies other.node(x) == (if x == p {
            pm
        } else if self.node(x).parent_id == Some(r) {
            PoolNodeView { parent_id: Some(p), ..self.node(x) }
        } else {
            self.node(x)
        }) by {
            self.lemma_removed_node(linked, r, p, x);
            let oi = linked.index_of(x);
            linked.lemma_has(x);
            assert(linked.ids()[oi] == x);
            assert(linked.ids()[kp] == p);
            assert(other.index_of(x) == oi);
            if x == p {
                assert(oi == kp);
                assert(other.nodes()[oi] == pm);
            } else {
                assert(oi != kp);
                assert(other.nodes()[oi] == linked.nodes()[oi]);
                assert(linked.node(x) == linked.nodes()[oi]);
            }
        }
        // the children of `p` and of `r`
        assert forall|c: u128| #[trigger] pc.contains(c) implies self.has(c) && self.node(c).parent_id == Some(p) by {
            let kk = choose|kk: int| 0 <= kk < pc.len() && pc[kk] == c;
            assert(self.nodes()[kp].children_ids[kk] == c);
        }
        assert forall|c: u128| #[trigger] rc.contains(c) implies self.has(c) && self.node(c).parent_id == Some(r) by {
            let kk = choose|kk: int| 0 <= kk < rc.len() && rc[kk] == c;
            assert(self.nodes()[kr].children_ids[kk] == c);
        }
        assert(pm.children_ids.no_duplicates()) by {
            assert(self.nodes()[kp].children_ids.no_duplicates());
            assert(self.nodes()[kr].children_ids.no_duplicates());
            assert forall|a: int, b: int| 0 <= a < pc.len() && 0 <= b < rc.len() implies pc[a] != rc[b] by {
                assert(pc.contains(pc[a]));
                assert(rc.contains(rc[b]));
            }
            vstd::seq_lib::lemma_no_dup_in_concat(pc, rc);
            crate::workspace::shape::lemma_filter_out(pc + rc, r);
        }
        crate::workspace::shape::lemma_filter_out(pc + rc, r);
        assert forall|i: int| 0 <= i < other.nodes().len() implies (
        #[trigger] other.nodes()[i]).children_ids.no_duplicates() by {
            let x = other.nodes()[i].id;
            assert(other.ids()[i] == x);
            assert(other.node(x) == other.nodes()[i]) by {
                let oi = other.index_of(x);
                assert(other.ids()[oi] == x);
            }
            if x != p {
                self.lemma_has(x);
                assert(self.nodes()[self.index_of(x)].children_ids.no_duplicates());
            }
        }
        assert forall|i: int, kk: int|
            0 <= i < other.nodes().len() && 0 <= kk < other.nodes()[i].children_ids.len() implies other.has(
                #[trigger] other.nodes()[i].children_ids[kk],
            ) && other.node(other.nodes()[i].children_ids[kk]).parent_id == Some(other.nodes()[i].id) by {
            let x = other.nodes()[i].id;
            assert(other.ids()[i] == x);
            assert(other.node(x) == other.nodes()[i]) by {
                let oi = other.index_of(x);
                assert(other.ids()[oi] == x);
            }
            let c = other.nodes()[i].children_ids[kk];
            assert(other.has(x));
            assert(self.has(x) && x != r);
            if x == p {
                assert(pm.children_ids[kk] == c);
                assert(pm.children_ids.contains(c));
                crate::workspace::shape::lemma_concat_contains(pc, rc, c);
                assert(c != r);
                if pc.contains(c) {
                    self.lemma_parent_walk(c);
                    assert(c != p);
                } else {
                    assert(rc.contains(c));
                    self.lemma_parent_walk(c);
                    assert(c != p);
                }
                assert(self.has(c));
            } else {
                self.lemma_has(x);
                let si = self.index_of(x);
                assert(other.node(x).children_ids == self.node(x).children_ids);
                assert(self.nodes()[si] == self.node(x));
                assert(self.nodes()[si].children_ids[kk] == c);
                assert(self.has(c) && self.node(c).parent_id == Some(x));
                assert(c != r);
                self.lemma_parent_walk(c);
                assert(self.has(c));
            }
        }
        assert forall|j: int| 1 <= j < other.nodes().len() implies other.has(
            (#[trigger] other.nodes()[j]).parent_id.unwrap(),
        ) && other.node(other.nodes()[j].parent_id.unwrap()).children_ids.contains(other.nodes()[j].id) by {
            let y = other.nodes()[j].id;
            assert(other.ids()[j] == y);
            assert(other.node(y) == other.nodes()[j]) by {
                let oj = other.index_of(y);
                assert(other.ids()[oj] == y);
            }
            assert(other.has(y));
            assert(self.has(y) && y != r);
            assert(other.ids()[0] == self.nodes()[0].id) by {
                assert(reparented(self.nodes(), r, p)[0] == self.nodes()[0]);
                assert(linked.nodes()[0] == self.nodes()[0]);
            }
            assert(y != self.root());
            self.lemma_has(y);
            let sj = self.index_of(y);
            assert(self.nodes()[sj].id == y);
            assert(sj != 0);
            let q = self.node(y).parent_id.unwrap();
            assert(self.nodes()[sj] == self.node(y));
            assert(self.has(q) && self.node(q).children_ids.contains(y));
            if q == r {
                crate::workspace::shape::lemma_concat_contains(pc, rc, y);
                assert(other.node(y).parent_id == Some(p));
                assert(other.has(p));
                assert(pm.children_ids.contains(y));
            } else if q == p {
                crate::workspace::shape::lemma_concat_contains(pc, rc, y);
                assert(other.node(y).parent_id == Some(p));
                assert(other.has(p));
                assert(pm.children_ids.contains(y));
            } else {
                assert(other.node(y).parent_id == Some(q));
                assert(other.has(q));
                assert(other.node(q).children_ids == self.node(q).children_ids);
            }
        }
    }

    /// Removing `r`, its children handed to its parent, takes `r` out of the
    /// walk up from every other node and changes nothing else in it.
    #[verifier::spinoff_prover]
    #[verifier::rlimit(80)]
    pub proof fn lemma_removed_walk(&self, other: &Self, r: u128, y: u128)
        requires
            self.links_wf(),
            other.links_wf(),
            self.has(r),
            r != self.root(),
            self.has(self.node(r).parent_id.unwrap()),
            other.nodes() == reparented(self.nodes(), r, self.node(r).parent_id.unwrap()).remove(self.index_of(r)),
            self.has(y),
            y != r,
        ensures
            other.upward(y) == self.upward(y).filter(differs_from(r)),
            other.walk_end(y) == self.walk_end(y),
        decreases self.index_of(y),
    {
        let pred = differs_from(r);
        self.lemma_has(r);
        self.lemma_node_at(0);
        let p = self.node(r).parent_id.unwrap();
        self.lemma_parent_walk(r);
        self.lemma_parent_walk(y);
        self.lemma_removed_node(other, r, p, y);
        assert(other.has(y));
        other.lemma_parent_walk(y);
        match self.node(y).parent_id {
            None => {
                reveal(Seq::filter);
                assert(seq![y].filter(pred) =~= seq![y].drop_last().filter(pred).push(y));
                assert(seq![y].drop_last().filter(pred) =~= Seq::<u128>::empty());
            },
            Some(q) => {
                if q == r {
                    self.lemma_removed_node(other, r, p, p);
                    self.lemma_removed_walk(other, r, p);
                    self.lemma_upward_members(p);
                    assert(!self.upward(p).contains(r));
                    crate::workspace::shape::lemma_filter_out(self.upward(p), r);
                    assert(self.upward(y) == seq![y] + self.upward(r));
                    assert(self.upward(r) == seq![r] + self.upward(p));
                    assert(other.upward(y) == seq![y] + other.upward(p));
                    self.upward(r).lemma_filter_prepend(y, pred);
                    self.upward(p).lemma_filter_prepend(r, pred);
                    assert(self.upward(y) =~= seq![y] + (seq![r] + self.upward(p)));
                    assert(self.walk_end(y) == self.walk_end(r));
                    assert(self.walk_end(r) == self.walk_end(p));
                    assert(other.walk_end(y) == other.walk_end(p));
                } else {
                    self.lemma_removed_node(other, r, p, q);
                    if self.has(q) {
                        self.lemma_removed_walk(other, r, q);
                        self.upward(q).lemma_filter_prepend(y, pred);
                        assert(self.walk_end(y) == self.walk_end(q));
                        assert(other.walk_end(y) == other.walk_end(q));
                    } else {
                        assert(self.walk_end(y) == Some(q));
                        assert(other.walk_end(y) == Some(q));
                        reveal(Seq::filter);
                        assert(seq![y].filter(pred) =~= seq![y].drop_last().filter(pred).push(y));
                        assert(seq![y].drop_last().filter(pred) =~= Seq::<u128>::empty());
                    }
                }
            },
        }
    }
}

impl<I> Pool<I> {
    /// The nodes once `n` is put right after the position, taking over the
    /// children of the position.
    pub open spec fn spliced(&self, n: PoolNodeView<I>) -> Seq<PoolNodeView<I>> {
        reparented(self.nodes(), self.pos(), n.id).insert(self.index_of(self.pos()) + 1, n)
    }

    /// The ids of a pool once a node is put right after the position.
    #[verifier::spinoff_prover]
    proof fn lemma_spliced_ids(&self, other: &Self, n: PoolNodeView<I>)
        requires
            self.links_wf(),
            !self.known(n.id),
            other.nodes() == self.spliced(n),
        ensures
            other.ids() == self.ids().insert(self.index_of(self.pos()) + 1, n.id),
            other.ids().no_duplicates(),
            other.nodes().len() == self.nodes().len() + 1,
    {
        let k = self.index_of(self.pos());
        self.lemma_has(self.pos());
        let moved = reparented(self.nodes(), self.pos(), n.id);
        moved.insert_ensures(k + 1, n);
        self.ids().insert_ensures(k + 1, n.id);
        assert forall|i: int| 0 <= i < other.nodes().len() implies #[trigger] other.ids()[i] == self.ids().insert(
            k + 1,
            n.id,
        )[i] by {
            if i <= k {
                assert(other.nodes()[i] == moved[i]);
            } else if i > k + 1 {
                assert(other.nodes()[i] == moved[i - 1]);
            }
        }
        assert(other.ids() =~= self.ids().insert(k + 1, n.id));
        assert(!self.has(n.id));
        assert(other.ids().no_duplicates()) by {
            assert forall|i: int, j: int| 0 <= i < other.ids().len() && 0 <= j < other.ids().len() && i != j implies
                other.ids()[i] != other.ids()[j] by {
                let si = if i <= k {
                    i
                } else {
                    i - 1
                };
                let sj = if j <= k {
                    j
                } else {
                    j - 1
                };
                if i == k + 1 {
                    assert(self.ids()[sj] == other.ids()[j]);
                } else if j == k + 1 {
                    assert(self.ids()[si] == other.ids()[i]);
                } else {
                    assert(self.ids()[si] == other.ids()[i]);
                    assert(self.ids()[sj] == other.ids()[j]);
                }
            }
        }
    }

    /// The nodes once `n` is put right after the position with the child
    /// lists kept in step: the position lists only `n`, and `n` lists the
    /// former children of the position.
    pub open spec fn spliced_with_children(&self, n: PoolNodeView<I>) -> Seq<PoolNodeView<I>> {
        self.spliced(n).update(
            self.index_of(self.pos()),
            PoolNodeView { children_ids: seq![n.id], ..self.node(self.pos()) },
        ).update(
            self.index_of(self.pos()) + 1,
            PoolNodeView { children_ids: self.node(self.pos()).children_ids, ..n },
        )
    }

    /// Putting a node right after the position, with the child lists kept in
    /// step, keeps them in agreement with the parent links.
    #[verifier::spinoff_prover]
    #[verifier::rlimit(80)]
    proof fn lemma_spliced_agree(&self, mid: &Self, other: &Self, n: PoolNodeView<I>)
        requires
            self.wf(),
            !self.known(n.id),
            n.parent_id == Some(self.pos()),
            n.children_ids.len() == 0,
            mid.nodes() == self.spliced(n),
            other.nodes() == self.spliced_with_children(n),
        ensures
            other.children_agree(),
            other.ids() == mid.ids(),
    {
        let pos = self.pos();
        let k = self.index_of(pos);
        self.lemma_has(pos);
        self.lemma_spliced_ids(mid, n);
        let cs = self.node(pos).children_ids;
        let pm = PoolNodeView { children_ids: seq![n.id], ..self.node(pos) };
        let nm = PoolNodeView { children_ids: cs, ..n };
        self.lemma_spliced(mid, n, pos);
        assert(mid.nodes()[k] == self.node(pos));
        assert(mid.nodes()[k + 1] == n);
        assert forall|i: int| 0 <= i < mid.nodes().len() implies #[trigger] other.ids()[i] == mid.ids()[i] by {}
        assert(other.ids() =~= mid.ids());
        assert(!self.has(n.id));
        // the nodes of `other`, by id
        assert forall|x: u128| #[trigger] other.has(x) <==> self.has(x) || x == n.id by {
            self.lemma_spliced(mid, n, x);
        }
        assert forall|x: u128| #[trigger] self.has(x) implies other.node(x) == (if x == pos {
            pm
        } else if self.node(x).parent_id == Some(pos) {
            PoolNodeView { parent_id: Some(n.id), ..self.node(x) }
        } else {
            self.node(x)
        }) by {
            self.lemma_spliced(mid, n, x);
            let oi = mid.index_of(x);
            assert(other.ids()[oi] == x);
            self.lemma_has(x);
            if x != pos {
                assert(oi != k);
                assert(oi != k + 1);
            }
        }
        assert(other.node(n.id) == nm) by {
            assert(other.ids()[k + 1] == n.id);
        }
        // the former children of the position
        assert forall|c: u128| #[trigger] cs.contains(c) implies self.has(c) && self.node(c).parent_id == Some(pos)
            && c != pos by {
            let kk = choose|kk: int| 0 <= kk < cs.len() && cs[kk] == c;
            assert(self.nodes()[k].children_ids[kk] == c);
            self.lemma_parent_walk(c);
        }
        assert forall|i: int| 0 <= i < other.nodes().len() implies (
        #[trigger] other.nodes()[i]).children_ids.no_duplicates() by {
            let x = other.nodes()[i].id;
            assert(other.ids()[i] == x);
            assert(other.has(x));
            assert(other.node(x) == other.nodes()[i]) by {
                let oi = other.index_of(x);
                assert(other.ids()[oi] == x);
            }
            if x != n.id && x != pos {
                self.lemma_has(x);
                assert(self.nodes()[self.index_of(x)].children_ids.no_duplicates());
            } else if x == pos {
                assert(seq![n.id].len() == 1);
            } else {
                assert(self.nodes()[k].children_ids.no_duplicates());
            }
        }
        assert forall|i: int, kk: int|
            0 <= i < other.nodes().len() && 0 <= kk < other.nodes()[i].children_ids.len() implies other.has(
                #[trigger] other.nodes()[i].children_ids[kk],
            ) && other.node(other.nodes()[i].children_ids[kk]).parent_id == Some(other.nodes()[i].id) by {
            let x = other.nodes()[i].id;
            assert(other.ids()[i] == x);
            assert(other.node(x) == other.nodes()[i]) by {
                let oi = other.index_of(x);
                assert(other.ids()[oi] == x);
            }
            let c = other.nodes()[i].children_ids[kk];
            if x == pos {
                assert(c == n.id);
            } else if x == n.id {
                assert(cs[kk] == c);
                assert(cs.contains(c));
            } else {
                self.lemma_has(x);
                let si = self.index_of(x);
                assert(self.nodes()[si].children_ids[kk] == c);
                assert(self.has(c) && self.node(c).parent_id == Some(x));
            }
        }
        assert forall|j: int| 1 <= j < other.nodes().len() implies other.has(
            (#[trigger] other.nodes()[j]).parent_id.unwrap(),
        ) && other.node(other.nodes()[j].parent_id.unwrap()).children_ids.contains(other.nodes()[j].id) by {
            let y = other.nodes()[j].id;
            assert(other.ids()[j] == y);
            assert(other.node(y) == other.nodes()[j]) by {
                let oj = other.index_of(y);
                assert(other.ids()[oj] == y);
            }
            if y == n.id {
                assert(seq![n.id][0] == n.id);
            } else {
                self.lemma_has(y);
                let sj = self.index_of(y);
                assert(sj != 0) by {
                    assert(self.ids()[0] == self.nodes()[0].id);
                    if sj == 0 {
                        assert(mid.ids()[0] == y);
                    }
                }
                let q = self.node(y).parent_id.unwrap();
                assert(self.has(q) && self.node(q).children_ids.contains(y));
                if q == pos {
                    assert(cs.contains(y));
                } else {
                    assert(q != n.id);
                }
            }
        }
    }

    /// Where the nodes of a pool are once a node is put right after the
    /// position, and what they hold.
    #[verifier::spinoff_prover]
    #[verifier::rlimit(40)]
    proof fn lemma_spliced(&self, other: &Self, n: PoolNodeView<I>, x: u128)
        requires
            self.links_wf(),
            !self.known(n.id),
            other.nodes() == self.spliced(n),
        ensures
            other.ids().no_duplicates(),
            other.has(n.id),
            other.index_of(n.id) == self.index_of(self.pos()) + 1,
            other.node(n.id) == n,
            other.has(x) ==> self.has(x) || x == n.id,
            self.has(x) ==> {
                &&& other.has(x)
                &&& other.index_of(x) == if self.index_of(x) <= self.index_of(self.pos()) {
                    self.index_of(x)
                } else {
                    self.index_of(x) + 1
                }
                &&& other.node(x) == if self.node(x).parent_id == Some(self.pos()) {
                    PoolNodeView { parent_id: Some(n.id), ..self.node(x) }
                } else {
                    self.node(x)
                }
            },
    {
        let k = self.index_of(self.pos());
        self.lemma_has(self.pos());
        self.lemma_spliced_ids(other, n);
        let moved = reparented(self.nodes(), self.pos(), n.id);
        moved.insert_ensures(k + 1, n);
        self.ids().insert_ensures(k + 1, n.id);
        assert(other.ids()[k + 1] == n.id);
        let ni = other.index_of(n.id);
        assert(other.ids()[ni] == n.id);
        assert(other.nodes()[k + 1] == n);
        if self.has(x) {
            self.lemma_has(x);
            let xi = self.index_of(x);
            let oi = if xi <= k {
                xi
            } else {
                xi + 1
            };
            assert(other.ids()[oi] == x);
            let oj = other.index_of(x);
            assert(other.ids()[oj] == x);
            assert(other.nodes()[oi] == moved[xi]);
        }
        if other.has(x) && x != n.id {
            let oj = other.index_of(x);
            assert(other.ids()[oj] == x);
            let sj = if oj <= k {
                oj
            } else {
                oj - 1
            };
            assert(self.ids()[sj] == x);
        }
    }

    /// Putting a node right after the position, taking over its children,
    /// keeps the pool well formed.
    #[verifier::spinoff_prover]
    #[verifier::rlimit(40)]
    proof fn lemma_spliced_wf(&self, other: &Self, n: PoolNodeView<I>)
        requires
            self.links_wf(),
            !self.known(n.id),
            n.parent_id == Some(self.pos()),
            n.children_ids.len() == 0,
            other.nodes() == self.spliced(n),
            other.root() == self.root(),
            other.pos() == n.id,
        ensures
            other.links_wf(),
    {
        let k = self.index_of(self.pos());
        self.lemma_has(self.pos());
        self.lemma_spliced(other, n, n.id);
        let moved = reparented(self.nodes(), self.pos(), n.id);
        moved.insert_ensures(k + 1, n);
        assert forall|i: int| 0 <= i < self.nodes().len() implies #[trigger] moved[i].id == self.nodes()[i].id
            && moved[i].children_ids == self.nodes()[i].children_ids && (moved[i].parent_id is Some
            <==> self.nodes()[i].parent_id is Some) by {}
        assert(other.nodes()[0] == moved[0]);
        assert(self.nodes()[0].parent_id is None);
        assert forall|i: int| 1 <= i < other.nodes().len() implies (#[trigger] other.nodes()[i]).parent_id is Some by {
            if i <= k {
                assert(other.nodes()[i] == moved[i]);
            } else if i > k + 1 {
                assert(other.nodes()[i] == moved[i - 1]);
            }
        }
        assert forall|i: int, j: int|
            0 <= i < other.nodes().len() && 0 <= j < other.nodes().len() && #[trigger] other.nodes()[i].parent_id
                == Some(#[trigger] other.nodes()[j].id) implies j < i by {
            let si = if i <= k {
                i
            } else {
                i - 1
            };
            let sj = if j <= k {
                j
            } else {
                j - 1
            };
            if i == k + 1 {
                assert(other.nodes()[i] == n);
                assert(j != k + 1);
                assert(other.nodes()[j] == moved[sj]);
                assert(self.ids()[sj] == self.pos());
                assert(self.ids()[k] == self.pos());
            } else if j == k + 1 {
                assert(other.nodes()[i] == moved[si]);
                if self.nodes()[si].parent_id == Some(self.pos()) {
                    assert(self.nodes()[si].parent_id == Some(self.nodes()[k].id));
                } else {
                    assert(self.nodes()[si].parent_id == Some(n.id));
                    assert(false);
                }
            } else {
                assert(other.nodes()[i] == moved[si]);
                assert(other.nodes()[j] == moved[sj]);
                if self.nodes()[si].parent_id == Some(self.pos()) {
                    assert(moved[si].parent_id == Some(n.id));
                    assert(self.ids()[sj] == n.id);
                    assert(false);
                }
            }
        }
    }

    /// Putting a node right after the position leaves the walks up from the
    /// nodes stored up to the position as they were.
    #[verifier::spinoff_prover]
    proof fn lemma_spliced_walk(&self, other: &Self, n: PoolNodeView<I>, x: u128)
        requires
            self.links_wf(),
            other.links_wf(),
            !self.known(n.id),
            other.nodes() == self.spliced(n),
            self.has(x),
            self.index_of(x) <= self.index_of(self.pos()),
        ensures
            other.upward(x) == self.upward(x),
            other.walk_end(x) == self.walk_end(x),
        decreases self.index_of(x),
    {
        self.lemma_spliced(other, n, x);
        self.lemma_has(x);
        self.lemma_has(self.pos());
        self.lemma_parent_walk(x);
        other.lemma_parent_walk(x);
        assert(self.node(x).parent_id != Some(self.pos())) by {
            if self.node(x).parent_id == Some(self.pos()) {
                assert(self.nodes()[self.index_of(x)].parent_id == Some(self.nodes()[self.index_of(self.pos())].id));
            }
        }
        if let Some(q) = self.node(x).parent_id {
            self.lemma_spliced(other, n, q);
            assert(q != n.id) by {
                if q == n.id {
                    assert(self.nodes()[self.index_of(x)].parent_id == Some(n.id));
                }
            }
            if self.has(q) {
                self.lemma_spliced_walk(other, n, q);
            }
        }
    }

    /// Puts `node` right after the position in storage, gives it the nodes
    /// whose parent is the position, and moves the position to it; child
    /// lists are left as they were.
    #[verifier::spinoff_prover]
    #[verifier::rlimit(60)]
    fn link_after_position(&mut self, node: Node<I>, k: usize)
        requires
            old(self).wf(),
            !old(self).known(node@.id),
            node@.parent_id == Some(old(self).pos()),
            node@.children_ids.len() == 0,
            k == old(self).index_of(old(self).pos()),
        ensures
            final(self).nodes() == old(self).spliced(node@),
            final(self).links_wf(),
            final(self).root() == old(self).root(),
            final(self).source() == old(self).source(),
            final(self).pos() == node@.id,
    {
        let ghost before = *self;
        let ghost n = node@;
        let id = node.get_id();
        let position = self.position;
        proof {
            before.lemma_has(position);
        }
        // gives the new node the children of the position, found by their links
        let ghost unchanged = self.nodes();
        let mut i: usize = 0;
        while i < self.all_nodes.len()
            invariant
                i <= self.nodes().len(),
                self.nodes().len() == unchanged.len(),
                unchanged == before.nodes(),
                self.root_id == before.root_id,
                self.position == before.position,
                self.source_image == before.source_image,
                forall|m: int|
                    0 <= m < unchanged.len() ==> #[trigger] self.nodes()[m] == if m < i {
                        reparented(unchanged, position, id)[m]
                    } else {
                        unchanged[m]
                    },
            decreases self.nodes().len() - i,
        {
            assert(self.nodes()[i as int] == self.all_nodes@[i as int]@);
            if self.all_nodes[i].get_parent_id() == Some(position) {
                let ghost was = self.nodes();
                self.all_nodes[i].set_parent(Some(id));
                proof {
                    assert(self.nodes() =~= was.update(i as int, PoolNodeView { parent_id: Some(id), ..was[i as int] }));
                }
            }
            i = i + 1;
        }
        let ghost mid_vec = self.all_nodes@;
        proof {
            assert(self.nodes() =~= reparented(before.nodes(), position, id));
        }
        self.all_nodes.insert(k + 1, node);
        self.position = id;
        proof {
            let mid = reparented(before.nodes(), position, id);
            mid_vec.insert_ensures(k + 1, node);
            mid.insert_ensures(k + 1, n);
            assert forall|m: int| 0 <= m < self.nodes().len() implies #[trigger] self.nodes()[m] == mid.insert(
                k + 1,
                n,
            )[m] by {
                if m > k + 1 {
                    assert(self.all_nodes@[m] == mid_vec[m - 1]);
                }
            }
            assert(self.nodes() =~= mid.insert(k + 1, n));
            assert(self.nodes() =~= before.spliced(n));
            before.lemma_spliced_wf(self, n);
        }
    }

    /// Stores a new node right after the position, gives it the children of
    /// the position, moves the position to it and clears the cached images
    /// on its way up.
    #[verifier::spinoff_prover]
    #[verifier::rlimit(100)]
    fn splice(&mut self, node: Node<I>) -> (result: Result<(), TreeError>)
        requires
            old(self).wf(),
            !old(self).known(node@.id),
            node@.parent_id == Some(old(self).pos()),
            node@.children_ids.len() == 0,
        ensures
            final(self).wf(),
            final(self).root() == old(self).root(),
            final(self).source() == old(self).source(),
            final(self).pos() == node@.id,
            final(self).nodes() == pool_images_cleared(
                old(self).spliced_with_children(node@),
                seq![node@.id] + old(self).upward(old(self).pos()),
            ),
            result == match old(self).walk_end(old(self).pos()) {
                None => Ok::<(), TreeError>(()),
                Some(missing) => Err(TreeError::NodeNotFound(missing)),
            },
            forall|y: u128|
                #[trigger] old(self).has(y) ==> final(self).upward(y).filter(differs_from(node@.id)) == old(
                    self,
                ).upward(y) && (final(self).upward(y).contains(node@.id) <==> y != old(self).pos() && old(
                    self,
                ).upward(y).contains(old(self).pos())),
            final(self).upward(node@.id) == seq![node@.id] + old(self).upward(old(self).pos()),
    {
        let ghost before = *self;
        let ghost n = node@;
        let id = node.get_id();
        let position = self.position;
        let k = match self.find(position) {
            Some(k) => k,
            None => return Err(TreeError::NodeNotFound(position)),
        };
        proof {
            before.lemma_node_at(k as int);
        }
        let children = self.all_nodes[k].get_children_ids();
        self.link_after_position(node, k);
        proof {
            before.lemma_spliced_ids(self, n);
            assert(self.nodes().len() == self.all_nodes@.len());
            before.lemma_spliced(self, n, position);
            before.lemma_has(position);
            before.lemma_spliced_walk(self, n, position);
            self.lemma_parent_walk(id);
            assert(self.node(id).parent_id == Some(position));
            assert(self.upward(id) == seq![id] + self.upward(position));
            assert(self.walk_end(id) == self.walk_end(position));
        }
        let ghost linked = *self;
        let total = self.all_nodes.len();
        proof {
            assert(total == before.nodes().len() + 1);
            assert(k < before.nodes().len());
        }
        // the position lists only the new node, which lists the former
        // children of the position
        self.all_nodes[k].remove_children();
        self.all_nodes[k].add_child(id);
        self.all_nodes[k + 1].add_children(children);
        proof {
            assert(linked.nodes()[k as int] == before.node(position));
            assert(linked.nodes()[k + 1] == n);
            assert(self.nodes() =~= before.spliced_with_children(n));
            before.lemma_spliced_agree(&linked, self, n);
            linked.lemma_links_walk(self, id);
            linked.lemma_links_walk(self, position);
        }
        let ghost mid = *self;
        let result = self.prune(id);
        proof {
            assert forall|y: u128| #[trigger] before.has(y) implies self.upward(y).filter(differs_from(id))
                == before.upward(y) && (self.upward(y).contains(id) <==> y != before.pos() && before.upward(
                y,
            ).contains(before.pos())) by {
                before.lemma_spliced_heredity(&linked, n, y);
                linked.lemma_links_walk(&mid, y);
                mid.lemma_cleared_walk(self, mid.upward(id), y);
            }
            mid.lemma_cleared_walk(self, mid.upward(id), id);
        }
        result
    }
}

impl<I> Pool<I> {
    /// The walk up from a former child of the position, once a node is put
    /// right after the position, passes through that node.
    #[verifier::spinoff_prover]
    #[verifier::rlimit(60)]
    proof fn lemma_spliced_child_heredity(&self, other: &Self, n: PoolNodeView<I>, y: u128)
        requires
            self.links_wf(),
            other.links_wf(),
            !self.known(n.id),
            n.parent_id == Some(self.pos()),
            other.nodes() == self.spliced(n),
            self.has(y),
            y != self.pos(),
            self.node(y).parent_id == Some(self.pos()),
        ensures
            other.upward(y).filter(differs_from(n.id)) == self.upward(y),
            other.upward(y).contains(n.id) <==> y != self.pos() && self.upward(y).contains(self.pos()),
            other.walk_end(y) == self.walk_end(y),
    {
        let pred = differs_from(n.id);
        let pos = self.pos();
        self.lemma_has(pos);
        self.lemma_has(y);
        self.lemma_spliced(other, n, y);
        self.lemma_parent_walk(y);
        other.lemma_parent_walk(y);
        self.lemma_spliced(other, n, pos);
        self.lemma_spliced(other, n, n.id);
        other.lemma_parent_walk(n.id);
        self.lemma_spliced_walk(other, n, pos);
        assert(other.node(y).parent_id == Some(n.id));
        assert(other.upward(y) == seq![y] + other.upward(n.id));
        assert(other.upward(n.id) == seq![n.id] + other.upward(pos));
        assert(self.upward(y) == seq![y] + self.upward(pos));
        self.lemma_upward_members(pos);
        assert(!self.upward(pos).contains(n.id));
        crate::workspace::shape::lemma_filter_out(self.upward(pos), n.id);
        self.upward(pos).lemma_filter_prepend(n.id, pred);
        other.upward(n.id).lemma_filter_prepend(y, pred);
        assert(other.upward(y)[1] == n.id);
        assert(self.upward(pos)[0] == pos) by {
            assert(self.upward(pos) =~= seq![pos] + self.upward(pos).drop_first());
        }
        assert(self.upward(y)[1] == pos);
        assert(other.walk_end(y) == other.walk_end(n.id));
        assert(other.walk_end(n.id) == other.walk_end(pos));
        assert(self.walk_end(y) == self.walk_end(pos));
    }

    /// Putting `n` right after the position puts it on the walk up from
    /// exactly the nodes whose walk passed through the position (the position
    /// itself aside), and changes nothing else in any walk.
    #[verifier::spinoff_prover]
    #[verifier::rlimit(100)]
    pub proof fn lemma_spliced_heredity(&self, other: &Self, n: PoolNodeView<I>, y: u128)
        requires
            self.links_wf(),
            other.links_wf(),
            !self.known(n.id),
            n.parent_id == Some(self.pos()),
            other.nodes() == self.spliced(n),
            self.has(y),
        ensures
            other.upward(y).filter(differs_from(n.id)) == self.upward(y),
            other.upward(y).contains(n.id) <==> y != self.pos() && self.upward(y).contains(self.pos()),
            other.walk_end(y) == self.walk_end(y),
        decreases self.index_of(y),
    {
        let pred = differs_from(n.id);
        let pos = self.pos();
        let k = self.index_of(pos);
        self.lemma_has(pos);
        self.lemma_has(y);
        self.lemma_spliced(other, n, y);
        self.lemma_upward_members(y);
        assert(!self.upward(y).contains(n.id)) by {
            assert(!self.has(n.id));
        }
        crate::workspace::shape::lemma_filter_out(self.upward(y), n.id);
        if self.index_of(y) <= k {
            self.lemma_spliced_walk(other, n, y);
            if y != pos && self.upward(y).contains(pos) {
                assert(self.index_of(pos) <= self.index_of(y));
                assert(self.ids()[k] == pos);
                assert(self.ids()[self.index_of(y)] == y);
            }
        } else {
            assert(y != pos);
            self.lemma_parent_walk(y);
            other.lemma_parent_walk(y);
            match self.node(y).parent_id {
                None => {
                    assert(self.nodes()[self.index_of(y)] == self.node(y));
                    assert(self.index_of(y) == 0);
                },
                Some(q) => {
                    assert(q != n.id) by {
                        if q == n.id {
                            assert(self.nodes()[self.index_of(y)].parent_id == Some(n.id));
                        }
                    }
                    self.lemma_spliced(other, n, q);
                    if q == pos {
                        self.lemma_spliced_child_heredity(other, n, y);
                    } else if self.has(q) {
                        self.lemma_spliced_heredity(other, n, q);
                        assert(other.upward(y) == seq![y] + other.upward(q));
                        assert(self.upward(y) == seq![y] + self.upward(q));
                        other.upward(q).lemma_filter_prepend(y, pred);
                        crate::workspace::shape::lemma_concat_contains(seq![y], other.upward(q), n.id);
                        crate::workspace::shape::lemma_concat_contains(seq![y], self.upward(q), pos);
                        assert(seq![y].contains(n.id) == false) by {
                            if seq![y].contains(n.id) {
                                assert(seq![y][0] == y);
                            }
                        }
                        assert(seq![y].contains(pos) == false) by {
                            if seq![y].contains(pos) {
                                assert(seq![y][0] == y);
                            }
                        }
                        assert(other.walk_end(y) == other.walk_end(q));
                        assert(self.walk_end(y) == self.walk_end(q));
                    } else {
                        assert(!other.has(q));
                        assert(other.upward(y) == seq![y]);
                        assert(self.upward(y) == seq![y]);
                        assert(seq![y].contains(n.id) == false) by {
                            if seq![y].contains(n.id) {
                                assert(seq![y][0] == y);
                            }
                        }
                        assert(seq![y].contains(pos) == false) by {
                            if seq![y].contains(pos) {
                                assert(seq![y][0] == y);
                            }
                        }
                    }
                },
            }
        }
    }
}

/// What generating the image of a node of a `Pool` comes to.
pub enum Generation<I> {
    /// The node holds a cached image, which is handed out.
    Cached(I),
    /// The walk up the pool fails with this error.
    Failed(TreeError),
    /// An operation would have to be applied to an image; no operation can
    /// be applied yet.
    NeedsOperation,
}

/// How far a walk up from a node whose parent is `parent` can go.
pub open spec fn walk_depth<I>(pool: &Pool<I>, parent: Option<u128>) -> int {
    match parent {
        Some(p) => if pool.has(p) {
            pool.index_of(p) + 1
        } else {
            0
        },
        None => 0,
    }
}

/// What generating the image of the node with the given id comes to.
pub open spec fn generation_of<I>(pool: &Pool<I>, id: u128) -> Generation<I>
    decreases pool.index_of(id),
    when pool.links_wf()
{
    if !pool.has(id) {
        Generation::Failed(TreeError::NodeNotFound(id))
    } else {
        let n = pool.node(id);
        match n.image {
            Some(image) => Generation::Cached(image),
            None => match n.parent_id {
                Some(p) => if pool.has(p) && pool.index_of(p) < pool.index_of(id) {
                    match generation_of(pool, p) {
                        Generation::Failed(e) => Generation::Failed(e),
                        _ => Generation::NeedsOperation,
                    }
                } else {
                    Generation::Failed(TreeError::NodeNotFound(p))
                },
                None => if pool.source() is Some {
                    Generation::NeedsOperation
                } else {
                    Generation::Failed(TreeError::NoSourceImage)
                },
            },
        }
    }
}

/// What generating the image of the node `n` against `pool` comes to: its
/// cached image, or else the image of its parent (or the source image, at
/// the root) with its operation applied.
pub open spec fn generation<I>(pool: &Pool<I>, n: PoolNodeView<I>) -> Generation<I> {
    match n.image {
        Some(image) => Generation::Cached(image),
        None => match n.parent_id {
            Some(p) => match generation_of(pool, p) {
                Generation::Failed(e) => Generation::Failed(e),
                _ => Generation::NeedsOperation,
            },
            None => if pool.source() is Some {
                Generation::NeedsOperation
            } else {
                Generation::Failed(TreeError::NoSourceImage)
            },
        },
    }
}

impl<I: Clone> Node<I> {
    /// Generates an image for this `Node` following the tree: its cached
    /// image, or else the image of its parent with its operation applied.
    ///
    /// As no operation can be applied to an image yet, the walks that reach
    /// one are left out.
    fn generate_image(&self, pool: &Pool<I>) -> (result: Result<I, TreeError>)
        requires
            pool.wf(),
            !(generation(pool, self@) is NeedsOperation),
        ensures
            match generation(pool, self@) {
                Generation::Cached(image) => result is Ok && cloned(image, result.unwrap()),
                Generation::Failed(e) => result == Err::<I, TreeError>(e),
                Generation::NeedsOperation => false,
            },
        decreases walk_depth(pool, self@.parent_id),
    {
        // returns the node's own image if it has already been created
        if let Some(image) = &self.image {
            return Ok(image.clone());
        }
        match self.parent_id {
            // generates a new image based on this node's parent
            Some(parent_id) => {
                let parent = match pool.get(parent_id) {
                    Ok(parent) => parent,
                    Err(e) => return Err(e),
                };
                proof {
                    pool.lemma_has(parent_id);
                    pool.lemma_parent_walk(parent_id);
                    assert(generation_of(pool, parent_id) == generation(pool, parent@));
                }
                match parent.generate_image(pool) {
                    Err(e) => Err(e),
                    // the parent's image would get this node's operation
                    // applied, a walk that the `requires` leaves out
                    Ok(previous_image) => Ok(previous_image),
                }
            },
            // generates a new image based on the source image of the pool
            None => match pool.get_image() {
                // the source image would get this node's operation applied,
                // a walk that the `requires` leaves out
                Some(source_image) => Ok(source_image.clone()),
                None => Err(TreeError::NoSourceImage),
            },
        }
    }

    /// Updates the cached image.
    fn update_image(&mut self, pool: &Pool<I>) -> (result: Result<(), TreeError>)
        requires
            pool.wf(),
            !(generation(pool, old(self)@) is NeedsOperation),
        ensures
            match generation(pool, old(self)@) {
                Generation::Cached(image) => result is Ok && final(self)@.image is Some && cloned(
                    image,
                    final(self)@.image.unwrap(),
                ) && final(self)@ == (PoolNodeView { image: final(self)@.image, ..old(self)@ }),
                Generation::Failed(e) => result == Err::<(), TreeError>(e) && final(self)@ == old(self)@,
                Generation::NeedsOperation => false,
            },
    {
        let new_image = match self.generate_image(pool) {
            Ok(image) => image,
            Err(e) => return Err(e),
        };
        self.image = Some(new_image);
        Ok(())
    }

    /// Gets the cached image, bringing it up to date first.
    pub fn get_image(&mut self, pool: &Pool<I>) -> (result: Result<&I, TreeError>)
        requires
            pool.wf(),
            !(generation(pool, old(self)@) is NeedsOperation),
        ensures
            match generation(pool, old(self)@) {
                Generation::Cached(image) => result is Ok && cloned(image, *result.unwrap())
                    && final(self)@ == (PoolNodeView { image: Some(*result.unwrap()), ..old(self)@ }),
                Generation::Failed(e) => result == Err::<&I, TreeError>(e) && final(self)@ == old(self)@,
                Generation::NeedsOperation => false,
            },
    {
        match self.update_image(pool) {
            Ok(()) => match &self.image {
                Some(image) => Ok(image),
                None => Err(TreeError::NoImage),
            },
            Err(e) => Err(e),
        }
    }
}

} // verus!
