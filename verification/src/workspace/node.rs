use vstd::prelude::*;

use crate::id::fresh_id;
use crate::workspace::error::TreeError;
use crate::workspace::operation::Operation;
use crate::workspace::shape::Link;

verus! {

/// Lists the two directions that can be traversed in the `Node` `Tree`.
#[derive(Debug, Clone, Copy, PartialEq, Eq, Structural)]
pub enum Direction {
    /// Moving upwards toward the `root`.
    UpStream,
    /// Moving downwards towards the tips.
    DownStream,
}

/// The keep-predicate of a sequence from which `x` is taken out.
pub open spec fn differs_from(x: u128) -> spec_fn(u128) -> bool {
    |y: u128| y != x
}

/// What a `Node` holds, as mathematical values.
pub struct NodeView<I> {
    pub id: u128,
    pub branch_id: u128,
    pub parent_id: u128,
    pub children_ids: Seq<u128>,
    pub operation: Operation,
    pub image: Option<I>,
}

impl<I> NodeView<I> {
    /// The parent and child links of the node.
    pub open spec fn link(self) -> Link {
        Link { id: self.id, parent_id: self.parent_id, children_ids: self.children_ids }
    }
}

/// Holds information for an individual `Operation` or step in the edit `Tree`.
///
/// The root of a tree is the one node that is its own parent.
pub struct Node<I> {
    /// The unique id for this `Node` so it can be identified.
    id: u128,
    /// Identifies which branch this `Node` lives in.
    branch_id: u128,
    /// The parent of this `Node`; the root has itself as a parent.
    parent_id: u128,
    /// Holds the children of this `Node`.
    children_ids: Vec<u128>,
    /// What edit operation is being performed by this `Node`.
    operation: Operation,
    /// A cached image of the project up to this point in the `Tree`.
    image: Option<I>,
}

impl<I> View for Node<I> {
    type V = NodeView<I>;

    closed spec fn view(&self) -> NodeView<I> {
        NodeView {
            id: self.id,
            branch_id: self.branch_id,
            parent_id: self.parent_id,
            children_ids: self.children_ids@,
            operation: self.operation,
            image: self.image,
        }
    }
}

impl<I> PartialEq for Node<I> {
    /// Two nodes are the same node when their ids agree.
    fn eq(&self, other: &Self) -> (same: bool) {
        self.id == other.id
    }
}

impl<I> vstd::std_specs::cmp::PartialEqSpecImpl for Node<I> {
    open spec fn obeys_eq_spec() -> bool {
        true
    }

    open spec fn eq_spec(&self, other: &Self) -> bool {
        self@.id == other@.id
    }
}

impl<I> Node<I> {
    // initializing
    /// Creates a new `Node` with a freshly drawn id.
    pub fn new(parent_id: u128, branch_id: u128, operation: Operation) -> (node: Node<I>)
        ensures
            node@.branch_id == branch_id,
            node@.parent_id == parent_id,
            node@.children_ids == Seq::<u128>::empty(),
            node@.operation == operation,
            node@.image is None,
    {
        Node::new_with_id(fresh_id(), parent_id, branch_id, operation)
    }

    /// Creates a new `Node` with the given id.
    pub fn new_with_id(id: u128, parent_id: u128, branch_id: u128, operation: Operation) -> (node:
        Node<I>)
        ensures
            node@ == (NodeView::<I> {
                id,
                branch_id,
                parent_id,
                children_ids: Seq::empty(),
                operation,
                image: None,
            }),
    {
        let node = Node { id, branch_id, parent_id, children_ids: Vec::new(), operation, image: None };
        assert(node@.children_ids =~= Seq::<u128>::empty());
        node
    }

    /// Creates a new `root` `Node`, with fresh ids for itself and its branch.
    /// It references itself as a parent.
    pub fn new_root() -> (node: Node<I>)
        ensures
            node@.parent_id == node@.id,
            node@.id != 0,
            node@.children_ids == Seq::<u128>::empty(),
            node@.operation == Operation::Root,
            node@.image is None,
    {
        let id = fresh_id();
        proof {
            crate::id::lemma_fresh_id_nonzero(id);
        }
        let branch_id = fresh_id();
        Node::new_root_with_ids(id, branch_id)
    }

    /// Creates a new `root` `Node` with the given ids.
    pub fn new_root_with_ids(id: u128, branch_id: u128) -> (node: Node<I>)
        ensures
            node@ == (NodeView::<I> {
                id,
                branch_id,
                parent_id: id,
                children_ids: Seq::empty(),
                operation: Operation::Root,
                image: None,
            }),
    {
        Node::new_with_id(id, id, branch_id, Operation::Root)
    }

    // basic getters
    /// Checks if the given `Node` is the `root` `Node`.
    pub fn is_root(&self) -> (b: bool)
        ensures
            b == (self@.id == self@.parent_id),
    {
        self.id == self.parent_id
    }

    /// Gets the `id`.
    pub fn get_id(&self) -> (id: u128)
        ensures
            id == self@.id,
    {
        self.id
    }

    /// Gets the `branch_id`.
    pub fn get_branch_id(&self) -> (branch_id: u128)
        ensures
            branch_id == self@.branch_id,
    {
        self.branch_id
    }

    /// Gets the `parent_id`.
    pub fn get_parent_id(&self) -> (parent_id: u128)
        ensures
            parent_id == self@.parent_id,
    {
        self.parent_id
    }

    /// Checks if this `Node` has at least one child.
    pub fn has_child(&self) -> (b: bool)
        ensures
            b == (self@.children_ids.len() > 0),
    {
        self.children_ids.len() > 0
    }

    /// Gets the `children_ids`.
    pub fn get_children_ids(&self) -> (children_ids: Vec<u128>)
        ensures
            children_ids@ == self@.children_ids,
    {
        let mut copy: Vec<u128> = Vec::new();
        let mut i: usize = 0;
        while i < self.children_ids.len()
            invariant
                i <= self.children_ids@.len(),
                copy@ == self.children_ids@.take(i as int),
            decreases self.children_ids@.len() - i,
        {
            copy.push(self.children_ids[i]);
            i = i + 1;
            assert(copy@ =~= self.children_ids@.take(i as int));
        }
        assert(copy@ =~= self.children_ids@);
        copy
    }

    /// Gets the `operation`.
    pub fn get_operation(&self) -> (operation: Operation)
        ensures
            operation == self@.operation,
    {
        self.operation
    }

    /// Gets the cached image.
    pub fn get_image(&self) -> (image: Option<&I>)
        ensures
            image.is_some() == self@.image.is_some(),
            image.is_some() ==> self@.image == Some(*image.unwrap()),
    {
        match &self.image {
            Some(image) => Some(image),
            None => None,
        }
    }

    // basic editing
    /// Sets the `parent_id`.
    pub fn set_parent(&mut self, parent_id: u128)
        ensures
            final(self)@ == (NodeView { parent_id, ..old(self)@ }),
    {
        self.parent_id = parent_id;
    }

    /// Adds a child.
    pub fn add_child(&mut self, child_id: u128)
        ensures
            final(self)@ == (NodeView { children_ids: old(self)@.children_ids.push(child_id), ..old(self)@ }),
    {
        self.children_ids.push(child_id);
    }

    /// Adds a list of children, after the present ones.
    pub fn add_children(&mut self, children_ids: Vec<u128>)
        ensures
            final(self)@ == (NodeView { children_ids: old(self)@.children_ids + children_ids@, ..old(self)@ }),
    {
        let mut more = children_ids;
        self.children_ids.append(&mut more);
    }

    /// Removes a given child, failing when it is not a child of this `Node`.
    pub fn remove_child(&mut self, child_id: u128) -> (result: Result<(), TreeError>)
        ensures
            result is Ok <==> old(self)@.children_ids.contains(child_id),
            result is Ok ==> final(self)@ == (NodeView {
                children_ids: old(self)@.children_ids.filter(differs_from(child_id)),
                ..old(self)@
            }),
            result is Err ==> final(self)@ == old(self)@ && result == Err::<(), TreeError>(
                TreeError::NotAChild { parent: old(self)@.id, child: child_id },
            ),
    {
        let mut found = false;
        let mut kept: Vec<u128> = Vec::new();
        let mut i: usize = 0;
        let ghost pred = differs_from(child_id);
        while i < self.children_ids.len()
            invariant
                i <= self.children_ids@.len(),
                pred == differs_from(child_id),
                kept@ == self.children_ids@.take(i as int).filter(pred),
                found == self.children_ids@.take(i as int).contains(child_id),
            decreases self.children_ids@.len() - i,
        {
            let c = self.children_ids[i];
            proof {
                reveal(Seq::filter);
                assert(self.children_ids@.take(i + 1).drop_last() =~= self.children_ids@.take(i as int));
            }
            if c == child_id {
                found = true;
                assert(self.children_ids@.take(i + 1)[i as int] == c);
            } else {
                kept.push(c);
                proof {
                    let t = self.children_ids@.take(i + 1);
                    if t.contains(child_id) {
                        let k = choose|k: int| 0 <= k < t.len() && t[k] == child_id;
                        assert(self.children_ids@.take(i as int)[k] == child_id);
                    }
                }
            }
            i = i + 1;
        }
        assert(self.children_ids@.take(i as int) =~= self.children_ids@);
        if !found {
            return Err(TreeError::NotAChild { parent: self.id, child: child_id });
        }
        self.children_ids = kept;
        Ok(())
    }

    /// Removes all children.
    pub fn remove_children(&mut self)
        ensures
            final(self)@ == (NodeView { children_ids: Seq::<u128>::empty(), ..old(self)@ }),
    {
        self.children_ids = Vec::new();
    }

    /// Edits the `operation`.
    pub fn edit_operation(&mut self, new_operation: Operation)
        ensures
            final(self)@ == (NodeView { operation: new_operation, ..old(self)@ }),
    {
        self.operation = new_operation;
    }

    /// Sets the image.
    pub fn set_image(&mut self, new_image: Option<I>)
        ensures
            final(self)@ == (NodeView { image: new_image, ..old(self)@ }),
    {
        self.image = new_image;
    }
}

} // verus!
