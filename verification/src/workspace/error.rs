use vstd::prelude::*;

verus! {

/// Why an edit of the tree was refused.
#[derive(Debug, Clone, Copy, PartialEq, Eq, Structural)]
pub enum TreeError {
    /// No node of the tree carries this id.
    NodeNotFound(u128),
    /// `child` is not among the children of `parent`.
    NotAChild { parent: u128, child: u128 },
    /// The tree has no source image yet.
    NoSourceImage,
    /// The root node cannot be edited or removed.
    RootIsFixed,
    /// The node at the current position has no image cached.
    NoImage,
    /// A new node was to get an id that a node of the tree already has.
    IdTaken(u128),
    /// A new branch was to get a branch id that nodes of the tree already carry.
    BranchTaken(u128),
}

} // verus!
