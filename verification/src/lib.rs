//! Moonlight: the edit tree of a non-destructive image editor.
//!
//! Every edit is a `Node` in a `Tree`; each node knows its parent and its
//! children, and the tree keeps a cursor (`position`) on the node being viewed.
//! Images are carried as opaque values and cached per node.

pub mod id;
pub mod processor;
pub mod state;
pub mod workspace;
