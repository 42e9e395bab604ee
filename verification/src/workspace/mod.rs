pub mod error;
pub mod laws;
pub mod map;
pub mod node;
pub mod operation;
pub mod shape;
pub mod tree;
