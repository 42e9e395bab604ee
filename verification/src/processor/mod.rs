pub mod node;
pub mod operation;
