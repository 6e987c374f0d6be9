//! An AVL tree: a binary search tree that keeps itself height-balanced on
//! insertion, with lookup, removal and the three depth-first traversals,
//! and an entry line that turns key presses into insertions and removals.

pub mod entry;
pub mod node;
pub mod order;
pub mod tree;

pub use node::Node;
pub use order::TotalOrder;
pub use tree::Tree;
