//! Building trees of a given depth and branching factor, and walking them
//! in pre-order, post-order, in-order, depth-first with an explicit stack
//! and breadth-first with an explicit queue.
pub mod tree;
pub mod forest;
pub mod builder;
pub mod traverse;
pub mod laws;

pub use tree::{Node, Visit};
pub use builder::create_tree;
pub use traverse::{dfs_recursive, dfs_recursive_postorder, dfs_recursive_inorder_btree, dfs_stack, bfs_queue};
