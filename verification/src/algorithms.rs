//! Traversal algorithms over any [`crate::GraphInterface`] implementation.

pub mod bfs;
pub mod dfs;
