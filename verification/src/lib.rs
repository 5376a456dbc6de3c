//! A directed-graph library: a node/edge store keyed by dense integer
//! indices, with breadth-first and depth-first traversals exposed as
//! explicit state machines that produce one item per step.

pub mod bfs;
pub mod dfs;
pub mod graph;
mod visited;

pub use bfs::Bfs;
pub use dfs::Dfs;
pub use graph::EdgeIndex;
pub use graph::Graph;
pub use graph::NodeIndex;
pub use graph::Successors;
