//! Record-linkage core: an undirected weighted multigraph over identity keys,
//! bridge detection by DFS low-link traversal, and a union-find structure used
//! to count connected components before and after bridge pruning.

pub mod bridge_finder;
pub mod edges;
pub mod graph;
pub mod input;
pub mod node;
