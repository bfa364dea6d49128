//! The tree of the earlier engine: the CGL tree, its children built when
//! the tree is built.
pub use crate::cgl::tree::{build, build_leaf_map, node_count, query_with_pruning, CglNode, PruneConfig, RawMatch};
