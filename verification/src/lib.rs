use vstd::prelude::*;

pub mod compact_tree;
pub mod components;
pub mod config;
pub mod consensus;
pub mod coreset_rows;
pub mod dense_marker;
pub mod edges;
pub mod elapsed;
pub mod error;
pub mod grow;
pub mod in_memory_graph;
pub mod in_memory_index;
pub mod ids;
pub mod interner;
pub mod leaf_tree;
pub mod metrics;
pub mod neighbourhoods;
pub mod node_ops;
pub mod partition;
pub mod position_set;
pub mod remote;
pub mod rng;
pub mod subtree;
pub mod timing;
pub mod tree_layout;
pub mod types;
pub mod text;
pub mod workloads;
pub mod workspace;

verus! {

} // verus!
