//! Metapath analysis of heterogeneous graphs: counting metapath instances and
//! building the metapath contexts of each node, with their feature aggregates.
pub mod graph;
pub mod matrix;
pub mod metapath;
pub mod node_set;
pub mod node_types;
pub mod sim;
pub mod tasks;

pub use graph::{load_graph, load_hetero_graph, parse_edge_type, HeteroGraph, LoadError, Subgraph};
pub use matrix::AdjacencyMatrix;
pub use metapath::{count_metapath_memory_usage, count_partial_metapath_count, MetaPathesPack, Metapath};
pub use node_set::{FeatureMap, NodeKey, NodeSet};
pub use node_types::{DblpNodeType, ImdbNodeType, LastFmNodeType, NodeId, NodeLayer, OgbMagNodeType};
pub use tasks::{get_all_taskpack, TaskPack};
