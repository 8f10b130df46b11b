//! A compact adjacency-list graph library: packed weighted edges, two edge
//! stores, vertex storage, graph and tree views, and traversal, path finding
//! and max-flow algorithms.
pub mod handles;
pub mod containers;
pub mod traits;
pub mod paths;
pub mod edge_storage;
pub mod edge_data;
pub mod vertex_storage;
pub mod graph;
pub mod views;
pub mod tree;
pub mod weighted_graph;
pub mod algorithms;
