//! Traversals, path finding and maximum flow over edge stores.
pub mod general;
pub mod flow_model;
pub mod max_flow;
pub mod path_finding;
