//! Views that read a graph's edge blocks with a particular layout.
pub mod tree;
