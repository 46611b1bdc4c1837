//! A parent-pointer tree: nodes are dense indices into two parallel vectors,
//! one of payloads and one of parent indices, with a self-referencing node
//! serving as a root.

pub mod seq_util;
pub mod tree;
