//! Routing-tree rendering for a mesh of nodes that each point at their parent:
//! the children of each node in byte-wise order of address, drawn with ASCII
//! branches, with any address that recurs on its own ancestor path marked as a
//! loop instead of being descended into.
pub mod hex;
pub mod order;
pub mod tree;
pub mod laws;
