//! Traversals of the graph and what is derived from them.

pub mod depth_first_searcher;
pub mod events;
pub mod frontier;
pub mod laws;
pub mod order;
pub mod post_order;
pub mod pre_order_mut;
pub mod reverse_topological;
pub mod successors;
