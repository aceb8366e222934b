//! The graph itself: keys, nodes and the store that owns them.

pub mod invariants;
pub mod laws;
pub mod link;
pub mod node;
pub mod nodes;
pub mod regions;
