//! Rewrites of the graph.

pub mod laws;
pub mod mark_and_sweep;
pub mod relax_dependencies;
pub mod retain_only;
pub mod revise;
