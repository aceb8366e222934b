//! In-memory representation and core algorithms of a regionalized value state
//! dependence graph.

pub mod data_flow;
pub mod display;
pub mod dot;
pub mod transform;
pub mod visit;
