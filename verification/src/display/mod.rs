//! The label of a node with its ports anchored under the letters `I` and `O`.

pub mod node;
