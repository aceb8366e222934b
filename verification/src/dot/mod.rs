//! Pieces of text in the DOT language that describe nodes and regions.

pub mod data;
pub mod description;
pub mod label;
pub mod node;
pub mod owners;
pub mod region;
pub mod template;
pub mod text;
pub mod tooltip;
