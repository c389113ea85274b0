//! A folder tree engine: an arena of workspaces and nestable views with
//! reparenting, soft deletion, favorites, an active view and bounded
//! snapshot histories. Every operation is verified against a mathematical
//! model of the tree.

pub mod duplicate;
pub mod engine;
pub mod ids;
pub mod import;
pub mod laws;
pub mod load;
pub mod model;
pub mod node;
pub mod reorder;
pub mod session;
pub mod snapshot;
pub mod trash;
