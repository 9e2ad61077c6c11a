//! A directed dependency graph over fact identifiers, with invalidation
//! propagation and structural analyses.

pub mod model;
pub mod walker;

pub use walker::{CausalNode, GraphWalker};
pub mod analysis;
pub mod consumer;
pub mod laws;

pub use consumer::CausalConsumer;
