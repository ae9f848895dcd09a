//! Collections used by the engine.
pub mod edge_order;
pub mod paths;
pub mod slots;
pub mod ordered_dag;

pub use ordered_dag::OrderedDag;
