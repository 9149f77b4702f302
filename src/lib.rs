//! Greedy minimum-cost DAG extraction over an e-graph whose classes and nodes
//! are numbered densely.

pub mod graph;
pub mod costs;
pub mod extract;
pub mod laws;

pub use graph::{Graph, GraphError, Node};
pub use costs::CostSet;
pub use extract::GreedyDagExtractor;
