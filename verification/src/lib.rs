//! A workflow execution engine: a graph of nodes and edges, scheduled in
//! dependency order, with labelled edges that a node's route can select.

pub mod args;
pub mod edge;
pub mod execution;
pub mod node;
pub mod template;
pub mod uid;
pub mod workflow;
