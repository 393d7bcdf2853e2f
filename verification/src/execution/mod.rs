pub mod context;
pub mod counting;
pub mod json;
pub mod laws;
pub mod node_output;
pub mod node_status;
