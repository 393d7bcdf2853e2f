pub mod node;
pub mod node_type;
