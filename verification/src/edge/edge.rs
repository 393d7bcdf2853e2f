//! Edges of a workflow.

use vstd::prelude::*;
use crate::node::node::Node;
use crate::uid::{is_simple_v4_uuid, new_id};

verus! {

/// A dependency between two nodes, named by their ids. A labelled edge is only
/// followed when the route of its source node selects the label.
pub struct Edge {
    pub id: String,
    pub from_node_id: String,
    pub to_node_id: String,
    pub label: Option<String>,
}

impl Edge {
    /// An edge from `from_node` to `to_node` with a fresh id.
    pub fn new<F>(from_node: &Node<F>, to_node: &Node<F>, label: Option<String>) -> (edge: Self)
        ensures
            is_simple_v4_uuid(edge.id@),
            edge.from_node_id@ == from_node.id@,
            edge.to_node_id@ == to_node.id@,
            edge.label == label,
    {
        Edge {
            id: new_id(),
            from_node_id: from_node.id.clone(),
            to_node_id: to_node.id.clone(),
            label: label,
        }
    }
}

} // verus!
