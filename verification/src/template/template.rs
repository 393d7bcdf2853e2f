//! The shape of a workflow file: `[workflow]`, `[[nodes]]` and `[[edges]]`.

use vstd::prelude::*;

verus! {

/// A whole workflow file.
pub struct WorkflowTOML {
    pub workflow: WorkflowMeta,
    pub nodes: Vec<NodeTOML>,
    pub edges: Vec<EdgeTOML>,
}

/// The `[workflow]` table; its description may be left out.
pub struct WorkflowMeta {
    pub name: String,
    pub description: Option<String>,
}

/// One `[[nodes]]` entry: `script_type` is `"Python"` or `"JavaScript"`.
pub struct NodeTOML {
    pub name: String,
    pub description: Option<String>,
    pub script_type: String,
    pub script_path: String,
}

/// One `[[edges]]` entry, naming its nodes by name.
pub struct EdgeTOML {
    pub label: Option<String>,
    pub from_node: String,
    pub to_node: String,
}

} // verus!
