//! Nodes of a workflow.

use vstd::prelude::*;
use crate::node::node_type::{NodeType, ScriptType};
use crate::uid::{is_simple_v4_uuid, new_id};

verus! {

/// A task of the workflow. `F` is the type of native functions.
#[derive(Clone)]
pub struct Node<F> {
    pub id: String,
    pub name: String,
    pub description: Option<String>,
    pub node_type: NodeType<F>,
}

/// The message with which a node whose script cannot be run fails.
pub open spec fn unsupported_script_message() -> Seq<char> {
    "Script Type Not Supported Yet !"@
}

/// How a node is run: by calling its native function, by running the Python
/// script at the path, or not at all (the node then fails with `message`).
pub enum Runner<'a, F> {
    Native(&'a F),
    Python(&'a String),
    Unsupported(String),
}

impl<F> Node<F> {
    fn new(name: String, description: Option<String>, node_type: NodeType<F>) -> (node: Self)
        ensures
            is_simple_v4_uuid(node.id@),
            node.name == name,
            node.description == description,
            node.node_type == node_type,
    {
        Node { id: new_id(), name, description, node_type }
    }

    /// A node that calls a native function.
    pub fn new_native_node(name: String, description: Option<String>, native_script: F) -> (node:
        Self)
        ensures
            is_simple_v4_uuid(node.id@),
            node.name == name,
            node.description == description,
            node.node_type == NodeType::Script(ScriptType::Native(native_script)),
    {
        Self::new(name, description, NodeType::Script(ScriptType::Native(native_script)))
    }

    /// A node that runs the `main` function of the Python script at `script_path`.
    pub fn new_python_node(name: String, description: Option<String>, script_path: &str) -> (node:
        Self)
        ensures
            is_simple_v4_uuid(node.id@),
            node.name == name,
            node.description == description,
            node.node_type matches NodeType::Script(ScriptType::Python(p)) && p@ == script_path@,
    {
        let path: String = script_path.to_owned();
        Self::new(name, description, NodeType::Script(ScriptType::Python(path)))
    }

    /// A node that names a JavaScript script; no engine runs it yet.
    pub fn new_javascript_node(name: String, description: Option<String>, script_path: &str) -> (node:
        Self)
        ensures
            is_simple_v4_uuid(node.id@),
            node.name == name,
            node.description == description,
            node.node_type matches NodeType::Script(ScriptType::JavaScript(p)) && p@
                == script_path@,
    {
        let path: String = script_path.to_owned();
        Self::new(name, description, NodeType::Script(ScriptType::JavaScript(path)))
    }

    /// Which engine runs this node: native functions and Python scripts run,
    /// every other kind of node fails with the "not supported" message.
    pub fn runner(&self) -> (r: Runner<'_, F>)
        ensures
            match self.node_type {
                NodeType::Script(ScriptType::Native(f)) => r matches Runner::Native(g) && *g == f,
                NodeType::Script(ScriptType::Python(p)) => r matches Runner::Python(q) && *q == p,
                _ => r matches Runner::Unsupported(m) && m@ == unsupported_script_message(),
            },
    {
        match &self.node_type {
            NodeType::Script(ScriptType::Native(f)) => Runner::Native(f),
            NodeType::Script(ScriptType::Python(p)) => Runner::Python(p),
            _ => {
                let m = "Script Type Not Supported Yet !";
                proof {
                    reveal_strlit("Script Type Not Supported Yet !");
                }
                Runner::Unsupported(m.to_owned())
            },
        }
    }
}

} // verus!
