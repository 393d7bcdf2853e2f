//! What a node runs.

use vstd::prelude::*;

verus! {

/// The kind of a node. `Conditional` nodes are declared but no engine runs them yet.
#[derive(Clone)]
pub enum NodeType<F> {
    Script(ScriptType<F>),
    Conditional(ScriptType<F>),
}

/// The script behind a node: a native function (`F`, held as it is), or the path
/// of a JavaScript or Python file. Only native and Python scripts can be run.
#[derive(Clone)]
pub enum ScriptType<F> {
    Native(F),
    JavaScript(String),
    Python(String),
    BuiltIn,
}

} // verus!
