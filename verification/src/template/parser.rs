//! Turning a workflow file into a workflow.

use vstd::prelude::*;
use vstd::string::StringExecFns;
use crate::edge::edge::Edge;
use crate::node::node::Node;
use crate::node::node_type::{NodeType, ScriptType};
use crate::template::template::{EdgeTOML, NodeTOML, WorkflowTOML};
use crate::uid::{contains_id, id_views, is_simple_v4_uuid, unused_id};
use crate::workflow::workflow::{
    edge_ids_distinct, ids_distinct, lemma_edges_by_id_len, lemma_nodes_by_id_len, nodes_by_id, Workflow,
};

verus! {

/// The script types that a workflow file may name.
pub open spec fn supported_script_type(t: Seq<char>) -> bool {
    t == "Python"@ || t == "JavaScript"@
}

/// The error for a node entry whose script type is not supported.
pub open spec fn unsupported_message(t: Seq<char>) -> Seq<char> {
    "Unsupported script type: "@ + t
}

/// The error for an edge entry whose source names no node entry.
pub open spec fn missing_from_message(name: Seq<char>) -> Seq<char> {
    "Edge references missing 'from' node: "@ + name
}

/// The error for an edge entry whose target names no node entry.
pub open spec fn missing_to_message(name: Seq<char>) -> Seq<char> {
    "Edge references missing 'to' node: "@ + name
}

/// The error of the first node entry whose script type is not supported.
pub open spec fn node_error(nodes: Seq<NodeTOML>) -> Option<Seq<char>>
    decreases nodes.len(),
{
    if nodes.len() == 0 {
        None
    } else {
        match node_error(nodes.drop_last()) {
            Some(m) => Some(m),
            None => if supported_script_type(nodes.last().script_type@) {
                None
            } else {
                Some(unsupported_message(nodes.last().script_type@))
            },
        }
    }
}

/// Whether some node entry has this name.
pub open spec fn has_node_named(nodes: Seq<NodeTOML>, name: Seq<char>) -> bool {
    exists|i: int| 0 <= i < nodes.len() && #[trigger] nodes[i].name@ == name
}

/// The error of the first edge entry that names a node that no entry has.
pub open spec fn edge_error(edges: Seq<EdgeTOML>, nodes: Seq<NodeTOML>) -> Option<Seq<char>>
    decreases edges.len(),
{
    if edges.len() == 0 {
        None
    } else {
        match edge_error(edges.drop_last(), nodes) {
            Some(m) => Some(m),
            None => if !has_node_named(nodes, edges.last().from_node@) {
                Some(missing_from_message(edges.last().from_node@))
            } else if !has_node_named(nodes, edges.last().to_node@) {
                Some(missing_to_message(edges.last().to_node@))
            } else {
                None
            },
        }
    }
}

/// Why a workflow file is refused: first its nodes are checked, in order,
/// then its edges.
pub open spec fn template_error(config: WorkflowTOML) -> Option<Seq<char>> {
    match node_error(config.nodes@) {
        Some(m) => Some(m),
        None => edge_error(config.edges@, config.nodes@),
    }
}

/// `node` is the node that entry `t` describes.
pub open spec fn node_made_from<F>(node: Node<F>, t: NodeTOML) -> bool {
    &&& is_simple_v4_uuid(node.id@)
    &&& node.name@ == t.name@
    &&& node.description == t.description
    &&& if t.script_type@ == "Python"@ {
        node.node_type matches NodeType::Script(ScriptType::Python(p)) && p@ == t.script_path@
    } else {
        node.node_type matches NodeType::Script(ScriptType::JavaScript(p)) && p@
            == t.script_path@
    }
}

/// The position of the last node with this name.
pub open spec fn last_named<F>(s: Seq<Node<F>>, name: Seq<char>) -> Option<int>
    decreases s.len(),
{
    if s.len() == 0 {
        None
    } else if s.last().name@ == name {
        Some(s.len() - 1)
    } else {
        last_named(s.drop_last(), name)
    }
}

/// `edge` is the edge that entry `t` describes, between the last nodes of
/// `made` with the names it gives.
pub open spec fn edge_made_from<F>(edge: Edge, t: EdgeTOML, made: Seq<Node<F>>) -> bool {
    &&& is_simple_v4_uuid(edge.id@)
    &&& last_named(made, t.from_node@) matches Some(i) && edge.from_node_id@ == made[i].id@
    &&& last_named(made, t.to_node@) matches Some(j) && edge.to_node_id@ == made[j].id@
    &&& edge.label == t.label
}

/// `w` is the workflow that `config` describes, its nodes being `made`.
pub open spec fn workflow_made_from<F>(w: Workflow<F>, config: WorkflowTOML, made: Seq<Node<F>>) -> bool {
    &&& w.name_view() == config.workflow.name@
    &&& w.description_view() == match config.workflow.description {
        Some(d) => d@,
        None => Seq::empty(),
    }
    &&& is_simple_v4_uuid(w.id_view())
    &&& made.len() == config.nodes@.len()
    &&& forall|i: int| 0 <= i < made.len() ==> node_made_from(#[trigger] made[i], config.nodes@[i])
    &&& ids_distinct(made)
    &&& w.nodes_map() == nodes_by_id(made)
    &&& w.edge_seq().len() == config.edges@.len()
    &&& edge_ids_distinct(w.edge_seq())
    &&& forall|j: int|
        0 <= j < config.edges@.len() ==> edge_made_from(#[trigger] w.edge_seq()[j], config.edges@[j], made)
}

/// `w` is a workflow that `config` describes, for some nodes made from its entries.
pub open spec fn workflow_describes<F>(w: Workflow<F>, config: WorkflowTOML) -> bool {
    exists|made: Seq<Node<F>>| workflow_made_from(w, config, made)
}

/// A workflow built from a file has one node per node entry, no two with one
/// id, and one edge per edge entry, no two with one id: the maps by id keep
/// every node and every edge.
pub proof fn law_one_node_and_edge_per_entry<F>(w: Workflow<F>, config: WorkflowTOML)
    requires
        w.wf(),
        workflow_describes(w, config),
    ensures
        w.node_seq().len() == config.nodes@.len(),
        w.nodes_map().dom().len() == config.nodes@.len(),
        w.edges_map().dom().len() == config.edges@.len(),
        forall|i: int, j: int|
            0 <= i < w.node_seq().len() && 0 <= j < w.node_seq().len() && i != j ==> #[trigger] w.node_seq()[i].id@
                != #[trigger] w.node_seq()[j].id@,
        forall|i: int, j: int|
            0 <= i < w.edge_seq().len() && 0 <= j < w.edge_seq().len() && i != j ==> #[trigger] w.edge_seq()[i].id@
                != #[trigger] w.edge_seq()[j].id@,
{
    let made = choose|made: Seq<Node<F>>| workflow_made_from(w, config, made);
    lemma_nodes_by_id_len(made);
    lemma_nodes_by_id_len(w.node_seq());
    lemma_edges_by_id_len(w.edge_seq());
}

/// A name that some node has has a last node.
proof fn lemma_last_named_some<F>(s: Seq<Node<F>>, name: Seq<char>, k: int)
    requires
        0 <= k < s.len(),
        s[k].name@ == name,
    ensures
        last_named(s, name) is Some,
    decreases s.len(),
{
    if s.last().name@ != name {
        lemma_last_named_some(s.drop_last(), name, k);
    }
}

/// The last node of a name is a node with that name; no last node, no such name.
proof fn lemma_last_named_bounds<F>(s: Seq<Node<F>>, name: Seq<char>)
    ensures
        last_named(s, name) matches Some(i) ==> 0 <= i < s.len() && s[i].name@ == name,
        last_named(s, name) is None ==> forall|k: int| 0 <= k < s.len() ==> #[trigger] s[k].name@ != name,
    decreases s.len(),
{
    if s.len() > 0 && s.last().name@ != name {
        lemma_last_named_bounds(s.drop_last(), name);
        if last_named(s, name) is None {
            assert forall|k: int| 0 <= k < s.len() implies #[trigger] s[k].name@ != name by {
                if k < s.len() - 1 {
                    assert(s.drop_last()[k] == s[k]);
                }
            }
        }
    }
}

/// The position of the last node named `name`.
fn find_last_named<F>(made: &Vec<Node<F>>, name: &String) -> (r: Option<usize>)
    ensures
        r matches Some(i) ==> last_named(made@, name@) == Some(i as int),
        r is None ==> last_named(made@, name@) is None,
{
    let mut k: usize = made.len();
    proof {
        assert(made@.take(k as int) =~= made@);
    }
    while k > 0
        invariant
            k <= made.len(),
            last_named(made@, name@) == last_named(made@.take(k as int), name@),
        decreases k,
    {
        proof {
            assert(made@.take(k as int).drop_last() =~= made@.take(k - 1));
        }
        if made[k - 1].name == *name {
            return Some(k - 1);
        }
        k -= 1;
    }
    None
}

/// An error among the first node entries is the error of them all.
proof fn lemma_node_error_prefix(s: Seq<NodeTOML>, k: int)
    requires
        0 <= k <= s.len(),
        node_error(s.take(k)) is Some,
    ensures
        node_error(s) == node_error(s.take(k)),
    decreases s.len(),
{
    if k < s.len() {
        assert(s.drop_last().take(k) =~= s.take(k));
        lemma_node_error_prefix(s.drop_last(), k);
    } else {
        assert(s.take(k) =~= s);
    }
}

/// An error among the first edge entries is the error of them all.
proof fn lemma_edge_error_prefix(s: Seq<EdgeTOML>, nodes: Seq<NodeTOML>, k: int)
    requires
        0 <= k <= s.len(),
        edge_error(s.take(k), nodes) is Some,
    ensures
        edge_error(s, nodes) == edge_error(s.take(k), nodes),
    decreases s.len(),
{
    if k < s.len() {
        assert(s.drop_last().take(k) =~= s.take(k));
        lemma_edge_error_prefix(s.drop_last(), nodes, k);
    } else {
        assert(s.take(k) =~= s);
    }
}

/// Whether the made nodes answer to the node entries name for name.
proof fn lemma_named_iff<F>(made: Seq<Node<F>>, nodes: Seq<NodeTOML>, name: Seq<char>)
    requires
        made.len() == nodes.len(),
        forall|i: int| 0 <= i < made.len() ==> #[trigger] made[i].name@ == nodes[i].name@,
    ensures
        last_named(made, name) is Some <==> has_node_named(nodes, name),
        last_named(made, name) matches Some(i) ==> 0 <= i < made.len() && made[i].name@ == name,
{
    lemma_last_named_bounds(made, name);
    if has_node_named(nodes, name) {
        let k = choose|k: int| 0 <= k < nodes.len() && #[trigger] nodes[k].name@ == name;
        assert(made[k].name@ == name);
        lemma_last_named_some(made, name, k);
    }
    if last_named(made, name) is Some {
        let i = last_named(made, name)->0;
        assert(nodes[i].name@ == name);
    }
}

/// Builds the workflow that a workflow file describes. Nodes are made in
/// order; the first one whose script type is neither `Python` nor
/// `JavaScript` makes the whole file fail. Then each edge is resolved by node
/// name (the last node of a name counts); the first edge that names a missing
/// node makes the file fail.
pub fn build_workflow<F>(config: WorkflowTOML) -> (r: Result<Workflow<F>, String>)
    ensures
        r matches Err(m) ==> template_error(config) == Some(m@),
        r is Ok ==> template_error(config) is None,
        r matches Ok(w) ==> workflow_describes(w, config),
        r matches Ok(w) ==> w.node_seq().len() == config.nodes@.len(),
        r matches Ok(w) ==> w.edges_map().dom().len() == config.edges@.len(),
{
    let ghost cfg = config;
    let WorkflowTOML { workflow, nodes, edges } = config;
    let ghost cnodes = nodes@;
    let ghost cedges = edges@;
    let mut made: Vec<Node<F>> = Vec::new();
    let mut taken: Vec<String> = Vec::new();
    for t in it: nodes
        invariant
            it.seq() == cnodes,
            cfg == config,
            cnodes == cfg.nodes@,
            made@.len() == it.index(),
            forall|i: int| 0 <= i < made@.len() ==> node_made_from(#[trigger] made@[i], cnodes[i]),
            node_error(cnodes.take(it.index() as int)) is None,
            taken@.len() == made@.len(),
            forall|i: int| 0 <= i < made@.len() ==> #[trigger] taken@[i]@ == made@[i].id@,
            ids_distinct(made@),
    {
        let ghost k = it.index() as int;
        proof {
            assert(cnodes.take(k + 1).drop_last() =~= cnodes.take(k));
        }
        let python: String = "Python".to_owned();
        let javascript: String = "JavaScript".to_owned();
        let mut node = if t.script_type == python {
            Node::new_python_node(t.name, t.description, t.script_path.as_str())
        } else if t.script_type == javascript {
            Node::new_javascript_node(t.name, t.description, t.script_path.as_str())
        } else {
            let mut msg: String = "Unsupported script type: ".to_owned();
            msg.append(t.script_type.as_str());
            proof {
                assert(t == cnodes[k]);
                assert(cnodes.take(k + 1).last() == t);
                assert(!supported_script_type(t.script_type@));
                assert(node_error(cnodes.take(k + 1)) == Some(msg@));
                lemma_node_error_prefix(cnodes, k + 1);
                assert(template_error(cfg) == Some(msg@));
            }
            return Err(msg);
        };
        if contains_id(&taken, &node.id) {
            node.id = unused_id(&taken);
        }
        proof {
            assert(!id_views(taken@).contains(node.id@));
            assert forall|i: int| 0 <= i < made@.len() implies #[trigger] made@[i].id@ != node.id@ by {
                assert(id_views(taken@)[i] == made@[i].id@);
            }
        }
        let ghost made_before = made@;
        let ghost taken_before = taken@;
        taken.push(node.id.clone());
        made.push(node);
        proof {
            assert forall|i: int, j: int|
                0 <= i < made@.len() && 0 <= j < made@.len() && i != j implies #[trigger] made@[i].id@ != #[trigger] made@[j].id@ by {
                if i < made_before.len() && j < made_before.len() {
                    assert(made@[i] == made_before[i] && made@[j] == made_before[j]);
                } else if i < made_before.len() {
                    assert(made@[i] == made_before[i]);
                } else {
                    assert(made@[j] == made_before[j]);
                }
            }
            assert forall|i: int| 0 <= i < made@.len() implies #[trigger] taken@[i]@ == made@[i].id@ by {
                if i < made_before.len() {
                    assert(taken@[i] == taken_before[i] && made@[i] == made_before[i]);
                }
            }
        }
    }
    proof {
        assert(cnodes.take(cnodes.len() as int) =~= cnodes);
        assert forall|i: int| 0 <= i < made@.len() implies #[trigger] made@[i].name@
            == cnodes[i].name@ by {
            assert(node_made_from(made@[i], cnodes[i]));
        }
    }
    let mut wedges: Vec<Edge> = Vec::new();
    let mut etaken: Vec<String> = Vec::new();
    for t in it: edges
        invariant
            it.seq() == cedges,
            cfg == config,
            cedges == cfg.edges@,
            cnodes == cfg.nodes@,
            node_error(cnodes) is None,
            made@.len() == cnodes.len(),
            forall|i: int| 0 <= i < made@.len() ==> node_made_from(#[trigger] made@[i], cnodes[i]),
            forall|i: int| 0 <= i < made@.len() ==> #[trigger] made@[i].name@ == cnodes[i].name@,
            ids_distinct(made@),
            wedges@.len() == it.index(),
            edge_ids_distinct(wedges@),
            etaken@.len() == wedges@.len(),
            forall|i: int| 0 <= i < wedges@.len() ==> #[trigger] etaken@[i]@ == wedges@[i].id@,
            forall|j: int| 0 <= j < wedges@.len() ==> edge_made_from(#[trigger] wedges@[j], cedges[j], made@),
            edge_error(cedges.take(it.index() as int), cnodes) is None,
    {
        let ghost k = it.index() as int;
        proof {
            assert(cedges.take(k + 1).drop_last() =~= cedges.take(k));
            lemma_named_iff(made@, cnodes, t.from_node@);
            lemma_named_iff(made@, cnodes, t.to_node@);
        }
        let fi = match find_last_named(&made, &t.from_node) {
            Some(i) => i,
            None => {
                let mut msg: String = "Edge references missing 'from' node: ".to_owned();
                msg.append(t.from_node.as_str());
                proof {
                    assert(t == cedges[k]);
                    assert(cedges.take(k + 1).last() == t);
                    assert(edge_error(cedges.take(k + 1), cnodes) == Some(msg@));
                    lemma_edge_error_prefix(cedges, cnodes, k + 1);
                    assert(template_error(cfg) == Some(msg@));
                }
                return Err(msg);
            },
        };
        let ti = match find_last_named(&made, &t.to_node) {
            Some(i) => i,
            None => {
                let mut msg: String = "Edge references missing 'to' node: ".to_owned();
                msg.append(t.to_node.as_str());
                proof {
                    assert(t == cedges[k]);
                    assert(cedges.take(k + 1).last() == t);
                    assert(edge_error(cedges.take(k + 1), cnodes) == Some(msg@));
                    lemma_edge_error_prefix(cedges, cnodes, k + 1);
                    assert(template_error(cfg) == Some(msg@));
                }
                return Err(msg);
            },
        };
        let mut edge = Edge::new(&made[fi], &made[ti], t.label);
        if contains_id(&etaken, &edge.id) {
            edge.id = unused_id(&etaken);
        }
        proof {
            assert(t == cedges[k]);
            assert(cedges.take(k + 1).last() == t);
            assert(edge_made_from(edge, cedges[k], made@));
            assert(!id_views(etaken@).contains(edge.id@));
            assert forall|i: int| 0 <= i < wedges@.len() implies #[trigger] wedges@[i].id@ != edge.id@ by {
                assert(id_views(etaken@)[i] == wedges@[i].id@);
            }
        }
        let ghost wedges_before = wedges@;
        let ghost etaken_before = etaken@;
        etaken.push(edge.id.clone());
        wedges.push(edge);
        proof {
            assert forall|i: int, j: int|
                0 <= i < wedges@.len() && 0 <= j < wedges@.len() && i != j implies #[trigger] wedges@[i].id@ != #[trigger] wedges@[j].id@ by {
                if i < wedges_before.len() && j < wedges_before.len() {
                    assert(wedges@[i] == wedges_before[i] && wedges@[j] == wedges_before[j]);
                } else if i < wedges_before.len() {
                    assert(wedges@[i] == wedges_before[i]);
                } else {
                    assert(wedges@[j] == wedges_before[j]);
                }
            }
            assert forall|i: int| 0 <= i < wedges@.len() implies #[trigger] etaken@[i]@ == wedges@[i].id@ by {
                if i < wedges_before.len() {
                    assert(etaken@[i] == etaken_before[i] && wedges@[i] == wedges_before[i]);
                }
            }
        }
    }
    proof {
        assert(cedges.take(cedges.len() as int) =~= cedges);
    }
    let ghost made_view = made@;
    let description = match workflow.description {
        Some(d) => d,
        None => String::new(),
    };
    let w = Workflow::new(made, wedges, workflow.name, description);
    proof {
        assert(template_error(cfg) is None);
        assert(workflow_made_from(w, cfg, made_view));
        assert(workflow_describes(w, cfg));
        use_type_invariant(&w);
        lemma_nodes_by_id_len(made_view);
        lemma_nodes_by_id_len(w.node_seq());
        lemma_edges_by_id_len(w.edge_seq());
    }
    Ok(w)
}

} // verus!
