use hoatzin::edge::edge::Edge;
use hoatzin::node::node::Node;
use hoatzin::node::node_type::{NodeType, ScriptType};
use hoatzin::template::parser::build_workflow;
use hoatzin::template::template::{EdgeTOML, NodeTOML, WorkflowMeta, WorkflowTOML};
use hoatzin::workflow::workflow::Workflow;

fn node(name: &str) -> Node<u32> {
    Node::new_native_node(name.to_string(), None, 0)
}

#[test]
fn workflow_keys_nodes_by_id_and_lists_edges() {
    let a = node("a");
    let b = node("b");
    let c = node("c");
    let e1 = Edge::new(&a, &b, None);
    let e2 = Edge::new(&a, &c, Some("X".to_string()));
    let e3 = Edge::new(&b, &c, None);
    let w = Workflow::new(
        vec![a.clone(), b.clone(), c.clone(), a.clone()],
        vec![e1, e2, e3],
        "W".to_string(),
        "desc".to_string(),
    );
    assert_eq!(w.node_count(), 3);
    assert_eq!(w.edge_count(), 3);
    assert_eq!(w.name(), "W");
    assert_eq!(w.description(), "desc");
    assert_eq!(w.id().len(), 32);
    let ia = w.node_index(&a.id).unwrap();
    let ib = w.node_index(&b.id).unwrap();
    let ic = w.node_index(&c.id).unwrap();
    assert_eq!(w.outgoing(ia), &vec![0, 1]);
    assert_eq!(w.incoming(ic), &vec![1, 2]);
    assert_eq!(w.incoming(ia), &Vec::<usize>::new());
    assert_eq!(w.edge_source(2), Some(ib));
    assert_eq!(w.edge_target(0), Some(ib));
    assert!(w.edge_targets_known());
}

#[test]
fn later_node_with_same_id_replaces_earlier() {
    let a = node("first");
    let mut a2 = node("second");
    a2.id = a.id.clone();
    let w = Workflow::new(vec![a.clone(), a2], vec![], "W".to_string(), "d".to_string());
    assert_eq!(w.node_count(), 1);
    assert_eq!(w.node(0).name, "second");
}

#[test]
fn edge_to_missing_node_is_reported() {
    let a = node("a");
    let b = node("b");
    let e = Edge::new(&a, &b, None);
    let w = Workflow::new(vec![a], vec![e], "W".to_string(), "d".to_string());
    assert!(!w.edge_targets_known());
    assert_eq!(w.edge_target(0), None);
    assert_eq!(w.edge_source(0), Some(0));
}

fn node_toml(name: &str, t: &str, path: &str) -> NodeTOML {
    NodeTOML {
        name: name.to_string(),
        description: None,
        script_type: t.to_string(),
        script_path: path.to_string(),
    }
}

fn edge_toml(from: &str, to: &str, label: Option<&str>) -> EdgeTOML {
    EdgeTOML { label: label.map(String::from), from_node: from.to_string(), to_node: to.to_string() }
}

fn template(nodes: Vec<NodeTOML>, edges: Vec<EdgeTOML>) -> WorkflowTOML {
    WorkflowTOML {
        workflow: WorkflowMeta {
            name: "Routing Pipeline".to_string(),
            description: Some("Basic routing structure".to_string()),
        },
        nodes,
        edges,
    }
}

#[test]
fn template_without_description_builds_with_empty_one() {
    let mut t = template(vec![node_toml("solo", "Python", "scripts/solo.py")], vec![]);
    t.workflow.description = None;
    let w: Workflow<u32> = build_workflow(t).unwrap();
    assert_eq!(w.description(), "");
    assert_eq!(w.node_count(), 1);
}

#[test]
fn template_builds_routing_pipeline() {
    let t = template(
        vec![
            node_toml("router", "Python", "scripts/route_order.py"),
            node_toml("std_processor", "Python", "scripts/process_standard.py"),
            node_toml("high_processor", "JavaScript", "scripts/process_high_value.js"),
        ],
        vec![
            edge_toml("router", "std_processor", Some("Standard")),
            edge_toml("router", "high_processor", Some("HighValue")),
        ],
    );
    let w: Workflow<u32> = build_workflow(t).unwrap();
    assert_eq!(w.name(), "Routing Pipeline");
    assert_eq!(w.description(), "Basic routing structure");
    assert_eq!(w.node_count(), 3);
    assert_eq!(w.edge_count(), 2);
    let router = (0..3).find(|&i| w.node(i).name == "router").unwrap();
    let high = (0..3).find(|&i| w.node(i).name == "high_processor").unwrap();
    assert_eq!(w.edge(1).from_node_id, w.node(router).id);
    assert_eq!(w.edge(1).to_node_id, w.node(high).id);
    assert_eq!(w.edge(1).label, Some("HighValue".to_string()));
    match &w.node(router).node_type {
        NodeType::Script(ScriptType::Python(p)) => assert_eq!(p, "scripts/route_order.py"),
        _ => panic!("expected python"),
    }
    assert!(matches!(w.node(high).node_type, NodeType::Script(ScriptType::JavaScript(_))));
}

#[test]
fn template_rejects_unknown_script_type() {
    let t = template(
        vec![node_toml("a", "Python", "a.py"), node_toml("b", "Ruby", "b.rb"), node_toml("c", "Lua", "c")],
        vec![edge_toml("a", "zzz", None)],
    );
    let r: Result<Workflow<u32>, String> = build_workflow(t);
    assert_eq!(r.err().unwrap(), "Unsupported script type: Ruby");
}

#[test]
fn template_rejects_missing_from_node() {
    let t = template(
        vec![node_toml("a", "Python", "a.py")],
        vec![edge_toml("a", "a", None), edge_toml("ghost", "a", None), edge_toml("a", "other", None)],
    );
    let r: Result<Workflow<u32>, String> = build_workflow(t);
    assert_eq!(r.err().unwrap(), "Edge references missing 'from' node: ghost");
}

#[test]
fn template_rejects_missing_to_node() {
    let t = template(vec![node_toml("a", "Python", "a.py")], vec![edge_toml("a", "other", None)]);
    let r: Result<Workflow<u32>, String> = build_workflow(t);
    assert_eq!(r.err().unwrap(), "Edge references missing 'to' node: other");
}

#[test]
fn template_edges_use_last_node_of_a_name() {
    let t = template(
        vec![node_toml("a", "Python", "1.py"), node_toml("b", "Python", "2.py"), node_toml("a", "Python", "3.py")],
        vec![edge_toml("a", "b", None)],
    );
    let w: Workflow<u32> = build_workflow(t).unwrap();
    assert_eq!(w.node_count(), 3);
    let src = w.edge_source(0).unwrap();
    match &w.node(src).node_type {
        NodeType::Script(ScriptType::Python(p)) => assert_eq!(p, "3.py"),
        _ => panic!("expected python"),
    }
}

#[test]
fn adjacency_lists_by_node_id() {
    let a = node("a");
    let b = node("b");
    let c = node("c");
    let e1 = Edge::new(&a, &b, None);
    let e2 = Edge::new(&a, &c, None);
    let e3 = Edge::new(&b, &c, None);
    let ids = (e1.id.clone(), e2.id.clone(), e3.id.clone());
    let w = Workflow::new(vec![a.clone(), b.clone(), c.clone()], vec![e1, e2, e3], "W".to_string(), "d".to_string());
    assert_eq!(w.outgoing_edge_ids(&a.id), Some(vec![ids.0.clone(), ids.1.clone()]));
    assert_eq!(w.incoming_edge_ids(&c.id), Some(vec![ids.1.clone(), ids.2.clone()]));
    assert_eq!(w.outgoing_edge_ids(&c.id), None);
    assert_eq!(w.incoming_edge_ids(&a.id), None);
    assert_eq!(w.outgoing_edge_ids(&"nobody".to_string()), None);
}

#[test]
fn edge_lists_count_every_edge_once() {
    let a = node("a");
    let b = node("b");
    let c = node("c");
    let edges = vec![
        Edge::new(&a, &b, None),
        Edge::new(&a, &c, None),
        Edge::new(&b, &c, None),
        Edge::new(&c, &a, None),
    ];
    let edge_ids: Vec<String> = edges.iter().map(|e| e.id.clone()).collect();
    let w = Workflow::new(vec![a.clone(), b.clone(), c.clone()], edges, "W".to_string(), "d".to_string());
    let mut outgoing = 0;
    let mut incoming = 0;
    for id in [&a.id, &b.id, &c.id] {
        for e in w.outgoing_edge_ids(id).unwrap_or_default() {
            assert!(edge_ids.contains(&e));
            outgoing += 1;
        }
        for e in w.incoming_edge_ids(id).unwrap_or_default() {
            assert!(edge_ids.contains(&e));
            incoming += 1;
        }
    }
    assert_eq!(outgoing, w.edge_count());
    assert_eq!(incoming, w.edge_count());
}
