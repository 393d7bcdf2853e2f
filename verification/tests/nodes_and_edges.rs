use hoatzin::edge::edge::Edge;
use hoatzin::node::node::{Node, Runner};
use hoatzin::node::node_type::{NodeType, ScriptType};

fn is_simple_v4(id: &str) -> bool {
    let b: Vec<char> = id.chars().collect();
    b.len() == 32
        && b.iter().all(|c| c.is_ascii_digit() || ('a'..='f').contains(c))
        && b[12] == '4'
        && ['8', '9', 'a', 'b'].contains(&b[16])
}

#[test]
fn native_node_has_fresh_uuid_and_fields() {
    let n: Node<u32> = Node::new_native_node("router".to_string(), Some("d".to_string()), 7);
    assert!(is_simple_v4(&n.id));
    assert_eq!(n.name, "router");
    assert_eq!(n.description, Some("d".to_string()));
    assert!(matches!(n.node_type, NodeType::Script(ScriptType::Native(7))));
    let m: Node<u32> = Node::new_native_node("router".to_string(), None, 7);
    assert_ne!(n.id, m.id);
}

#[test]
fn python_and_javascript_nodes_keep_their_paths() {
    let p: Node<u32> = Node::new_python_node("p".to_string(), None, "scripts/a.py");
    let j: Node<u32> = Node::new_javascript_node("j".to_string(), None, "scripts/a.js");
    assert!(is_simple_v4(&p.id) && is_simple_v4(&j.id));
    match &p.node_type {
        NodeType::Script(ScriptType::Python(path)) => assert_eq!(path, "scripts/a.py"),
        _ => panic!("expected a python node"),
    }
    match &j.node_type {
        NodeType::Script(ScriptType::JavaScript(path)) => assert_eq!(path, "scripts/a.js"),
        _ => panic!("expected a javascript node"),
    }
}

#[test]
fn runner_picks_the_engine() {
    let n: Node<u32> = Node::new_native_node("n".to_string(), None, 3);
    assert!(matches!(n.runner(), Runner::Native(&3)));
    let p: Node<u32> = Node::new_python_node("p".to_string(), None, "x.py");
    match p.runner() {
        Runner::Python(path) => assert_eq!(path, "x.py"),
        _ => panic!("expected python"),
    }
    let j: Node<u32> = Node::new_javascript_node("j".to_string(), None, "x.js");
    match j.runner() {
        Runner::Unsupported(m) => assert_eq!(m, "Script Type Not Supported Yet !"),
        _ => panic!("expected unsupported"),
    }
    let c: Node<u32> = Node {
        id: "c".to_string(),
        name: "c".to_string(),
        description: None,
        node_type: NodeType::Conditional(ScriptType::BuiltIn),
    };
    assert!(matches!(c.runner(), Runner::Unsupported(_)));
}

#[test]
fn edge_links_node_ids() {
    let a: Node<u32> = Node::new_native_node("a".to_string(), None, 1);
    let b: Node<u32> = Node::new_native_node("b".to_string(), None, 2);
    let e = Edge::new(&a, &b, Some("PathB".to_string()));
    assert!(is_simple_v4(&e.id));
    assert_eq!(e.from_node_id, a.id);
    assert_eq!(e.to_node_id, b.id);
    assert_eq!(e.label, Some("PathB".to_string()));
}
