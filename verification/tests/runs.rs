use std::sync::Arc;

use hoatzin::edge::edge::Edge;
use hoatzin::execution::context::ExecutionContext;
use hoatzin::execution::node_output::NodeOutput;
use hoatzin::execution::node_status::NodeStatus;
use hoatzin::node::node::Node;
use hoatzin::workflow::workflow::Workflow;

fn node(name: &str) -> Node<u32> {
    Node::new_native_node(name.to_string(), None, 0)
}

fn ok(v: i32) -> NodeOutput<i32> {
    NodeOutput::from_result(Ok(v), None)
}

fn routed(v: i32, labels: &[&str]) -> NodeOutput<i32> {
    NodeOutput::from_result(Ok(v), Some(labels.iter().map(|l| Some(l.to_string())).collect()))
}

fn failed(msg: &str) -> NodeOutput<i32> {
    NodeOutput::from_result(Err(msg.to_string()), None)
}

fn run_of(nodes: Vec<Node<u32>>, edges: Vec<Edge>) -> ExecutionContext<u32, i32> {
    let w = Workflow::new(nodes, edges, "t".to_string(), "t".to_string());
    ExecutionContext::new(Arc::new(w))
}

fn sorted(mut v: Vec<usize>) -> Vec<usize> {
    v.sort();
    v
}

#[test]
fn ecommerce_diamond_waits_for_both_branches() {
    let start = node("receive_order");
    let pay = node("process_payment");
    let inv = node("check_inventory");
    let end = node("dispatch_order");
    let edges = vec![
        Edge::new(&start, &pay, None),
        Edge::new(&start, &inv, None),
        Edge::new(&pay, &end, None),
        Edge::new(&inv, &end, None),
    ];
    let mut ctx = run_of(vec![start, pay, inv, end], edges);
    assert!(ctx.id().len() == 32);
    assert_eq!(ctx.workflow_id(), ctx.workflow().id());
    assert_eq!(ctx.begin_run(), vec![0]);
    assert_eq!(ctx.node_status(3), Some(NodeStatus::Pending));
    assert!(ctx.make_input_context(0).is_empty());
    assert_eq!(sorted(ctx.complete_node(0, ok(150))), vec![1, 2]);
    let input1 = ctx.make_input_context(1);
    assert_eq!(input1.len(), 1);
    assert_eq!(input1[0].name, "receive_order");
    assert_eq!(input1[0].source, 0);
    assert_eq!(ctx.complete_node(1, ok(1)), Vec::<usize>::new());
    assert_eq!(ctx.node_status(3), Some(NodeStatus::Pending));
    assert_eq!(ctx.complete_node(2, ok(2)), vec![3]);
    let input3 = ctx.make_input_context(3);
    let names: Vec<&str> = input3.iter().map(|e| e.name.as_str()).collect();
    assert_eq!(names, vec!["process_payment", "check_inventory"]);
    assert_eq!(ctx.complete_node(3, ok(3)), Vec::<usize>::new());
    for v in 0..4 {
        assert_eq!(ctx.node_status(v), Some(NodeStatus::Success));
    }
    assert_eq!(ctx.node_output(1).unwrap().payload, Ok(1));
}

#[test]
fn switch_case_runs_selected_and_unlabelled_branches() {
    let a = node("Node A");
    let b = node("Node B");
    let c = node("Node C");
    let d = node("Node D");
    let edges = vec![
        Edge::new(&a, &b, Some("PathB".to_string())),
        Edge::new(&a, &c, Some("PathC".to_string())),
        Edge::new(&a, &d, None),
    ];
    let mut ctx = run_of(vec![a, b, c, d], edges);
    assert_eq!(ctx.begin_run(), vec![0]);
    assert_eq!(sorted(ctx.complete_node(0, routed(0, &["PathC"]))), vec![2, 3]);
    assert_eq!(ctx.node_status(1), Some(NodeStatus::Skipped));
    assert_eq!(ctx.node_status(2), Some(NodeStatus::Running));
    assert_eq!(ctx.node_status(3), Some(NodeStatus::Running));
}

#[test]
fn router_selects_high_value_branch() {
    let router = node("router");
    let std_p = node("std_processor");
    let high = node("high_processor");
    let edges = vec![
        Edge::new(&router, &std_p, Some("Standard".to_string())),
        Edge::new(&router, &high, Some("HighValue".to_string())),
    ];
    let mut ctx = run_of(vec![router.clone(), std_p.clone(), high.clone()], edges);
    ctx.begin_run();
    assert_eq!(ctx.complete_node(0, routed(1, &["HighValue"])), vec![2]);
    assert_eq!(ctx.node_status(1), Some(NodeStatus::Skipped));
}

#[test]
fn no_route_follows_every_edge() {
    let a = node("a");
    let b = node("b");
    let c = node("c");
    let edges = vec![Edge::new(&a, &b, Some("X".to_string())), Edge::new(&a, &c, Some("Y".to_string()))];
    let mut ctx = run_of(vec![a, b, c], edges);
    ctx.begin_run();
    assert_eq!(sorted(ctx.complete_node(0, ok(0))), vec![1, 2]);
}

#[test]
fn failure_blocks_dependents_down_the_chain() {
    let a = node("a");
    let b = node("b");
    let c = node("c");
    let edges = vec![Edge::new(&a, &b, None), Edge::new(&b, &c, None)];
    let mut ctx = run_of(vec![a, b, c], edges);
    ctx.begin_run();
    assert_eq!(ctx.complete_node(0, failed("boom")), Vec::<usize>::new());
    assert_eq!(ctx.node_status(0), Some(NodeStatus::Failed));
    assert_eq!(ctx.node_status(1), Some(NodeStatus::Blocked));
    assert_eq!(ctx.node_status(2), Some(NodeStatus::Blocked));
    assert_eq!(ctx.node_output(0).unwrap().payload, Err("boom".to_string()));
}

#[test]
fn failed_input_blocks_fan_in_even_with_a_success() {
    let a = node("a");
    let b = node("b");
    let c = node("c");
    let edges = vec![Edge::new(&a, &c, None), Edge::new(&b, &c, None)];
    let mut ctx = run_of(vec![a, b, c], edges);
    assert_eq!(ctx.begin_run(), vec![0, 1]);
    assert_eq!(ctx.complete_node(0, ok(1)), Vec::<usize>::new());
    assert_eq!(ctx.complete_node(1, failed("x")), Vec::<usize>::new());
    assert_eq!(ctx.node_status(2), Some(NodeStatus::Blocked));
}

#[test]
fn blocked_branch_blocks_fan_in_even_with_a_success() {
    // p -> r -> q and s -> q: p fails, so r is blocked, and q with it.
    let p = node("p");
    let r = node("r");
    let q = node("q");
    let s = node("s");
    let edges = vec![Edge::new(&p, &r, None), Edge::new(&r, &q, None), Edge::new(&s, &q, None)];
    let mut ctx = run_of(vec![p, r, q, s], edges);
    assert_eq!(ctx.begin_run(), vec![0, 3]);
    assert_eq!(ctx.complete_node(0, failed("boom")), Vec::<usize>::new());
    assert_eq!(ctx.node_status(1), Some(NodeStatus::Blocked));
    assert_eq!(ctx.node_status(2), Some(NodeStatus::Pending));
    assert_eq!(ctx.complete_node(3, ok(7)), Vec::<usize>::new());
    assert_eq!(ctx.node_status(2), Some(NodeStatus::Blocked));
}

#[test]
fn skipped_branch_does_not_block_fan_in() {
    // A node skipped for want of a route is no failure: the fan-in still runs.
    let r = node("router");
    let a = node("a");
    let s = node("s");
    let q = node("q");
    let edges = vec![
        Edge::new(&r, &a, Some("X".to_string())),
        Edge::new(&a, &q, None),
        Edge::new(&s, &q, None),
    ];
    let mut ctx = run_of(vec![r, a, s, q], edges);
    assert_eq!(ctx.begin_run(), vec![0, 2]);
    assert_eq!(ctx.complete_node(0, routed(0, &["Y"])), Vec::<usize>::new());
    assert_eq!(ctx.node_status(1), Some(NodeStatus::Skipped));
    assert_eq!(ctx.complete_node(2, ok(1)), vec![3]);
}

#[test]
fn unlabelled_acyclic_run_succeeds_everywhere_once() {
    let a = node("a");
    let b = node("b");
    let c = node("c");
    let d = node("d");
    let edges = vec![
        Edge::new(&a, &b, None),
        Edge::new(&a, &c, None),
        Edge::new(&b, &d, None),
        Edge::new(&c, &d, None),
    ];
    let mut ctx = run_of(vec![a, b, c, d], edges);
    let mut handed_out = ctx.begin_run();
    let mut queue = handed_out.clone();
    while let Some(v) = queue.pop() {
        let next = ctx.complete_node(v, ok(v as i32));
        handed_out.extend(next.iter().copied());
        queue.extend(next);
    }
    assert_eq!(sorted(handed_out), vec![0, 1, 2, 3]);
    for v in 0..4 {
        assert_eq!(ctx.node_status(v), Some(NodeStatus::Success));
    }
}

#[test]
fn fan_in_runs_when_one_branch_is_selected() {
    let r = node("router");
    let a = node("a");
    let b = node("b");
    let c = node("c");
    let edges = vec![
        Edge::new(&r, &a, Some("X".to_string())),
        Edge::new(&r, &b, Some("Y".to_string())),
        Edge::new(&a, &c, None),
        Edge::new(&b, &c, None),
    ];
    let mut ctx = run_of(vec![r, a, b, c], edges);
    ctx.begin_run();
    assert_eq!(ctx.complete_node(0, routed(0, &["X"])), vec![1]);
    assert_eq!(ctx.node_status(2), Some(NodeStatus::Skipped));
    assert_eq!(ctx.complete_node(1, ok(5)), vec![3]);
    let input = ctx.make_input_context(3);
    assert_eq!(input.len(), 1);
    assert_eq!(input[0].name, "a");
}

#[test]
fn skip_chain_reaches_dead_end() {
    let a = node("a");
    let b = node("b");
    let c = node("c");
    let d = node("d");
    let edges = vec![
        Edge::new(&a, &b, Some("X".to_string())),
        Edge::new(&b, &c, None),
        Edge::new(&c, &d, None),
    ];
    let mut ctx = run_of(vec![a, b, c, d], edges);
    ctx.begin_run();
    assert_eq!(ctx.complete_node(0, routed(0, &[])), Vec::<usize>::new());
    for v in 1..4 {
        assert_eq!(ctx.node_status(v), Some(NodeStatus::Skipped));
    }
}

#[test]
fn cycle_stays_pending() {
    let a = node("a");
    let b = node("b");
    let c = node("c");
    let edges = vec![Edge::new(&a, &b, None), Edge::new(&b, &a, None)];
    let mut ctx = run_of(vec![a, b, c], edges);
    assert_eq!(ctx.begin_run(), vec![2]);
    assert_eq!(ctx.complete_node(2, ok(0)), Vec::<usize>::new());
    assert_eq!(ctx.node_status(0), Some(NodeStatus::Pending));
    assert_eq!(ctx.node_status(1), Some(NodeStatus::Pending));
}

#[test]
fn completing_a_node_that_is_not_running_changes_nothing() {
    let a = node("a");
    let b = node("b");
    let edges = vec![Edge::new(&a, &b, None)];
    let mut ctx = run_of(vec![a, b], edges);
    assert_eq!(ctx.complete_node(0, ok(0)), Vec::<usize>::new());
    assert_eq!(ctx.node_status(0), None);
    ctx.begin_run();
    assert_eq!(ctx.complete_node(1, ok(0)), Vec::<usize>::new());
    assert_eq!(ctx.node_status(1), Some(NodeStatus::Pending));
    assert_eq!(ctx.complete_node(7, ok(0)), Vec::<usize>::new());
    assert_eq!(ctx.begin_run(), Vec::<usize>::new());
    assert_eq!(ctx.node_status(0), Some(NodeStatus::Running));
}

#[test]
fn route_field_keeps_strings_only_and_failures_have_no_route() {
    let o: NodeOutput<i32> =
        NodeOutput::from_result(Ok(1), Some(vec![Some("A".to_string()), None, Some("B".to_string())]));
    assert_eq!(o.route, Some(vec!["A".to_string(), "B".to_string()]));
    let f: NodeOutput<i32> = NodeOutput::from_result(Err("e".to_string()), Some(vec![Some("A".to_string())]));
    assert_eq!(f.route, None);
    let n: NodeOutput<i32> = NodeOutput::from_result(Ok(1), None);
    assert_eq!(n.route, None);
}

#[test]
fn duplicate_edges_count_once_each() {
    let a = node("a");
    let b = node("b");
    let edges = vec![Edge::new(&a, &b, None), Edge::new(&a, &b, None)];
    let mut ctx = run_of(vec![a, b], edges);
    ctx.begin_run();
    assert_eq!(ctx.complete_node(0, ok(3)), vec![1]);
    assert_eq!(ctx.make_input_context(1).len(), 2);
}

#[test]
fn a_node_is_handed_out_once() {
    let a = node("a");
    let b = node("b");
    let c = node("c");
    let edges = vec![Edge::new(&a, &c, None), Edge::new(&b, &c, None)];
    let mut ctx = run_of(vec![a, b, c], edges);
    assert_eq!(ctx.begin_run(), vec![0, 1]);
    assert_eq!(ctx.complete_node(0, ok(1)), Vec::<usize>::new());
    assert_eq!(ctx.complete_node(1, ok(2)), vec![2]);
    assert_eq!(ctx.complete_node(0, ok(9)), Vec::<usize>::new());
    assert_eq!(ctx.complete_node(1, ok(9)), Vec::<usize>::new());
    assert_eq!(ctx.node_output(0).unwrap().payload, Ok(1));
    assert_eq!(ctx.complete_node(2, ok(3)), Vec::<usize>::new());
    assert_eq!(ctx.node_status(2), Some(NodeStatus::Success));
}

#[test]
fn microservice_pipeline_settles_every_node() {
    let names = [
        "init_transfer",
        "check_kyc",
        "ml_fraud",
        "lock_funds",
        "consensus_evaluator",
        "commit_ledger",
        "alert_compliance",
        "finalize_audit",
    ];
    let ns: Vec<Node<u32>> = names.iter().map(|n| node(n)).collect();
    let pairs = [(0, 1), (0, 2), (0, 3), (1, 4), (2, 4), (3, 4), (4, 5), (4, 6), (5, 7), (6, 7)];
    let edges: Vec<Edge> = pairs.iter().map(|&(f, t)| Edge::new(&ns[f], &ns[t], None)).collect();
    let mut ctx = run_of(ns, edges);
    let mut ready: Vec<usize> = ctx.begin_run();
    let mut order: Vec<usize> = Vec::new();
    while let Some(v) = ready.pop() {
        order.push(v);
        let next = ctx.complete_node(v, ok(v as i32));
        ready.extend(next);
    }
    assert_eq!(order.len(), 8);
    for &(f, t) in pairs.iter() {
        let pf = order.iter().position(|&x| x == f).unwrap();
        let pt = order.iter().position(|&x| x == t).unwrap();
        assert!(pf < pt);
    }
    let inputs: Vec<String> = ctx.make_input_context(4).into_iter().map(|e| e.name).collect();
    assert_eq!(inputs, vec!["check_kyc", "ml_fraud", "lock_funds"]);
    for v in 0..8 {
        assert_eq!(ctx.node_status(v), Some(NodeStatus::Success));
    }
}
