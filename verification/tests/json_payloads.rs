use std::sync::Arc;

use hoatzin::edge::edge::Edge;
use hoatzin::execution::context::ExecutionContext;
use hoatzin::execution::json::{error_object, input_object, output_from_result};
use hoatzin::execution::node_status::NodeStatus;
use hoatzin::node::node::Node;
use hoatzin::workflow::workflow::Workflow;
use serde_json::Value;

fn value(text: &str) -> Value {
    serde_json::from_str(text).unwrap()
}

fn node(name: &str) -> Node<u32> {
    Node::new_native_node(name.to_string(), None, 0)
}

#[test]
fn route_is_read_from_the_payload() {
    let o = output_from_result(Ok(value(r#"{"status": "routed", "__route__": ["HighValue", 3, "Other"]}"#)));
    assert_eq!(o.route, Some(vec!["HighValue".to_string(), "Other".to_string()]));
    let none = output_from_result(Ok(value(r#"{"status": "plain"}"#)));
    assert_eq!(none.route, None);
    let not_array = output_from_result(Ok(value(r#"{"__route__": "HighValue"}"#)));
    assert_eq!(not_array.route, None);
    let failed = output_from_result(Err("boom".to_string()));
    assert_eq!(failed.route, None);
    assert_eq!(failed.payload, Err("boom".to_string()));
}

#[test]
fn error_object_has_one_error_field() {
    let m = error_object("bad input".to_string());
    assert_eq!(m.len(), 1);
    assert_eq!(m.get("error"), Some(&Value::String("bad input".to_string())));
}

#[test]
fn input_object_holds_predecessor_outputs_by_name() {
    let order = node("receive_order");
    let pay = node("process_payment");
    let edges = vec![Edge::new(&order, &pay, None)];
    let w = Workflow::new(vec![order, pay], edges, "Ecommerce".to_string(), "Process Order".to_string());
    let mut ctx: ExecutionContext<u32, Value> = ExecutionContext::new(Arc::new(w));
    assert!(input_object(&ctx, 0).is_empty());
    assert_eq!(ctx.begin_run(), vec![0]);
    assert!(input_object(&ctx, 0).is_empty());
    let payload = value(r#"{"order_id": "ORD-7781", "amount": 150.0}"#);
    assert_eq!(ctx.complete_node(0, output_from_result(Ok(payload.clone()))), vec![1]);
    let input = input_object(&ctx, 1);
    assert_eq!(input.len(), 1);
    assert_eq!(input.get("receive_order"), Some(&payload));
    assert_eq!(ctx.node_status(1), Some(NodeStatus::Running));
}

#[test]
fn input_object_maps_failed_predecessor_to_error_object() {
    let a = node("a");
    let b = node("b");
    let edges = vec![Edge::new(&a, &b, None)];
    let w = Workflow::new(vec![a, b], edges, "w".to_string(), "d".to_string());
    let mut ctx: ExecutionContext<u32, Value> = ExecutionContext::new(Arc::new(w));
    ctx.begin_run();
    ctx.complete_node(0, output_from_result(Err("boom".to_string())));
    assert_eq!(ctx.node_status(1), Some(NodeStatus::Blocked));
    let input = input_object(&ctx, 1);
    assert_eq!(input.len(), 1);
    assert_eq!(input.get("a"), Some(&value(r#"{"error": "boom"}"#)));
}

#[test]
fn input_object_keeps_the_later_of_two_names() {
    let first = node("twin");
    let second = node("twin");
    let sink = node("sink");
    let edges = vec![Edge::new(&first, &sink, None), Edge::new(&second, &sink, None)];
    let w = Workflow::new(vec![first, second, sink], edges, "w".to_string(), "d".to_string());
    let mut ctx: ExecutionContext<u32, Value> = ExecutionContext::new(Arc::new(w));
    assert_eq!(ctx.begin_run(), vec![0, 1]);
    ctx.complete_node(0, output_from_result(Ok(value("1"))));
    assert_eq!(ctx.complete_node(1, output_from_result(Ok(value("2")))), vec![2]);
    let input = input_object(&ctx, 2);
    assert_eq!(input.len(), 1);
    assert_eq!(input.get("twin"), Some(&value("2")));
}

#[test]
fn ecommerce_dispatch_receives_both_payloads() {
    let start = node("receive_order");
    let pay = node("process_payment");
    let inv = node("check_inventory");
    let end = node("dispatch_order");
    let edges = vec![
        Edge::new(&start, &pay, None),
        Edge::new(&start, &inv, None),
        Edge::new(&pay, &end, None),
        Edge::new(&inv, &end, None),
    ];
    let w = Workflow::new(vec![start, pay, inv, end], edges, "Ecommerce".to_string(), "d".to_string());
    let mut ctx: ExecutionContext<u32, Value> = ExecutionContext::new(Arc::new(w));
    assert_eq!(ctx.begin_run(), vec![0]);
    let order = value(r#"{"order_id": "ORD-7781", "amount": 150.0}"#);
    let mut next = ctx.complete_node(0, output_from_result(Ok(order)));
    next.sort();
    assert_eq!(next, vec![1, 2]);
    let paid = value(r#"{"payment_status": "success", "transaction_id": "tx_99210"}"#);
    let stock = value(r#"{"stock_available": true, "warehouse_zone": "Zone-A"}"#);
    assert_eq!(ctx.complete_node(1, output_from_result(Ok(paid))), Vec::<usize>::new());
    assert_eq!(ctx.complete_node(2, output_from_result(Ok(stock))), vec![3]);
    let input = Value::Object(input_object(&ctx, 3));
    assert_eq!(
        input,
        value(
            r#"{"process_payment": {"payment_status": "success", "transaction_id": "tx_99210"},
                "check_inventory": {"stock_available": true, "warehouse_zone": "Zone-A"}}"#
        )
    );
    let done = value(r#"{"final_status": "Order Dispatched"}"#);
    assert_eq!(ctx.complete_node(3, output_from_result(Ok(done.clone()))), Vec::<usize>::new());
    for v in 0..4 {
        assert_eq!(ctx.node_status(v), Some(NodeStatus::Success));
    }
    assert_eq!(ctx.node_output(3).unwrap().payload, Ok(done));
}

#[test]
fn routed_payload_selects_labelled_branch() {
    let router = node("router");
    let std_p = node("std_processor");
    let high = node("high_processor");
    let edges = vec![
        Edge::new(&router, &std_p, Some("Standard".to_string())),
        Edge::new(&router, &high, Some("HighValue".to_string())),
    ];
    let w = Workflow::new(vec![router, std_p, high], edges, "RoutingWorkflow".to_string(), "x".to_string());
    let mut ctx: ExecutionContext<u32, Value> = ExecutionContext::new(Arc::new(w));
    ctx.begin_run();
    let out = output_from_result(Ok(value(r#"{"status": "routed", "__route__": ["HighValue"]}"#)));
    assert_eq!(ctx.complete_node(0, out), vec![2]);
    assert_eq!(ctx.node_status(1), Some(NodeStatus::Skipped));
    let input = Value::Object(input_object(&ctx, 2));
    assert_eq!(input, value(r#"{"router": {"status": "routed", "__route__": ["HighValue"]}}"#));
}
