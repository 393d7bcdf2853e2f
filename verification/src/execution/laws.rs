//! What holds of every run: at every step, and over the steps of a whole run.

use vstd::prelude::*;
use crate::execution::context::{
    edge_active, edge_failed, label_view, selects, has_active_input, has_failed_input, input_entries, inputs_resolved, is_resolved,
    lemma_in_edges, lemma_input_entries, node_finished, settled_in_order, skip_due, src_resolved, unresolved, was_dispatched,
    ExecutionContext,
};
use crate::execution::counting::{count_where, lemma_edges_at_complete};
use crate::workflow::workflow::Workflow;
use crate::execution::node_output::{string_views, NodeOutput};
use crate::execution::node_status::NodeStatus;

verus! {

/// A node is handed out only once every edge into it comes from a node that
/// has finished: fan-in waits for all its inputs.
pub proof fn law_runs_after_all_inputs<F, P>(ctx: ExecutionContext<F, P>, v: int)
    requires
        ctx.inv(),
        ctx.started(),
        0 <= v < ctx.wf_view().node_seq().len(),
        was_dispatched(ctx.status()[v]),
    ensures
        inputs_resolved(ctx.wf_view(), ctx.status(), v),
{
}

/// A node with an input that failed, or was blocked by a failure further up,
/// is never run.
pub proof fn law_failure_blocks_dependents<F, P>(ctx: ExecutionContext<F, P>, v: int)
    requires
        ctx.inv(),
        ctx.started(),
        0 <= v < ctx.wf_view().node_seq().len(),
        has_failed_input(ctx.wf_view(), ctx.status(), v),
    ensures
        !was_dispatched(ctx.status()[v]),
{
}

/// A node with incoming edges is run only when one of them is active: its
/// source succeeded and its label, if any, is in the source's route, if any.
pub proof fn law_runs_only_when_selected<F, P>(ctx: ExecutionContext<F, P>, v: int)
    requires
        ctx.inv(),
        ctx.started(),
        0 <= v < ctx.wf_view().node_seq().len(),
        ctx.wf_view().in_edges()[v].len() > 0,
        was_dispatched(ctx.status()[v]),
    ensures
        has_active_input(ctx.wf_view(), ctx.status(), ctx.outputs(), v),
{
}

/// A node whose inputs have all finished, none of them failed or blocked,
/// and none of its incoming edges active, is skipped; skipping settles its
/// own outgoing edges, so skips carry on down dead-end paths.
pub proof fn law_unselected_is_skipped<F, P>(ctx: ExecutionContext<F, P>, v: int)
    requires
        ctx.inv(),
        ctx.started(),
        0 <= v < ctx.wf_view().node_seq().len(),
        inputs_resolved(ctx.wf_view(), ctx.status(), v),
        skip_due(ctx.wf_view(), ctx.status(), ctx.outputs(), v),
    ensures
        ctx.status()[v] == NodeStatus::Skipped,
        is_resolved(ctx.status()[v]),
{
    let w = ctx.wf_view();
    let st = ctx.status();
    if st[v] == NodeStatus::Pending {
        assert forall|i: int| 0 <= i < w.in_edges()[v].len() implies !unresolved(w, st)(#[trigger] w.in_edges()[v][i]) by {
            assert(src_resolved(w, st, w.in_edges()[v][i]));
        }
        if count_where(w.in_edges()[v], unresolved(w, st)) > 0 {
            lemma_count_zero_contra(w.in_edges()[v], unresolved(w, st));
        }
    }
}

proof fn lemma_count_zero_contra(s: Seq<usize>, p: spec_fn(usize) -> bool)
    requires
        forall|i: int| 0 <= i < s.len() ==> !p(#[trigger] s[i]),
    ensures
        count_where(s, p) == 0,
    decreases s.len(),
{
    if s.len() > 0 {
        lemma_count_zero_contra(s.drop_last(), p);
    }
}

/// A node whose inputs have all finished, one of which failed or was
/// blocked, is blocked.
pub proof fn law_failed_input_blocks<F, P>(ctx: ExecutionContext<F, P>, v: int)
    requires
        ctx.inv(),
        ctx.started(),
        0 <= v < ctx.wf_view().node_seq().len(),
        inputs_resolved(ctx.wf_view(), ctx.status(), v),
        has_failed_input(ctx.wf_view(), ctx.status(), v),
    ensures
        ctx.status()[v] == NodeStatus::Blocked,
{
    law_ready_nodes_never_wait(ctx, v);
}

/// There is an edge from node `a` to node `b`.
pub open spec fn has_edge<F>(w: Workflow<F>, a: usize, b: usize) -> bool {
    exists|e: int| 0 <= e < w.edge_seq().len() && #[trigger] w.src()[e] == Some(a) && w.dst()[e] == Some(b)
}

/// `p` is a chain of nodes of the workflow, each joined to the next by an edge.
pub open spec fn is_path<F>(w: Workflow<F>, p: Seq<usize>) -> bool {
    &&& p.len() > 0
    &&& forall|i: int| 0 <= i < p.len() ==> #[trigger] p[i] < w.node_seq().len()
    &&& forall|i: int| 0 <= i < p.len() - 1 ==> #[trigger] has_edge(w, p[i], p[i + 1])
}

/// An edge from `a` to `b` is among the incoming edges of `b`.
proof fn lemma_edge_is_incoming<F>(w: Workflow<F>, a: usize, b: usize) -> (t: int)
    requires
        w.wf(),
        b < w.node_seq().len(),
        has_edge(w, a, b),
    ensures
        0 <= t < w.in_edges()[b as int].len(),
        w.src()[w.in_edges()[b as int][t] as int] == Some(a),
{
    let e = choose|e: int| 0 <= e < w.edge_seq().len() && #[trigger] w.src()[e] == Some(a) && w.dst()[e] == Some(b);
    lemma_edges_at_complete(w.dst(), b, w.edge_seq().len() as int, e);
    choose|t: int| 0 <= t < w.in_edges()[b as int].len() && w.in_edges()[b as int][t] == e as usize
}

proof fn lemma_blocked_along<F, P>(ctx: ExecutionContext<F, P>, p: Seq<usize>, k: int)
    requires
        ctx.inv(),
        ctx.started(),
        is_path(ctx.wf_view(), p),
        ctx.status()[p[0] as int] == NodeStatus::Failed,
        1 <= k < p.len(),
    ensures
        ctx.status()[p[k] as int] == NodeStatus::Pending || ctx.status()[p[k] as int] == NodeStatus::Blocked,
    decreases k,
{
    let w = ctx.wf_view();
    let st = ctx.status();
    if k > 1 {
        lemma_blocked_along(ctx, p, k - 1);
    }
    let a = p[k - 1];
    let b = p[k];
    let i = k - 1;
    assert(has_edge(w, p[i], p[i + 1]));
    let t = lemma_edge_is_incoming(w, a, b);
    if st[b as int] != NodeStatus::Pending {
        assert(src_resolved(w, st, w.in_edges()[b as int][t]));
        assert(edge_failed(w, st, w.in_edges()[b as int][t]));
        assert(has_failed_input(w, st, b as int));
    }
}

/// Everything downstream of a failed node, along any chain of edges, stays
/// pending or is blocked: no node that depends on a failure runs.
pub proof fn law_failure_blocks_downstream<F, P>(ctx: ExecutionContext<F, P>, p: Seq<usize>)
    requires
        ctx.inv(),
        ctx.started(),
        is_path(ctx.wf_view(), p),
        ctx.status()[p[0] as int] == NodeStatus::Failed,
    ensures
        forall|k: int|
            1 <= k < p.len() ==> #[trigger] ctx.status()[p[k] as int] == NodeStatus::Pending
                || ctx.status()[p[k] as int] == NodeStatus::Blocked,
{
    assert forall|k: int| 1 <= k < p.len() implies #[trigger] ctx.status()[p[k] as int] == NodeStatus::Pending
        || ctx.status()[p[k] as int] == NodeStatus::Blocked by {
        lemma_blocked_along(ctx, p, k);
    }
}

/// A node whose inputs have all finished, none failed, and one of whose
/// incoming edges comes from a node that succeeded and is unlabelled (or
/// carries a label that the node's route names, or the node named no route),
/// has been handed out to run.
pub proof fn law_selected_edge_runs_target<F, P>(ctx: ExecutionContext<F, P>, v: int, k: int)
    requires
        ctx.inv(),
        ctx.started(),
        0 <= v < ctx.wf_view().node_seq().len(),
        0 <= k < ctx.wf_view().in_edges()[v].len(),
        inputs_resolved(ctx.wf_view(), ctx.status(), v),
        !has_failed_input(ctx.wf_view(), ctx.status(), v),
        edge_active(ctx.wf_view(), ctx.status(), ctx.outputs(), ctx.wf_view().in_edges()[v][k]),
    ensures
        was_dispatched(ctx.status()[v]),
{
    let w = ctx.wf_view();
    let st = ctx.status();
    assert(has_active_input(w, st, ctx.outputs(), v));
    if st[v] == NodeStatus::Pending {
        assert forall|i: int| 0 <= i < w.in_edges()[v].len() implies !unresolved(w, st)(#[trigger] w.in_edges()[v][i]) by {
            assert(src_resolved(w, st, w.in_edges()[v][i]));
        }
        lemma_count_zero_contra(w.in_edges()[v], unresolved(w, st));
    }
}

/// When nothing is running, every node still pending waits on an edge from
/// another pending node or from a node the workflow lacks: on a workflow
/// without cycles, a run that has stopped has settled every node.
pub proof fn law_stopped_run_waits_only_on_pending<F, P>(ctx: ExecutionContext<F, P>, v: int)
    requires
        ctx.inv(),
        ctx.started(),
        0 <= v < ctx.wf_view().node_seq().len(),
        forall|u: int|
            0 <= u < ctx.wf_view().node_seq().len() ==> #[trigger] ctx.status()[u] != NodeStatus::Running,
        ctx.status()[v] == NodeStatus::Pending,
    ensures
        exists|k: int|
            0 <= k < ctx.wf_view().in_edges()[v].len() && match ctx.wf_view().src()[#[trigger] ctx.wf_view().in_edges()[v][k] as int] {
                Some(u) => ctx.status()[u as int] == NodeStatus::Pending,
                None => true,
            },
{
    let w = ctx.wf_view();
    let st = ctx.status();
    let ins = w.in_edges()[v];
    assert(count_where(ins, unresolved(w, st)) > 0);
    if forall|k: int| 0 <= k < ins.len() ==> !unresolved(w, st)(#[trigger] ins[k]) {
        lemma_count_zero_contra(ins, unresolved(w, st));
    }
    let k = choose|k: int| 0 <= k < ins.len() && unresolved(w, st)(#[trigger] ins[k]);
    lemma_in_edges(w, v);
    assert(0 <= k < ins.len());
}

/// Two successive completions never hand out the same node twice.
pub proof fn law_handed_out_once<F, P>(
    ctx0: ExecutionContext<F, P>,
    ctx1: ExecutionContext<F, P>,
    ctx2: ExecutionContext<F, P>,
    a: usize,
    oa: NodeOutput<P>,
    da: Seq<usize>,
    b: usize,
    ob: NodeOutput<P>,
    db: Seq<usize>,
    v: usize,
)
    requires
        ctx0.wf_view() == ctx1.wf_view(),
        node_finished(ctx0.wf_view(), ctx0.status(), ctx0.outputs(), ctx1.status(), ctx1.outputs(), a, oa, da),
        node_finished(ctx1.wf_view(), ctx1.status(), ctx1.outputs(), ctx2.status(), ctx2.outputs(), b, ob, db),
        da.contains(v),
    ensures
        !db.contains(v),
{
}

/// A node whose inputs have all finished is never left waiting: it has been
/// handed out or skipped. Every node that can run is handed out at once.
pub proof fn law_ready_nodes_never_wait<F, P>(ctx: ExecutionContext<F, P>, v: int)
    requires
        ctx.inv(),
        ctx.started(),
        0 <= v < ctx.wf_view().node_seq().len(),
        inputs_resolved(ctx.wf_view(), ctx.status(), v),
    ensures
        ctx.status()[v] != NodeStatus::Pending,
{
    let w = ctx.wf_view();
    let st = ctx.status();
    if st[v] == NodeStatus::Pending {
        assert forall|i: int| 0 <= i < w.in_edges()[v].len() implies !unresolved(w, st)(#[trigger] w.in_edges()[v][i]) by {
            assert(src_resolved(w, st, w.in_edges()[v][i]));
        }
        lemma_count_zero_contra(w.in_edges()[v], unresolved(w, st));
    }
}

/// A node without incoming edges is handed no inputs.
pub proof fn law_trigger_gets_empty_input<F, P>(
    w: Workflow<F>,
    outs: Seq<Option<NodeOutput<P>>>,
    v: int,
)
    requires
        0 <= v < w.in_edges().len(),
        w.in_edges()[v].len() == 0,
    ensures
        input_entries(w, outs, w.in_edges()[v]).len() == 0,
{
}

/// A node that has been handed out receives, by name, exactly its
/// predecessors that succeeded: each input is a predecessor that succeeded,
/// and each predecessor that succeeded is an input.
pub proof fn law_inputs_are_successful_predecessors<F, P>(ctx: ExecutionContext<F, P>, v: int)
    requires
        ctx.inv(),
        ctx.started(),
        0 <= v < ctx.wf_view().node_seq().len(),
        was_dispatched(ctx.status()[v]),
    ensures
        forall|i: int|
            0 <= i < input_entries(ctx.wf_view(), ctx.outputs(), ctx.wf_view().in_edges()[v]).len() ==> {
                let (name, u) = #[trigger] input_entries(ctx.wf_view(), ctx.outputs(), ctx.wf_view().in_edges()[v])[i];
                &&& u < ctx.wf_view().node_seq().len()
                &&& ctx.status()[u as int] == NodeStatus::Success
                &&& name == ctx.wf_view().node_seq()[u as int].name@
                &&& exists|k: int|
                    0 <= k < ctx.wf_view().in_edges()[v].len() && ctx.wf_view().src()[#[trigger] ctx.wf_view().in_edges()[v][k] as int] == Some(u)
            },
        forall|k: int|
            0 <= k < ctx.wf_view().in_edges()[v].len() ==> (ctx.wf_view().src()[#[trigger] ctx.wf_view().in_edges()[v][k] as int] matches Some(u)
                ==> (ctx.status()[u as int] == NodeStatus::Success ==> input_entries(
                ctx.wf_view(),
                ctx.outputs(),
                ctx.wf_view().in_edges()[v],
            ).contains((ctx.wf_view().node_seq()[u as int].name@, u)))),
{
    let w = ctx.wf_view();
    let st = ctx.status();
    let outs = ctx.outputs();
    let ins = w.in_edges()[v];
    lemma_in_edges(w, v);
    lemma_input_entries(w, outs, ins);
    let r = input_entries(w, outs, ins);
    assert forall|i: int| 0 <= i < r.len() implies #[trigger] st[r[i].1 as int] == NodeStatus::Success by {
        let u = r[i].1;
        let k = choose|k: int| 0 <= k < ins.len() && w.src()[#[trigger] ins[k] as int] == Some(u);
        if st[u as int] != NodeStatus::Success {
            assert(st[u as int] == NodeStatus::Failed);
            assert(has_failed_input(w, st, v));
        }
    }
}

/// `rank` orders the nodes so that every edge between two nodes of the
/// workflow goes from a lower rank to a higher one: the workflow has no cycle.
pub open spec fn ranked<F>(w: Workflow<F>, rank: Seq<nat>) -> bool {
    &&& rank.len() == w.node_seq().len()
    &&& forall|e: int|
        0 <= e < w.edge_seq().len() ==> match (#[trigger] w.src()[e], w.dst()[e]) {
            (Some(u), Some(v)) => rank[u as int] < rank[v as int],
            _ => true,
        }
}

/// Every edge leaves a node of the workflow.
pub open spec fn sources_known<F>(w: Workflow<F>) -> bool {
    forall|e: int| 0 <= e < w.edge_seq().len() ==> #[trigger] w.src()[e] is Some
}

proof fn lemma_no_pending_below<F, P>(ctx: ExecutionContext<F, P>, rank: Seq<nat>, r: nat)
    requires
        ctx.inv(),
        ctx.started(),
        ranked(ctx.wf_view(), rank),
        sources_known(ctx.wf_view()),
        forall|u: int|
            0 <= u < ctx.wf_view().node_seq().len() ==> #[trigger] ctx.status()[u] != NodeStatus::Running,
    ensures
        forall|v: int|
            0 <= v < ctx.wf_view().node_seq().len() && #[trigger] rank[v] < r ==> ctx.status()[v]
                != NodeStatus::Pending,
    decreases r,
{
    if r > 0 {
        lemma_no_pending_below(ctx, rank, (r - 1) as nat);
        let w = ctx.wf_view();
        assert forall|v: int| 0 <= v < w.node_seq().len() && #[trigger] rank[v] < r implies ctx.status()[v]
            != NodeStatus::Pending by {
            if ctx.status()[v] == NodeStatus::Pending {
                law_stopped_run_waits_only_on_pending(ctx, v);
                let k = choose|k: int|
                    0 <= k < w.in_edges()[v].len() && match w.src()[#[trigger] w.in_edges()[v][k] as int] {
                        Some(u) => ctx.status()[u as int] == NodeStatus::Pending,
                        None => true,
                    };
                lemma_in_edges(w, v);
                let e = w.in_edges()[v][k] as int;
                assert(w.src()[e] is Some);
                let u = w.src()[e]->0;
                assert(w.dst()[e] == Some(v as usize));
                assert(rank[u as int] < rank[v]);
            }
        }
    }
}

/// On a workflow without cycles whose edges all leave nodes of the
/// workflow, a run in which nothing is running any more has settled every
/// node: each one succeeded, failed or was skipped.
pub proof fn law_acyclic_run_settles_everything<F, P>(ctx: ExecutionContext<F, P>, rank: Seq<nat>)
    requires
        ctx.inv(),
        ctx.started(),
        ranked(ctx.wf_view(), rank),
        sources_known(ctx.wf_view()),
        forall|u: int|
            0 <= u < ctx.wf_view().node_seq().len() ==> #[trigger] ctx.status()[u] != NodeStatus::Running,
    ensures
        forall|v: int| 0 <= v < ctx.wf_view().node_seq().len() ==> is_resolved(#[trigger] ctx.status()[v]),
{
    let n = ctx.wf_view().node_seq().len();
    assert forall|v: int| 0 <= v < n implies is_resolved(#[trigger] ctx.status()[v]) by {
        lemma_no_pending_below(ctx, rank, rank[v] + 1);
        assert(ctx.status()[v] != NodeStatus::Running);
    }
}

/// A run step by step: `sts[i]` and `outs[i]` are the statuses and outputs
/// before step `i`, which finishes the running node `nodes[i]` with
/// `results[i]` and hands out `ds[i]`, as `complete_node` does.
pub open spec fn run_trace<F, P>(
    w: Workflow<F>,
    sts: Seq<Seq<NodeStatus>>,
    outs: Seq<Seq<Option<NodeOutput<P>>>>,
    nodes: Seq<usize>,
    results: Seq<NodeOutput<P>>,
    ds: Seq<Seq<usize>>,
) -> bool {
    &&& sts.len() == nodes.len() + 1
    &&& outs.len() == nodes.len() + 1
    &&& results.len() == nodes.len()
    &&& ds.len() == nodes.len()
    &&& forall|i: int| 0 <= i < sts.len() ==> (#[trigger] sts[i]).len() == w.node_seq().len()
    &&& forall|i: int|
        0 <= i < nodes.len() ==> #[trigger] nodes[i] < w.node_seq().len() && sts[i][nodes[i] as int]
            == NodeStatus::Running && node_finished(
            w,
            sts[i],
            outs[i],
            sts[i + 1],
            outs[i + 1],
            nodes[i],
            results[i],
            ds[i],
        )
}

/// A node that has settled stays settled for the rest of the run.
proof fn lemma_settled_stays<F, P>(
    w: Workflow<F>,
    sts: Seq<Seq<NodeStatus>>,
    outs: Seq<Seq<Option<NodeOutput<P>>>>,
    nodes: Seq<usize>,
    results: Seq<NodeOutput<P>>,
    ds: Seq<Seq<usize>>,
    v: int,
    i: int,
    j: int,
)
    requires
        run_trace(w, sts, outs, nodes, results, ds),
        0 <= v < w.node_seq().len(),
        0 <= i <= j < sts.len(),
        sts[i][v] != NodeStatus::Pending,
    ensures
        sts[j][v] != NodeStatus::Pending,
    decreases j - i,
{
    if i < j {
        lemma_settled_stays(w, sts, outs, nodes, results, ds, v, i, j - 1);
        let k = j - 1;
        assert(nodes[k] < w.node_seq().len());
        assert(sts[k][v] != NodeStatus::Pending);
    }
}

/// Over a whole run no node is handed out twice: a node handed out at one
/// step is never handed out at a later one, and a node already settled when
/// the steps begin (such as one that `begin_run` handed out) never is.
pub proof fn law_run_hands_out_each_node_once<F, P>(
    w: Workflow<F>,
    sts: Seq<Seq<NodeStatus>>,
    outs: Seq<Seq<Option<NodeOutput<P>>>>,
    nodes: Seq<usize>,
    results: Seq<NodeOutput<P>>,
    ds: Seq<Seq<usize>>,
    v: usize,
)
    requires
        run_trace(w, sts, outs, nodes, results, ds),
    ensures
        forall|i: int, j: int|
            0 <= i < j < ds.len() ==> !(#[trigger] ds[i].contains(v) && #[trigger] ds[j].contains(v)),
        forall|j: int|
            0 <= j < ds.len() && v < w.node_seq().len() && sts[0][v as int] != NodeStatus::Pending
                ==> !#[trigger] ds[j].contains(v),
{
    assert forall|i: int, j: int| 0 <= i < j < ds.len() implies !(#[trigger] ds[i].contains(v)
        && #[trigger] ds[j].contains(v)) by {
        assert(nodes[i] < w.node_seq().len());
        assert(nodes[j] < w.node_seq().len());
        if ds[i].contains(v) {
            assert(sts[i + 1][v as int] == NodeStatus::Running);
            lemma_settled_stays(w, sts, outs, nodes, results, ds, v as int, i + 1, j);
        }
    }
    assert forall|j: int|
        0 <= j < ds.len() && v < w.node_seq().len() && sts[0][v as int] != NodeStatus::Pending
            implies !#[trigger] ds[j].contains(v) by {
        assert(nodes[j] < w.node_seq().len());
        lemma_settled_stays(w, sts, outs, nodes, results, ds, v as int, 0, j);
    }
}

/// `c` is a cycle: a chain of at least two nodes that ends where it starts.
pub open spec fn is_cycle<F>(w: Workflow<F>, c: Seq<usize>) -> bool {
    &&& c.len() >= 2
    &&& is_path(w, c)
    &&& c[0] == c[c.len() - 1]
}

/// Every node on a cycle has a predecessor on the cycle: an incoming edge
/// from the node before it.
proof fn lemma_cycle_predecessor<F>(w: Workflow<F>, c: Seq<usize>, k: int) -> (r: (int, int))
    requires
        w.wf(),
        is_cycle(w, c),
        0 <= k < c.len(),
    ensures
        0 <= r.0 < c.len(),
        0 <= r.1 < w.in_edges()[c[k] as int].len(),
        w.src()[w.in_edges()[c[k] as int][r.1] as int] == Some(c[r.0]),
{
    let j = if k == 0 { c.len() - 1 } else { k };
    let i = j - 1;
    assert(has_edge(w, c[i], c[i + 1]));
    assert(c[j] == c[k]);
    let t = lemma_edge_is_incoming(w, c[i], c[j]);
    (i, t)
}

/// In the order in which a step settled nodes, none lies on a cycle whose
/// nodes were all pending before the step.
proof fn lemma_order_avoids_cycle<F>(
    w: Workflow<F>,
    st0: Seq<NodeStatus>,
    st1: Seq<NodeStatus>,
    node: usize,
    order: Seq<usize>,
    c: Seq<usize>,
    m: int,
)
    requires
        w.wf(),
        is_cycle(w, c),
        forall|k: int| 0 <= k < c.len() ==> #[trigger] st0[c[k] as int] == NodeStatus::Pending,
        st0[node as int] == NodeStatus::Running,
        settled_in_order(w, st0, st1, node, order),
        0 <= m < order.len(),
    ensures
        forall|a: int, k: int| 0 <= a <= m && 0 <= k < c.len() ==> #[trigger] order[a] != #[trigger] c[k],
    decreases m,
{
    if m > 0 {
        lemma_order_avoids_cycle(w, st0, st1, node, order, c, m - 1);
    }
    assert forall|k: int| 0 <= k < c.len() implies order[m] != #[trigger] c[k] by {
        if order[m] == c[k] {
            let (p, t) = lemma_cycle_predecessor(w, c, k);
            let e = w.in_edges()[order[m] as int][t];
            assert(w.src()[e as int] == Some(c[p]));
            assert(st0[c[p] as int] == NodeStatus::Pending);
            if order.take(m).contains(c[p]) {
                let a = choose|a: int| 0 <= a < order.take(m).len() && order.take(m)[a] == c[p];
                assert(order[a] == c[p]);
            }
        }
    }
}

/// Nodes on a cycle never run: from the start of a run (as `begin_run`
/// leaves it) through any number of steps, every node on a cycle stays
/// pending.
pub proof fn law_cycle_never_runs<F, P>(
    w: Workflow<F>,
    sts: Seq<Seq<NodeStatus>>,
    outs: Seq<Seq<Option<NodeOutput<P>>>>,
    nodes: Seq<usize>,
    results: Seq<NodeOutput<P>>,
    ds: Seq<Seq<usize>>,
    c: Seq<usize>,
)
    requires
        w.wf(),
        run_trace(w, sts, outs, nodes, results, ds),
        forall|v: int|
            0 <= v < w.node_seq().len() ==> #[trigger] sts[0][v] == if w.in_edges()[v].len() == 0 {
                NodeStatus::Running
            } else {
                NodeStatus::Pending
            },
        is_cycle(w, c),
    ensures
        forall|i: int, k: int|
            0 <= i < sts.len() && 0 <= k < c.len() ==> #[trigger] sts[i][c[k] as int] == NodeStatus::Pending,
{
    assert forall|i: int, k: int| 0 <= i < sts.len() && 0 <= k < c.len() implies #[trigger] sts[i][c[k] as int]
        == NodeStatus::Pending by {
        lemma_cycle_pending_at(w, sts, outs, nodes, results, ds, c, i);
    }
}

proof fn lemma_cycle_pending_at<F, P>(
    w: Workflow<F>,
    sts: Seq<Seq<NodeStatus>>,
    outs: Seq<Seq<Option<NodeOutput<P>>>>,
    nodes: Seq<usize>,
    results: Seq<NodeOutput<P>>,
    ds: Seq<Seq<usize>>,
    c: Seq<usize>,
    i: int,
)
    requires
        w.wf(),
        run_trace(w, sts, outs, nodes, results, ds),
        forall|v: int|
            0 <= v < w.node_seq().len() ==> #[trigger] sts[0][v] == if w.in_edges()[v].len() == 0 {
                NodeStatus::Running
            } else {
                NodeStatus::Pending
            },
        is_cycle(w, c),
        0 <= i < sts.len(),
    ensures
        forall|k: int| 0 <= k < c.len() ==> #[trigger] sts[i][c[k] as int] == NodeStatus::Pending,
    decreases i,
{
    if i == 0 {
        assert forall|k: int| 0 <= k < c.len() implies #[trigger] sts[0][c[k] as int] == NodeStatus::Pending by {
            let (p, t) = lemma_cycle_predecessor(w, c, k);
            assert(c[k] < w.node_seq().len());
        }
    } else {
        let s = i - 1;
        lemma_cycle_pending_at(w, sts, outs, nodes, results, ds, c, s);
        assert(nodes[s] < w.node_seq().len());
        let node = nodes[s];
        let st0 = sts[s];
        let st1 = sts[s + 1];
        assert(node_finished(w, st0, outs[s], st1, outs[s + 1], node, results[s], ds[s]));
        let order = choose|order: Seq<usize>| settled_in_order(w, st0, st1, node, order);
        assert forall|k: int| 0 <= k < c.len() implies #[trigger] st1[c[k] as int] == NodeStatus::Pending by {
            assert(st0[c[k] as int] == NodeStatus::Pending);
            if st1[c[k] as int] != NodeStatus::Pending {
                assert(c[k] < w.node_seq().len());
                assert(c[k] != node);
                assert(st0[c[k] as int] != st1[c[k] as int]);
                assert(order.contains(c[k]));
                let a = choose|a: int| 0 <= a < order.len() && order[a] == c[k];
                lemma_order_avoids_cycle(w, st0, st1, node, order, c, a);
            }
        }
    }
}

/// On a workflow without cycles whose edges all leave nodes of the
/// workflow and carry no label, a run in which nothing is running any more
/// and no node failed has run every node, and every node succeeded.
pub proof fn law_unlabelled_acyclic_run_succeeds<F, P>(ctx: ExecutionContext<F, P>, rank: Seq<nat>)
    requires
        ctx.inv(),
        ctx.started(),
        ranked(ctx.wf_view(), rank),
        sources_known(ctx.wf_view()),
        forall|e: int| 0 <= e < ctx.wf_view().edge_seq().len() ==> (#[trigger] ctx.wf_view().edge_seq()[e]).label is None,
        forall|u: int|
            0 <= u < ctx.wf_view().node_seq().len() ==> #[trigger] ctx.status()[u] != NodeStatus::Running
                && ctx.status()[u] != NodeStatus::Failed,
    ensures
        forall|v: int| 0 <= v < ctx.wf_view().node_seq().len() ==> #[trigger] ctx.status()[v] == NodeStatus::Success,
{
    law_acyclic_run_settles_everything(ctx, rank);
    let n = ctx.wf_view().node_seq().len();
    assert forall|v: int| 0 <= v < n implies #[trigger] ctx.status()[v] == NodeStatus::Success by {
        lemma_success_below(ctx, rank, rank[v] + 1);
    }
}

proof fn lemma_success_below<F, P>(ctx: ExecutionContext<F, P>, rank: Seq<nat>, r: nat)
    requires
        ctx.inv(),
        ctx.started(),
        ranked(ctx.wf_view(), rank),
        sources_known(ctx.wf_view()),
        forall|e: int| 0 <= e < ctx.wf_view().edge_seq().len() ==> (#[trigger] ctx.wf_view().edge_seq()[e]).label is None,
        forall|u: int|
            0 <= u < ctx.wf_view().node_seq().len() ==> is_resolved(#[trigger] ctx.status()[u])
                && ctx.status()[u] != NodeStatus::Failed,
    ensures
        forall|v: int|
            0 <= v < ctx.wf_view().node_seq().len() && #[trigger] rank[v] < r ==> ctx.status()[v]
                == NodeStatus::Success,
    decreases r,
{
    if r > 0 {
        lemma_success_below(ctx, rank, (r - 1) as nat);
        let w = ctx.wf_view();
        let st = ctx.status();
        let outs = ctx.outputs();
        assert forall|v: int| 0 <= v < w.node_seq().len() && #[trigger] rank[v] < r implies st[v]
            == NodeStatus::Success by {
            lemma_in_edges(w, v);
            let ins = w.in_edges()[v];
            assert forall|k: int| 0 <= k < ins.len() implies !edge_failed(w, st, #[trigger] ins[k])
                && edge_active(w, st, outs, ins[k]) by {
                let e = ins[k] as int;
                assert(w.src()[e] is Some);
                let u = w.src()[e]->0;
                assert(rank[u as int] < rank[v]);
                assert(st[u as int] == NodeStatus::Success);
                assert(w.edge_seq()[e].label is None);
            }
            if has_failed_input(w, st, v) {
                let k = choose|k: int| 0 <= k < ins.len() && edge_failed(w, st, #[trigger] ins[k]);
            }
            if ins.len() > 0 {
                assert(edge_active(w, st, outs, ins[0]));
                assert(has_active_input(w, st, outs, v));
            }
        }
    }
}

/// Edge `e` is followed after its source finished with output `o`, said
/// directly: it carries no label, or `o` names no route, or the label is one
/// of the route's entries, at whatever position.
pub open spec fn route_names_label<P>(o: NodeOutput<P>, label: Option<String>) -> bool {
    match (label, o.route) {
        (Some(l), Some(rt)) => exists|i: int| 0 <= i < rt@.len() && #[trigger] rt@[i]@ == l@,
        _ => true,
    }
}

proof fn lemma_route_names_label_selects<P>(o: NodeOutput<P>, label: Option<String>)
    ensures
        route_names_label(o, label) == selects(o.route_view(), label_view(label)),
{
    if let (Some(l), Some(rt)) = (label, o.route) {
        let labels = string_views(rt@);
        if route_names_label(o, label) {
            let i = choose|i: int| 0 <= i < rt@.len() && #[trigger] rt@[i]@ == l@;
            assert(labels[i] == l@);
        }
        if labels.contains(l@) {
            let i = choose|i: int| 0 <= i < labels.len() && labels[i] == l@;
            assert(rt@[i]@ == l@);
        }
    }
}

/// Routing by label, for every route and every position in it: a node whose
/// inputs have all finished, none of them failed or blocked, is handed out
/// when one of its incoming edges comes from a node that succeeded and
/// either carries no label, or its source named no route, or its label is
/// the entry at position `i` of the source's route (any position, not only
/// the first).
pub proof fn law_named_label_runs_target<F, P>(ctx: ExecutionContext<F, P>, v: int, k: int, i: int)
    requires
        ctx.inv(),
        ctx.started(),
        0 <= v < ctx.wf_view().node_seq().len(),
        0 <= k < ctx.wf_view().in_edges()[v].len(),
        inputs_resolved(ctx.wf_view(), ctx.status(), v),
        !has_failed_input(ctx.wf_view(), ctx.status(), v),
        match ctx.wf_view().src()[ctx.wf_view().in_edges()[v][k] as int] {
            Some(u) => ctx.status()[u as int] == NodeStatus::Success && match ctx.outputs()[u as int] {
                Some(o) => match (ctx.wf_view().edge_seq()[ctx.wf_view().in_edges()[v][k] as int].label, o.route) {
                    (Some(l), Some(rt)) => 0 <= i < rt@.len() && rt@[i]@ == l@,
                    _ => true,
                },
                None => false,
            },
            None => false,
        },
    ensures
        was_dispatched(ctx.status()[v]),
{
    let w = ctx.wf_view();
    let e = w.in_edges()[v][k];
    let u = w.src()[e as int]->0;
    let o = ctx.outputs()[u as int]->0;
    let label = w.edge_seq()[e as int].label;
    if let (Some(l), Some(rt)) = (label, o.route) {
        assert(rt@[i]@ == l@);
    }
    lemma_route_names_label_selects(o, label);
    assert(edge_active(w, ctx.status(), ctx.outputs(), e));
    law_selected_edge_runs_target(ctx, v, k);
}

/// The other way round: a node with incoming edges is handed out only when
/// one of them comes from a node that succeeded and carries no label, or
/// its source named no route, or its label is among the source's route.
pub proof fn law_run_needs_named_label<F, P>(ctx: ExecutionContext<F, P>, v: int)
    requires
        ctx.inv(),
        ctx.started(),
        0 <= v < ctx.wf_view().node_seq().len(),
        ctx.wf_view().in_edges()[v].len() > 0,
        was_dispatched(ctx.status()[v]),
    ensures
        exists|k: int|
            0 <= k < ctx.wf_view().in_edges()[v].len() && match ctx.wf_view().src()[#[trigger] ctx.wf_view().in_edges()[v][k] as int] {
                Some(u) => ctx.status()[u as int] == NodeStatus::Success && match ctx.outputs()[u as int] {
                    Some(o) => route_names_label(o, ctx.wf_view().edge_seq()[ctx.wf_view().in_edges()[v][k] as int].label),
                    None => false,
                },
                None => false,
            },
{
    let w = ctx.wf_view();
    law_runs_only_when_selected(ctx, v);
    let k = choose|k: int|
        0 <= k < w.in_edges()[v].len() && edge_active(w, ctx.status(), ctx.outputs(), #[trigger] w.in_edges()[v][k]);
    let e = w.in_edges()[v][k];
    let u = w.src()[e as int]->0;
    let o = ctx.outputs()[u as int]->0;
    lemma_route_names_label_selects(o, w.edge_seq()[e as int].label);
}

} // verus!
