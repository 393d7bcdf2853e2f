//! Running a workflow: which nodes are handed out to run, in what order,
//! with what inputs, and what becomes of the nodes that cannot run.
//!
//! A run goes in steps. `begin_run` hands out every node without incoming
//! edges. Each time a handed-out node finishes, `complete_node` records its
//! output and hands out the nodes that became ready; the running itself
//! (native functions, Python scripts) happens outside. A node is ready when
//! every edge into it comes from a node that has finished, been blocked or
//! been skipped.
//! A ready node is blocked instead of run when one of its inputs failed or
//! was blocked, so a failure stops everything downstream of it. Otherwise it
//! is skipped when none of its incoming edges is active: an edge is active
//! when its source succeeded and its label (if any) is in the source's route
//! (if any). Blocking or skipping a node settles its outgoing edges, so both
//! propagate.

use std::sync::Arc;
use vstd::prelude::*;
use crate::execution::counting::{
    count_where, ends_at, lemma_count_all, lemma_count_ext, lemma_count_le,
    lemma_count_split, lemma_count_take, lemma_count_take_le, lemma_count_zero, lemma_edges_at_members,
    lemma_edges_at_swap, lemma_to_set_drop_last, lemma_to_set_empty, lemma_to_set_push,
};
use crate::execution::node_output::{route_labels, string_views, NodeOutput};
use crate::execution::node_status::NodeStatus;
use crate::uid::{is_simple_v4_uuid, new_id};
use crate::workflow::workflow::{locates, Workflow};

verus! {

/// The node has finished, one way or the other.
pub open spec fn is_resolved(s: NodeStatus) -> bool {
    s == NodeStatus::Success || s == NodeStatus::Failed || s == NodeStatus::Skipped || s
        == NodeStatus::Blocked
}

/// The node has been handed out to run.
pub open spec fn was_dispatched(s: NodeStatus) -> bool {
    s == NodeStatus::Running || s == NodeStatus::Success || s == NodeStatus::Failed
}

/// Edge `e` comes from a node that has finished.
pub open spec fn src_resolved<F>(w: Workflow<F>, st: Seq<NodeStatus>, e: usize) -> bool {
    w.src()[e as int] matches Some(u) && is_resolved(st[u as int])
}

/// The edges that come from a node that has not finished, or from no node.
pub open spec fn unresolved<F>(w: Workflow<F>, st: Seq<NodeStatus>) -> spec_fn(usize) -> bool {
    |e: usize| !src_resolved(w, st, e)
}

/// How many edges into node `v` still wait for their source.
pub open spec fn unresolved_inputs<F>(w: Workflow<F>, st: Seq<NodeStatus>, v: int) -> nat {
    count_where(w.in_edges()[v], unresolved(w, st))
}

/// Every edge into node `v` comes from a node that has finished.
pub open spec fn inputs_resolved<F>(w: Workflow<F>, st: Seq<NodeStatus>, v: int) -> bool {
    forall|k: int|
        0 <= k < w.in_edges()[v].len() ==> src_resolved(w, st, #[trigger] w.in_edges()[v][k])
}

/// The text of a label.
pub open spec fn label_view(l: Option<String>) -> Option<Seq<char>> {
    match l {
        Some(s) => Some(s@),
        None => None,
    }
}

/// An edge with this label is followed after a node with this route: an
/// unlabelled edge always, a labelled one when the node names no route or
/// names the label in it.
pub open spec fn selects(route: Option<Seq<Seq<char>>>, label: Option<Seq<char>>) -> bool {
    match label {
        None => true,
        Some(l) => match route {
            None => true,
            Some(r) => r.contains(l),
        },
    }
}

/// Edge `e` comes from a node that succeeded and whose route selects it.
pub open spec fn edge_active<F, P>(
    w: Workflow<F>,
    st: Seq<NodeStatus>,
    outs: Seq<Option<NodeOutput<P>>>,
    e: usize,
) -> bool {
    &&& w.src()[e as int] matches Some(u)
    &&& st[u as int] == NodeStatus::Success
    &&& outs[u as int] matches Some(o)
    &&& selects(o.route_view(), label_view(w.edge_seq()[e as int].label))
}

/// Edge `e` comes from a node that failed or was blocked.
pub open spec fn edge_failed<F>(w: Workflow<F>, st: Seq<NodeStatus>, e: usize) -> bool {
    w.src()[e as int] matches Some(u) && (st[u as int] == NodeStatus::Failed || st[u as int]
        == NodeStatus::Blocked)
}

pub open spec fn has_failed_input<F>(w: Workflow<F>, st: Seq<NodeStatus>, v: int) -> bool {
    exists|k: int| 0 <= k < w.in_edges()[v].len() && edge_failed(w, st, #[trigger] w.in_edges()[v][k])
}

pub open spec fn has_active_input<F, P>(
    w: Workflow<F>,
    st: Seq<NodeStatus>,
    outs: Seq<Option<NodeOutput<P>>>,
    v: int,
) -> bool {
    exists|k: int|
        0 <= k < w.in_edges()[v].len() && edge_active(w, st, outs, #[trigger] w.in_edges()[v][k])
}

/// A node with incoming edges, none of which comes from a failed or blocked
/// node, is skipped when none of them is active.
pub open spec fn skip_due<F, P>(
    w: Workflow<F>,
    st: Seq<NodeStatus>,
    outs: Seq<Option<NodeOutput<P>>>,
    v: int,
) -> bool {
    w.in_edges()[v].len() > 0 && !has_failed_input(w, st, v) && !has_active_input(w, st, outs, v)
}

/// What becomes of a node once all its inputs have finished: blocked when
/// one of them failed or was blocked, else skipped when it is due to be, else
/// handed out to run.
pub open spec fn decision<F, P>(
    w: Workflow<F>,
    st: Seq<NodeStatus>,
    outs: Seq<Option<NodeOutput<P>>>,
    v: int,
) -> NodeStatus {
    if has_failed_input(w, st, v) {
        NodeStatus::Blocked
    } else if skip_due(w, st, outs, v) {
        NodeStatus::Skipped
    } else {
        NodeStatus::Running
    }
}

/// Statuses and outputs agree: a node that is not pending has all its inputs
/// finished; a node has an output exactly when it succeeded (with a payload)
/// or failed (with an error); a blocked node has an input that failed or was
/// blocked; a skipped node was due to be skipped; a handed-out node was
/// neither.
pub open spec fn statuses_agree<F, P>(
    w: Workflow<F>,
    st: Seq<NodeStatus>,
    outs: Seq<Option<NodeOutput<P>>>,
) -> bool {
    let n = w.node_seq().len();
    &&& st.len() == n
    &&& outs.len() == n
    &&& forall|v: int| 0 <= v < n && #[trigger] st[v] != NodeStatus::Pending ==> inputs_resolved(w, st, v)
    &&& forall|v: int|
        0 <= v < n ==> ((#[trigger] st[v] == NodeStatus::Success) == (outs[v] matches Some(o)
            && o.payload is Ok))
    &&& forall|v: int|
        0 <= v < n ==> ((#[trigger] st[v] == NodeStatus::Failed) == (outs[v] matches Some(o)
            && o.payload is Err))
    &&& forall|v: int| 0 <= v < n && #[trigger] st[v] == NodeStatus::Skipped ==> skip_due(w, st, outs, v)
    &&& forall|v: int| 0 <= v < n && #[trigger] st[v] == NodeStatus::Blocked ==> has_failed_input(w, st, v)
    &&& forall|v: int|
        0 <= v < n && was_dispatched(#[trigger] st[v]) ==> !skip_due(w, st, outs, v)
            && !has_failed_input(w, st, v)
}

/// The state of a run: statuses agree with outputs, each node's count is the
/// number of its incoming edges still waiting, and exactly the nodes with a
/// positive count are pending.
pub open spec fn consistent<F, P>(
    w: Workflow<F>,
    st: Seq<NodeStatus>,
    outs: Seq<Option<NodeOutput<P>>>,
    indeg: Seq<usize>,
) -> bool {
    let n = w.node_seq().len();
    &&& statuses_agree(w, st, outs)
    &&& indeg.len() == n
    &&& forall|v: int| 0 <= v < n ==> #[trigger] indeg[v] == unresolved_inputs(w, st, v)
    &&& forall|v: int| 0 <= v < n ==> (#[trigger] st[v] == NodeStatus::Pending) == (indeg[v] > 0)
}

/// The nodes that a call newly settled (blocked, skipped or handed out), listed in an
/// order in which each one's inputs had all finished by the time it came:
/// they had finished before the call, or are the node that finished, or were
/// settled earlier in the list.
pub open spec fn settled_in_order<F>(
    w: Workflow<F>,
    before: Seq<NodeStatus>,
    after: Seq<NodeStatus>,
    node: usize,
    order: Seq<usize>,
) -> bool {
    &&& order.no_duplicates()
    &&& forall|k: int| 0 <= k < order.len() ==> #[trigger] order[k] < w.node_seq().len()
    &&& forall|v: int|
        0 <= v < w.node_seq().len() ==> ((v != node && #[trigger] before[v] != after[v]) <==> order.contains(
            v as usize,
        ))
    &&& forall|k: int, t: int|
        0 <= k < order.len() && 0 <= t < w.in_edges()[order[k] as int].len() ==> (w.src()[#[trigger] w.in_edges()[#[trigger] order[k] as int][t] as int] matches Some(s)
            && (is_resolved(before[s as int]) || s == node || order.take(k).contains(s)))
}

/// One input of a node: the name of a predecessor with an output, and its position.
pub struct InputEntry {
    pub name: String,
    pub source: usize,
}

/// The inputs handed to a node through the edges `es`, in order: one per edge
/// whose source has an output.
pub open spec fn input_entries<F, P>(
    w: Workflow<F>,
    outs: Seq<Option<NodeOutput<P>>>,
    es: Seq<usize>,
) -> Seq<(Seq<char>, usize)>
    decreases es.len(),
{
    if es.len() == 0 {
        Seq::empty()
    } else {
        input_entries(w, outs, es.drop_last()) + match w.src()[es.last() as int] {
            Some(u) => if outs[u as int] is Some {
                seq![(w.node_seq()[u as int].name@, u)]
            } else {
                Seq::empty()
            },
            None => Seq::empty(),
        }
    }
}

/// One run of a workflow. `F` is the type of native functions, `P` that of
/// payloads.
pub struct ExecutionContext<F, P> {
    id: String,
    workflow_id: String,
    workflow: Arc<Workflow<F>>,
    node_outputs: Vec<Option<NodeOutput<P>>>,
    node_status: Vec<NodeStatus>,
    indegree: Vec<usize>,
    started: bool,
}

impl<F, P> ExecutionContext<F, P> {
    pub closed spec fn id_view(&self) -> Seq<char> {
        self.id@
    }

    pub closed spec fn workflow_id_view(&self) -> Seq<char> {
        self.workflow_id@
    }

    /// The workflow being run.
    pub closed spec fn wf_view(&self) -> Workflow<F> {
        *self.workflow
    }

    /// The status of each node, by position; empty before the run begins.
    pub closed spec fn status(&self) -> Seq<NodeStatus> {
        self.node_status@
    }

    /// The output of each node, by position; empty before the run begins.
    pub closed spec fn outputs(&self) -> Seq<Option<NodeOutput<P>>> {
        self.node_outputs@
    }

    /// For each node, how many of its incoming edges still wait.
    pub closed spec fn indegrees(&self) -> Seq<usize> {
        self.indegree@
    }

    pub closed spec fn started(&self) -> bool {
        self.started
    }

    /// Before the run nothing is recorded; once it has begun, the state is consistent.
    pub open spec fn inv(&self) -> bool {
        &&& self.wf_view().wf()
        &&& self.wf_view().targets_known()
        &&& if self.started() {
            consistent(self.wf_view(), self.status(), self.outputs(), self.indegrees())
        } else {
            self.status().len() == 0 && self.outputs().len() == 0 && self.indegrees().len() == 0
        }
    }
}

/// The number of incoming edges of each node.
fn make_indegree_vec<F>(w: &Workflow<F>) -> (r: Vec<usize>)
    requires
        w.wf(),
    ensures
        r@.len() == w.node_seq().len(),
        forall|v: int| 0 <= v < r@.len() ==> #[trigger] r@[v] == w.in_edges()[v].len(),
{
    let mut r: Vec<usize> = Vec::new();
    let n = w.node_count();
    let mut v: usize = 0;
    while v < n
        invariant
            w.wf(),
            n == w.node_seq().len(),
            v <= n,
            r@.len() == v,
            forall|k: int| 0 <= k < v ==> #[trigger] r@[k] == w.in_edges()[k].len(),
        decreases n - v,
    {
        r.push(w.incoming(v).len());
        v += 1;
    }
    r
}

/// Every node pending.
fn init_node_status(n: usize) -> (r: Vec<NodeStatus>)
    ensures
        r@.len() == n,
        forall|v: int| 0 <= v < n ==> #[trigger] r@[v] == NodeStatus::Pending,
{
    let mut r: Vec<NodeStatus> = Vec::new();
    let mut v: usize = 0;
    while v < n
        invariant
            v <= n,
            r@.len() == v,
            forall|k: int| 0 <= k < v ==> #[trigger] r@[k] == NodeStatus::Pending,
        decreases n - v,
    {
        r.push(NodeStatus::Pending);
        v += 1;
    }
    r
}

/// No outputs yet.
fn init_node_outputs<P>(n: usize) -> (r: Vec<Option<NodeOutput<P>>>)
    ensures
        r@.len() == n,
        forall|v: int| 0 <= v < n ==> #[trigger] r@[v] is None,
{
    let mut r: Vec<Option<NodeOutput<P>>> = Vec::new();
    let mut v: usize = 0;
    while v < n
        invariant
            v <= n,
            r@.len() == v,
            forall|k: int| 0 <= k < v ==> #[trigger] r@[k] is None,
        decreases n - v,
    {
        r.push(None);
        v += 1;
    }
    r
}

/// Whether an edge with this label is followed after a node with this route.
fn route_selects(route: &Option<Vec<String>>, label: &Option<String>) -> (b: bool)
    ensures
        b == selects(route_labels(*route), label_view(*label)),
{
    match label {
        None => true,
        Some(l) => match route {
            None => true,
            Some(r) => {
                let mut i: usize = 0;
                while i < r.len()
                    invariant
                        i <= r@.len(),
                        route_labels(*route) == Some(string_views(r@)),
                        label_view(*label) == Some(l@),
                        forall|j: int| 0 <= j < i ==> #[trigger] r@[j]@ != l@,
                    decreases r@.len() - i,
                {
                    if r[i] == *l {
                        proof {
                            assert(string_views(r@)[i as int] == l@);
                            assert(string_views(r@).contains(l@));
                        }
                        return true;
                    }
                    i += 1;
                }
                proof {
                    let labels = string_views(r@);
                    if labels.contains(l@) {
                        let j = choose|j: int| 0 <= j < labels.len() && #[trigger] labels[j] == l@;
                        assert(r@[j]@ == l@);
                    }
                }
                false
            },
        },
    }
}

/// What becomes of node `v`, all of whose inputs have finished.
fn decide<F, P>(
    w: &Workflow<F>,
    st: &Vec<NodeStatus>,
    outs: &Vec<Option<NodeOutput<P>>>,
    v: usize,
) -> (b: NodeStatus)
    requires
        w.wf(),
        st@.len() == w.node_seq().len(),
        outs@.len() == w.node_seq().len(),
        v < w.node_seq().len(),
    ensures
        b == decision(*w, st@, outs@, v as int),
{
    let ins = w.incoming(v);
    proof {
        lemma_edges_at_members(w.dst(), v, w.edge_seq().len() as int);
    }
    let mut failed = false;
    let mut active = false;
    let mut k: usize = 0;
    while k < ins.len()
        invariant
            w.wf(),
            st@.len() == w.node_seq().len(),
            outs@.len() == w.node_seq().len(),
            v < w.node_seq().len(),
            ins@ == w.in_edges()[v as int],
            k <= ins@.len(),
            forall|t: int| 0 <= t < ins@.len() ==> #[trigger] ins@[t] < w.edge_seq().len(),
            failed == exists|t: int| 0 <= t < k && edge_failed(*w, st@, #[trigger] ins@[t]),
            active == exists|t: int| 0 <= t < k && edge_active(*w, st@, outs@, #[trigger] ins@[t]),
        decreases ins@.len() - k,
    {
        let e = ins[k];
        match w.edge_source(e) {
            Some(u) => {
                if st[u] == NodeStatus::Failed || st[u] == NodeStatus::Blocked {
                    failed = true;
                } else if st[u] == NodeStatus::Success {
                    match &outs[u] {
                        Some(o) => {
                            if route_selects(&o.route, &w.edge(e).label) {
                                active = true;
                            }
                        },
                        None => {},
                    }
                }
            },
            None => {},
        }
        proof {
            assert forall|t: int| 0 <= t < k + 1 && edge_failed(*w, st@, #[trigger] ins@[t]) implies (t < k || failed) by {}
            assert forall|t: int| 0 <= t < k + 1 && edge_active(*w, st@, outs@, #[trigger] ins@[t]) implies (t < k || active) by {}
        }
        k += 1;
    }
    if failed {
        NodeStatus::Blocked
    } else if ins.len() > 0 && !active {
        NodeStatus::Skipped
    } else {
        NodeStatus::Running
    }
}

/// `d` lists, in increasing order, the nodes without incoming edges.
pub open spec fn roots_in_order<F>(w: Workflow<F>, d: Seq<usize>) -> bool {
    &&& forall|i: int, j: int| 0 <= i < j < d.len() ==> d[i] < d[j]
    &&& forall|i: int| 0 <= i < d.len() ==> #[trigger] d[i] < w.node_seq().len()
    &&& forall|v: int|
        0 <= v < w.node_seq().len() ==> (d.contains(v as usize) <==> #[trigger] w.in_edges()[v].len()
            == 0)
}

/// The (name, position) of each input entry.
pub open spec fn entry_views(s: Seq<InputEntry>) -> Seq<(Seq<char>, usize)> {
    s.map_values(|x: InputEntry| (x.name@, x.source))
}

impl<F, P> ExecutionContext<F, P> {
    /// A run of `workflow` that has not begun, with a fresh id.
    pub fn new(workflow: Arc<Workflow<F>>) -> (ctx: Self)
        requires
            (*workflow).targets_known(),
        ensures
            ctx.inv(),
            !ctx.started(),
            ctx.wf_view() == *workflow,
            is_simple_v4_uuid(ctx.id_view()),
            ctx.workflow_id_view() == (*workflow).id_view(),
    {
        proof {
            use_type_invariant(&*workflow);
        }
        let workflow_id = workflow.id().clone();
        ExecutionContext {
            id: new_id(),
            workflow_id,
            workflow,
            node_outputs: Vec::new(),
            node_status: Vec::new(),
            indegree: Vec::new(),
            started: false,
        }
    }

    /// Begins the run: every node becomes pending, except those without
    /// incoming edges, which are handed out (returned in increasing order).
    /// A run that has begun is left as it is.
    pub fn begin_run(&mut self) -> (dispatched: Vec<usize>)
        requires
            old(self).inv(),
        ensures
            final(self).inv(),
            final(self).started(),
            final(self).wf_view() == old(self).wf_view(),
            final(self).id_view() == old(self).id_view(),
            final(self).workflow_id_view() == old(self).workflow_id_view(),
            old(self).started() ==> {
                &&& final(self).status() == old(self).status()
                &&& final(self).outputs() == old(self).outputs()
                &&& final(self).indegrees() == old(self).indegrees()
                &&& dispatched@.len() == 0
            },
            !old(self).started() ==> {
                &&& forall|v: int|
                    0 <= v < final(self).wf_view().node_seq().len() ==> #[trigger] final(self).status()[v] == if final(self).wf_view().in_edges()[v].len()
                        == 0 {
                        NodeStatus::Running
                    } else {
                        NodeStatus::Pending
                    }
                &&& forall|v: int| 0 <= v < final(self).wf_view().node_seq().len() ==> #[trigger] final(self).outputs()[v] is None
                &&& roots_in_order(final(self).wf_view(), dispatched@)
            },
    {
        if self.started {
            return Vec::new();
        }
        let w: &Workflow<F> = &self.workflow;
        let n = w.node_count();
        let indeg = make_indegree_vec(w);
        let mut st = init_node_status(n);
        let outs: Vec<Option<NodeOutput<P>>> = init_node_outputs(n);
        let mut dispatched: Vec<usize> = Vec::new();
        let mut v: usize = 0;
        while v < n
            invariant
                w.wf(),
                n == w.node_seq().len(),
                v <= n,
                indeg@.len() == n,
                forall|k: int| 0 <= k < n ==> #[trigger] indeg@[k] == w.in_edges()[k].len(),
                st@.len() == n,
                forall|k: int|
                    0 <= k < v ==> #[trigger] st@[k] == if w.in_edges()[k].len() == 0 {
                        NodeStatus::Running
                    } else {
                        NodeStatus::Pending
                    },
                forall|k: int| v <= k < n ==> #[trigger] st@[k] == NodeStatus::Pending,
                forall|i: int, j: int| 0 <= i < j < dispatched@.len() ==> dispatched@[i] < dispatched@[j],
                forall|i: int| 0 <= i < dispatched@.len() ==> #[trigger] dispatched@[i] < v,
                forall|k: int|
                    0 <= k < v ==> (dispatched@.contains(k as usize) <==> #[trigger] w.in_edges()[k].len()
                        == 0),
            decreases n - v,
        {
            let ghost before = dispatched@;
            if indeg[v] == 0 {
                st.set(v, NodeStatus::Running);
                dispatched.push(v);
            }
            proof {
                assert forall|k: int| 0 <= k < v + 1 implies (dispatched@.contains(k as usize) <==> #[trigger] w.in_edges()[k].len() == 0) by {
                    if dispatched@.contains(k as usize) {
                        let i = choose|i: int| 0 <= i < dispatched@.len() && dispatched@[i] == k;
                        if i < before.len() {
                            assert(before[i] == k);
                            assert(before.contains(k as usize));
                        }
                    }
                    if k < v && before.contains(k as usize) {
                        let i = choose|i: int| 0 <= i < before.len() && before[i] == k;
                        assert(dispatched@[i] == k);
                    }
                    if k == v && w.in_edges()[k].len() == 0 {
                        assert(dispatched@[dispatched@.len() - 1] == v);
                    }
                }
            }
            v += 1;
        }
        proof {
            let ghost wv = *w;
            assert forall|k: int| 0 <= k < n implies #[trigger] indeg@[k] == unresolved_inputs(wv, st@, k) by {
                let ins = wv.in_edges()[k];
                assert forall|i: int| 0 <= i < ins.len() implies #[trigger] unresolved(wv, st@)(ins[i]) by {
                    match wv.src()[ins[i] as int] {
                        Some(u) => {
                            lemma_edges_at_members(wv.dst(), k as usize, wv.edge_seq().len() as int);
                            assert(st@[u as int] == NodeStatus::Pending || st@[u as int] == NodeStatus::Running);
                        },
                        None => {},
                    }
                }
                lemma_count_all(ins, unresolved(wv, st@));
            }
            assert(statuses_agree(wv, st@, outs@));
        }
        self.indegree = indeg;
        self.node_status = st;
        self.node_outputs = outs;
        self.started = true;
        dispatched
    }

    /// The inputs of node `v`, in the order of its incoming edges: for each
    /// edge whose source has an output, that source's name and position.
    /// Empty before the run begins or for a position past the last node.
    pub fn make_input_context(&self, v: usize) -> (r: Vec<InputEntry>)
        requires
            self.inv(),
        ensures
            self.started() && v < self.wf_view().node_seq().len() ==> entry_views(r@) == input_entries(
                self.wf_view(),
                self.outputs(),
                self.wf_view().in_edges()[v as int],
            ),
            !(self.started() && v < self.wf_view().node_seq().len()) ==> r@.len() == 0,
    {
        let w: &Workflow<F> = &self.workflow;
        if !self.started || v >= w.node_count() {
            return Vec::new();
        }
        let ins = w.incoming(v);
        proof {
            lemma_edges_at_members(w.dst(), v, w.edge_seq().len() as int);
        }
        let mut r: Vec<InputEntry> = Vec::new();
        let mut k: usize = 0;
        while k < ins.len()
            invariant
                w.wf(),
                *w == self.wf_view(),
                self.outputs().len() == w.node_seq().len(),
                self.node_outputs@ == self.outputs(),
                ins@ == w.in_edges()[v as int],
                k <= ins@.len(),
                forall|t: int| 0 <= t < ins@.len() ==> #[trigger] ins@[t] < w.edge_seq().len(),
                entry_views(r@) == input_entries(*w, self.outputs(), ins@.take(k as int)),
            decreases ins@.len() - k,
        {
            let e = ins[k];
            proof {
                assert(ins@.take(k + 1).drop_last() =~= ins@.take(k as int));
            }
            let ghost before = r@;
            match w.edge_source(e) {
                Some(u) => {
                    if self.node_outputs[u].is_some() {
                        let name = w.node(u).name.clone();
                        r.push(InputEntry { name, source: u });
                    }
                },
                None => {},
            }
            proof {
                assert(entry_views(r@) =~= input_entries(*w, self.outputs(), ins@.take(k + 1)));
            }
            k += 1;
        }
        proof {
            assert(ins@.take(ins@.len() as int) =~= ins@);
        }
        r
    }

    /// Whether the run has begun.
    pub fn is_started(&self) -> (r: bool)
        ensures
            r == self.started(),
    {
        self.started
    }

    /// The workflow being run.
    pub fn workflow(&self) -> (r: &Workflow<F>)
        ensures
            *r == self.wf_view(),
    {
        &self.workflow
    }

    pub fn id(&self) -> (r: &String)
        ensures
            r@ == self.id_view(),
    {
        &self.id
    }

    pub fn workflow_id(&self) -> (r: &String)
        ensures
            r@ == self.workflow_id_view(),
    {
        &self.workflow_id
    }

    /// The status of node `v`, once the run has begun.
    pub fn node_status(&self, v: usize) -> (r: Option<NodeStatus>)
        ensures
            r == if v < self.status().len() {
                Some(self.status()[v as int])
            } else {
                None
            },
    {
        if v < self.node_status.len() {
            Some(self.node_status[v])
        } else {
            None
        }
    }

    /// The output of node `v`, if it has finished running.
    pub fn node_output(&self, v: usize) -> (r: Option<&NodeOutput<P>>)
        ensures
            v < self.outputs().len() && self.outputs()[v as int] is Some ==> (r matches Some(o) && *o
                == self.outputs()[v as int]->0),
            !(v < self.outputs().len() && self.outputs()[v as int] is Some) ==> r is None,
    {
        if v < self.node_outputs.len() {
            match &self.node_outputs[v] {
                Some(o) => Some(o),
                None => None,
            }
        } else {
            None
        }
    }
}

/// The edges whose source has not yet been accounted for: a source that has
/// not finished, or has finished but still waits in `pend` to settle its
/// outgoing edges.
pub open spec fn not_applied<F>(w: Workflow<F>, st: Seq<NodeStatus>, pend: Set<usize>) -> spec_fn(
    usize,
) -> bool {
    |e: usize| !(w.src()[e as int] matches Some(u) && is_resolved(st[u as int]) && !pend.contains(u))
}

/// The edges whose source has finished and waits in `pend`.
pub open spec fn resolved_in<F>(w: Workflow<F>, st: Seq<NodeStatus>, pend: Set<usize>) -> spec_fn(
    usize,
) -> bool {
    |e: usize| w.src()[e as int] matches Some(u) && is_resolved(st[u as int]) && pend.contains(u)
}

/// How many nodes are pending.
pub open spec fn pending_total(st: Seq<NodeStatus>) -> nat
    decreases st.len(),
{
    if st.len() == 0 {
        0
    } else {
        pending_total(st.drop_last()) + if st.last() == NodeStatus::Pending {
            1nat
        } else {
            0nat
        }
    }
}

proof fn lemma_pending_total_update(st: Seq<NodeStatus>, y: int, x: NodeStatus)
    requires
        0 <= y < st.len(),
        st[y] == NodeStatus::Pending,
        x != NodeStatus::Pending,
    ensures
        pending_total(st.update(y, x)) + 1 == pending_total(st),
    decreases st.len(),
{
    let t = st.update(y, x);
    if y == st.len() - 1 {
        assert(t.drop_last() =~= st.drop_last());
    } else {
        assert(t.drop_last() =~= st.drop_last().update(y, x));
        lemma_pending_total_update(st.drop_last(), y, x);
    }
}

/// The edges into node `v` are edges of the workflow that enter `v`, and
/// their sources are nodes of the workflow.
pub proof fn lemma_in_edges<F>(w: Workflow<F>, v: int)
    requires
        w.wf(),
        0 <= v < w.node_seq().len(),
    ensures
        forall|k: int|
            0 <= k < w.in_edges()[v].len() ==> #[trigger] w.in_edges()[v][k] < w.edge_seq().len()
                && w.dst()[w.in_edges()[v][k] as int] == Some(v as usize) && (w.src()[w.in_edges()[v][k] as int] matches Some(
                s,
            ) ==> s < w.node_seq().len()),
        w.in_edges()[v].no_duplicates(),
{
    lemma_edges_at_members(w.dst(), v as usize, w.edge_seq().len() as int);
    assert forall|k: int| 0 <= k < w.in_edges()[v].len() implies (w.src()[#[trigger] w.in_edges()[v][k] as int] matches Some(
        s,
    ) ==> s < w.node_seq().len()) by {
        let e = w.in_edges()[v][k] as int;
        assert(locates(w.node_seq(), w.edge_seq()[e].from_node_id@, w.src()[e]));
    }
}

/// The edges out of node `x` are edges of the workflow that leave `x`, and
/// their targets are nodes of the workflow.
proof fn lemma_out_edges<F>(w: Workflow<F>, x: int)
    requires
        w.wf(),
        0 <= x < w.node_seq().len(),
    ensures
        forall|k: int|
            0 <= k < w.out_edges()[x].len() ==> #[trigger] w.out_edges()[x][k] < w.edge_seq().len()
                && w.src()[w.out_edges()[x][k] as int] == Some(x as usize) && (w.dst()[w.out_edges()[x][k] as int] matches Some(
                s,
            ) ==> s < w.node_seq().len()),
{
    lemma_edges_at_members(w.src(), x as usize, w.edge_seq().len() as int);
    assert forall|k: int| 0 <= k < w.out_edges()[x].len() implies (w.dst()[#[trigger] w.out_edges()[x][k] as int] matches Some(
        s,
    ) ==> s < w.node_seq().len()) by {
        let e = w.out_edges()[x][k] as int;
        assert(locates(w.node_seq(), w.edge_seq()[e].to_node_id@, w.dst()[e]));
    }
}

/// Whether a node is blocked or skipped, and whether its inputs have finished, depend
/// only on the statuses and outputs of its sources.
proof fn lemma_sources_decide<F, P>(
    w: Workflow<F>,
    st: Seq<NodeStatus>,
    outs: Seq<Option<NodeOutput<P>>>,
    st2: Seq<NodeStatus>,
    outs2: Seq<Option<NodeOutput<P>>>,
    v: int,
)
    requires
        w.wf(),
        0 <= v < w.node_seq().len(),
        st.len() == w.node_seq().len(),
        st2.len() == w.node_seq().len(),
        outs.len() == w.node_seq().len(),
        outs2.len() == w.node_seq().len(),
        forall|k: int|
            0 <= k < w.in_edges()[v].len() ==> (w.src()[#[trigger] w.in_edges()[v][k] as int] matches Some(
                s,
            ) ==> st[s as int] == st2[s as int] && outs[s as int] == outs2[s as int]),
    ensures
        skip_due(w, st, outs, v) == skip_due(w, st2, outs2, v),
        has_failed_input(w, st, v) == has_failed_input(w, st2, v),
        inputs_resolved(w, st, v) == inputs_resolved(w, st2, v),
{
    let ins = w.in_edges()[v];
    assert forall|k: int| 0 <= k < ins.len() implies (edge_failed(w, st, #[trigger] ins[k]) == edge_failed(w, st2, ins[k])
        && edge_active(w, st, outs, ins[k]) == edge_active(w, st2, outs2, ins[k]) && src_resolved(w, st, ins[k]) == src_resolved(w, st2, ins[k])) by {
        match w.src()[ins[k] as int] {
            Some(s) => {
                assert(st[s as int] == st2[s as int]);
            },
            None => {},
        }
    }
    if has_failed_input(w, st, v) {
        let k = choose|k: int| 0 <= k < ins.len() && edge_failed(w, st, #[trigger] ins[k]);
        assert(edge_failed(w, st2, ins[k]));
    }
    if has_failed_input(w, st2, v) {
        let k = choose|k: int| 0 <= k < ins.len() && edge_failed(w, st2, #[trigger] ins[k]);
        assert(edge_failed(w, st, ins[k]));
    }
    if has_active_input(w, st, outs, v) {
        let k = choose|k: int| 0 <= k < ins.len() && edge_active(w, st, outs, #[trigger] ins[k]);
        assert(edge_active(w, st2, outs2, ins[k]));
    }
    if has_active_input(w, st2, outs2, v) {
        let k = choose|k: int| 0 <= k < ins.len() && edge_active(w, st2, outs2, #[trigger] ins[k]);
        assert(edge_active(w, st, outs, ins[k]));
    }
}

/// A node that has not finished is not a source of any node that is no
/// longer pending.
proof fn lemma_unresolved_not_source<F, P>(
    w: Workflow<F>,
    st: Seq<NodeStatus>,
    outs: Seq<Option<NodeOutput<P>>>,
    y: int,
    v: int,
)
    requires
        w.wf(),
        statuses_agree(w, st, outs),
        0 <= y < w.node_seq().len(),
        0 <= v < w.node_seq().len(),
        !is_resolved(st[y]),
        st[v] != NodeStatus::Pending,
    ensures
        forall|k: int|
            0 <= k < w.in_edges()[v].len() ==> w.src()[#[trigger] w.in_edges()[v][k] as int] != Some(
                y as usize,
            ),
{
    assert forall|k: int| 0 <= k < w.in_edges()[v].len() implies w.src()[#[trigger] w.in_edges()[v][k] as int] != Some(
        y as usize,
    ) by {
        assert(src_resolved(w, st, w.in_edges()[v][k]));
    }
}

/// Recording the outcome of a running node keeps statuses and outputs in agreement.
proof fn lemma_agree_after_finish<F, P>(
    w: Workflow<F>,
    st: Seq<NodeStatus>,
    outs: Seq<Option<NodeOutput<P>>>,
    x: int,
    o: NodeOutput<P>,
)
    requires
        w.wf(),
        statuses_agree(w, st, outs),
        0 <= x < w.node_seq().len(),
        st[x] == NodeStatus::Running,
    ensures
        statuses_agree(
            w,
            st.update(x, if o.payload is Ok { NodeStatus::Success } else { NodeStatus::Failed }),
            outs.update(x, Some(o)),
        ),
{
    let r = if o.payload is Ok { NodeStatus::Success } else { NodeStatus::Failed };
    let st2 = st.update(x, r);
    let outs2 = outs.update(x, Some(o));
    let n = w.node_seq().len();
    assert forall|v: int| 0 <= v < n && st2[v] != NodeStatus::Pending implies skip_due(w, st, outs, v) == skip_due(w, st2, outs2, v)
        && has_failed_input(w, st, v) == has_failed_input(w, st2, v)
        && inputs_resolved(w, st, v) == inputs_resolved(w, st2, v) by {
        lemma_in_edges(w, v);
        lemma_unresolved_not_source(w, st, outs, x, v);
        lemma_sources_decide(w, st, outs, st2, outs2, v);
    }
}

/// Settling a pending node whose inputs have all finished, as `decision`
/// says, keeps statuses and outputs in agreement.
proof fn lemma_agree_after_settle<F, P>(
    w: Workflow<F>,
    st: Seq<NodeStatus>,
    outs: Seq<Option<NodeOutput<P>>>,
    y: int,
    x: NodeStatus,
)
    requires
        w.wf(),
        statuses_agree(w, st, outs),
        0 <= y < w.node_seq().len(),
        st[y] == NodeStatus::Pending,
        inputs_resolved(w, st, y),
        x == decision(w, st, outs, y),
    ensures
        statuses_agree(w, st.update(y, x), outs),
{
    let st2 = st.update(y, x);
    let n = w.node_seq().len();
    assert forall|v: int| 0 <= v < n && st2[v] != NodeStatus::Pending implies skip_due(w, st, outs, v) == skip_due(w, st2, outs, v)
        && has_failed_input(w, st, v) == has_failed_input(w, st2, v)
        && inputs_resolved(w, st, v) == inputs_resolved(w, st2, v) by {
        lemma_in_edges(w, v);
        if v != y {
            lemma_unresolved_not_source(w, st, outs, y, v);
        } else {
            assert forall|k: int| 0 <= k < w.in_edges()[v].len() implies w.src()[#[trigger] w.in_edges()[v][k] as int] != Some(
                y as usize,
            ) by {
                assert(src_resolved(w, st, w.in_edges()[v][k]));
            }
        }
        lemma_sources_decide(w, st, outs, st2, outs, v);
    }
}

/// Changing the status of an unfinished node, and marking it as waiting to
/// settle its edges when it finishes, leaves every count unchanged.
proof fn lemma_counts_after_change<F>(
    w: Workflow<F>,
    st: Seq<NodeStatus>,
    pend: Set<usize>,
    y: int,
    x: NodeStatus,
    pend2: Set<usize>,
)
    requires
        w.wf(),
        st.len() == w.node_seq().len(),
        0 <= y < w.node_seq().len(),
        !is_resolved(st[y]),
        !pend.contains(y as usize),
        is_resolved(x) ==> pend2 == pend.insert(y as usize),
        !is_resolved(x) ==> pend2 == pend,
    ensures
        forall|v: int|
            0 <= v < w.node_seq().len() ==> count_where(#[trigger] w.in_edges()[v], not_applied(w, st, pend))
                == count_where(w.in_edges()[v], not_applied(w, st.update(y, x), pend2)),
{
    let st2 = st.update(y, x);
    assert forall|v: int| 0 <= v < w.node_seq().len() implies count_where(#[trigger] w.in_edges()[v], not_applied(w, st, pend))
        == count_where(w.in_edges()[v], not_applied(w, st2, pend2)) by {
        let ins = w.in_edges()[v];
        lemma_in_edges(w, v);
        assert forall|i: int| 0 <= i < ins.len() implies not_applied(w, st, pend)(#[trigger] ins[i])
            == not_applied(w, st2, pend2)(ins[i]) by {
            match w.src()[ins[i] as int] {
                Some(u) => {
                    if u as int == y {
                    } else {
                        assert(st2[u as int] == st[u as int]);
                    }
                },
                None => {},
            }
        }
        lemma_count_ext(ins, not_applied(w, st, pend), not_applied(w, st2, pend2));
    }
}

/// The counts before a node's outgoing edges are settled: every edge out of
/// a node waiting in `pend` (or not finished) still counts.
proof fn lemma_pend_split<F>(w: Workflow<F>, st: Seq<NodeStatus>, pend: Set<usize>, x: usize, v: int)
    requires
        w.wf(),
        st.len() == w.node_seq().len(),
        0 <= v < w.node_seq().len(),
        x < w.node_seq().len(),
        is_resolved(st[x as int]),
        !pend.contains(x),
    ensures
        count_where(w.in_edges()[v], not_applied(w, st, pend.insert(x))) == count_where(
            w.in_edges()[v],
            not_applied(w, st, pend),
        ) + count_where(w.in_edges()[v], ends_at(w.src(), x)),
{
    let ins = w.in_edges()[v];
    lemma_in_edges(w, v);
    lemma_count_split(ins, not_applied(w, st, pend.insert(x)), not_applied(w, st, pend), ends_at(w.src(), x));
}

/// Settles the outgoing edges of `node`, which has just finished, and of
/// every node blocked or skipped on the way: each target whose last waiting
/// edge this was is blocked, skipped or handed out, as `decision` says.
/// Returns the nodes handed out.
fn propagate<F, P>(
    w: &Workflow<F>,
    st: &mut Vec<NodeStatus>,
    outs: &Vec<Option<NodeOutput<P>>>,
    indeg: &mut Vec<usize>,
    node: usize,
) -> (dispatched: Vec<usize>)
    requires
        w.wf(),
        w.targets_known(),
        node < w.node_seq().len(),
        is_resolved(old(st)@[node as int]),
        statuses_agree(*w, old(st)@, outs@),
        old(indeg)@.len() == w.node_seq().len(),
        forall|v: int|
            0 <= v < w.node_seq().len() ==> #[trigger] old(indeg)@[v] == count_where(
                w.in_edges()[v],
                not_applied(*w, old(st)@, set![node]),
            ),
        forall|v: int|
            0 <= v < w.node_seq().len() ==> (#[trigger] old(st)@[v] == NodeStatus::Pending) == (old(indeg)@[v] > 0),
    ensures
        consistent(*w, final(st)@, outs@, final(indeg)@),
        final(st)@[node as int] == old(st)@[node as int],
        forall|v: int|
            0 <= v < w.node_seq().len() && v != node && #[trigger] old(st)@[v] != NodeStatus::Pending
                ==> final(st)@[v] == old(st)@[v],
        forall|v: int|
            0 <= v < w.node_seq().len() && #[trigger] old(st)@[v] == NodeStatus::Pending && final(st)@[v] != NodeStatus::Pending ==> final(st)@[v] == NodeStatus::Running || final(st)@[v]
                == NodeStatus::Skipped || final(st)@[v] == NodeStatus::Blocked,
        dispatched@.no_duplicates(),
        forall|v: usize|
            #[trigger] dispatched@.contains(v) <==> (v < w.node_seq().len() && old(st)@[v as int]
                == NodeStatus::Pending && final(st)@[v as int] == NodeStatus::Running),
        exists|order: Seq<usize>| settled_in_order(*w, old(st)@, final(st)@, node, order),
{
    let ghost wv = *w;
    let ghost n = w.node_seq().len();
    let ghost st0 = st@;
    let mut work: Vec<usize> = Vec::new();
    work.push(node);
    proof {
        lemma_to_set_push(Seq::empty(), node);
        lemma_to_set_empty(Seq::<usize>::empty());
        assert(Seq::<usize>::empty().push(node) =~= work@);
        assert(Set::<usize>::empty().insert(node) =~= set![node]);
    }
    let mut dispatched: Vec<usize> = Vec::new();
    let ghost mut order: Seq<usize> = Seq::empty();
    while work.len() > 0
        invariant
            w.wf(),
            w.targets_known(),
            wv == *w,
            n == w.node_seq().len(),
            node < n,
            outs@.len() == n,
            st@.len() == n,
            indeg@.len() == n,
            st0.len() == n,
            statuses_agree(wv, st@, outs@),
            forall|v: int| 0 <= v < n ==> (#[trigger] st@[v] == NodeStatus::Pending) == (indeg@[v] > 0),
            forall|v: int|
                0 <= v < n ==> #[trigger] indeg@[v] == count_where(
                    wv.in_edges()[v],
                    not_applied(wv, st@, work@.to_set()),
                ),
            work@.no_duplicates(),
            forall|i: int|
                0 <= i < work@.len() ==> #[trigger] work@[i] < n && is_resolved(st@[work@[i] as int]),
            st@[node as int] == st0[node as int],
            is_resolved(st0[node as int]),
            forall|v: int|
                0 <= v < n && v != node && #[trigger] st0[v] != NodeStatus::Pending ==> st@[v] == st0[v],
            forall|v: int|
                0 <= v < n && #[trigger] st0[v] == NodeStatus::Pending && st@[v] != NodeStatus::Pending
                    ==> st@[v] == NodeStatus::Running || st@[v] == NodeStatus::Skipped || st@[v]
                        == NodeStatus::Blocked,
            settled_in_order(wv, st0, st@, node, order),
            forall|k: int| 0 <= k < order.len() ==> #[trigger] order[k] < n,
            dispatched@.no_duplicates(),
            forall|v: usize|
                #[trigger] dispatched@.contains(v) <==> (v < n && st0[v as int] == NodeStatus::Pending
                    && st@[v as int] == NodeStatus::Running),
        decreases pending_total(st@) + work@.len(),
    {
        let ghost work_before = work@;
        let x = work.pop().unwrap();
        proof {
            assert(work_before.last() == x);
            assert(work@ =~= work_before.drop_last());
            lemma_to_set_drop_last(work_before);
            assert(!work@.contains(x)) by {
                if work@.contains(x) {
                    let i = choose|i: int| 0 <= i < work@.len() && work@[i] == x;
                    assert(work_before[i] == work_before[work_before.len() - 1]);
                }
            }
            assert forall|i: int| 0 <= i < work@.len() implies #[trigger] work@[i] < n && is_resolved(st@[work@[i] as int]) by {
                assert(work@[i] == work_before[i]);
            }
            assert(work@.no_duplicates()) by {
                assert forall|i: int, j: int| 0 <= i < j < work@.len() implies work@[i] != work@[j] by {
                    assert(work@[i] == work_before[i] && work@[j] == work_before[j]);
                }
            }
            lemma_out_edges(wv, x as int);
        }
        let ghost measure = pending_total(st@) + work@.len();
        let outx = w.outgoing(x);
        let mut j: usize = 0;
        while j < outx.len()
            invariant
                w.wf(),
                w.targets_known(),
                wv == *w,
                n == w.node_seq().len(),
                node < n,
                x < n,
                outx@ == wv.out_edges()[x as int],
                forall|k: int|
                    0 <= k < outx@.len() ==> #[trigger] outx@[k] < wv.edge_seq().len() && wv.src()[outx@[k] as int]
                        == Some(x) && (wv.dst()[outx@[k] as int] matches Some(s) ==> s < n),
                j <= outx@.len(),
                outs@.len() == n,
                st@.len() == n,
                indeg@.len() == n,
                st0.len() == n,
                is_resolved(st@[x as int]),
                !work@.contains(x),
                statuses_agree(wv, st@, outs@),
                forall|v: int| 0 <= v < n ==> (#[trigger] st@[v] == NodeStatus::Pending) == (indeg@[v] > 0),
                forall|v: int|
                    0 <= v < n ==> #[trigger] indeg@[v] + count_where(
                        outx@.take(j as int),
                        ends_at(wv.dst(), v as usize),
                    ) == count_where(wv.in_edges()[v], not_applied(wv, st@, work@.to_set().insert(x))),
                work@.no_duplicates(),
                forall|i: int|
                    0 <= i < work@.len() ==> #[trigger] work@[i] < n && is_resolved(st@[work@[i] as int]),
                pending_total(st@) + work@.len() <= measure,
                st@[node as int] == st0[node as int],
                is_resolved(st0[node as int]),
                forall|v: int|
                    0 <= v < n && v != node && #[trigger] st0[v] != NodeStatus::Pending ==> st@[v] == st0[v],
                forall|v: int|
                    0 <= v < n && #[trigger] st0[v] == NodeStatus::Pending && st@[v] != NodeStatus::Pending
                        ==> st@[v] == NodeStatus::Running || st@[v] == NodeStatus::Skipped || st@[v]
                        == NodeStatus::Blocked,
                settled_in_order(wv, st0, st@, node, order),
                forall|k: int| 0 <= k < order.len() ==> #[trigger] order[k] < n,
                dispatched@.no_duplicates(),
                forall|v: usize|
                    #[trigger] dispatched@.contains(v) <==> (v < n && st0[v as int] == NodeStatus::Pending
                        && st@[v as int] == NodeStatus::Running),
            decreases outx@.len() - j,
        {
            let e = outx[j];
            proof {
                lemma_count_take(outx@, ends_at(wv.dst(), 0), j as int);
            }
            match w.edge_target(e) {
                Some(v) => {
                    let ghost pend = work@.to_set().insert(x);
                    let ghost ins = wv.in_edges()[v as int];
                    proof {
                        lemma_in_edges(wv, v as int);
                        lemma_count_take(outx@, ends_at(wv.dst(), v), j as int);
                        lemma_count_take_le(outx@, ends_at(wv.dst(), v), j + 1);
                        lemma_edges_at_swap(wv.src(), wv.dst(), x, v, wv.edge_seq().len() as int);
                        lemma_count_le(ins, ends_at(wv.src(), x), not_applied(wv, st@, pend));
                        assert(indeg@[v as int] >= 1);
                    }
                    let d = indeg[v] - 1;
                    let ghost indeg_before = indeg@;
                    indeg.set(v, d);
                    proof {
                        assert forall|u: int| 0 <= u < n implies #[trigger] indeg@[u] + count_where(
                            outx@.take(j + 1),
                            ends_at(wv.dst(), u as usize),
                        ) == count_where(wv.in_edges()[u], not_applied(wv, st@, pend)) by {
                            lemma_count_take(outx@, ends_at(wv.dst(), u as usize), j as int);
                        }
                    }
                    if d == 0 {
                        proof {
                            lemma_count_split(ins, not_applied(wv, st@, pend), unresolved(wv, st@), resolved_in(wv, st@, pend));
                            lemma_count_le(ins, ends_at(wv.src(), x), resolved_in(wv, st@, pend));
                            lemma_count_zero(ins, unresolved(wv, st@));
                            assert(inputs_resolved(wv, st@, v as int));
                            assert(st@[v as int] == NodeStatus::Pending);
                        }
                        let status = decide(w, st, outs, v);
                        let skip = status != NodeStatus::Running;
                        let ghost st_before = st@;
                        let ghost work_prev = work@;
                        let ghost order_before = order;
                        proof {
                            lemma_agree_after_settle(wv, st@, outs@, v as int, status);
                            lemma_pending_total_update(st@, v as int, status);
                            assert(!work@.contains(v));
                            assert(v != x);
                            assert(v != node);
                        }
                        st.set(v, status);
                        if skip {
                            work.push(v);
                            proof {
                                lemma_to_set_push(work_prev, v);
                                assert(work@.to_set().insert(x) =~= pend.insert(v));
                                lemma_counts_after_change(wv, st_before, pend, v as int, status, pend.insert(v));
                                assert forall|i: int| 0 <= i < work@.len() implies #[trigger] work@[i] < n && is_resolved(st@[work@[i] as int]) by {
                                    if i < work_prev.len() {
                                        assert(work@[i] == work_prev[i]);
                                    }
                                }
                                assert(work@.no_duplicates()) by {
                                    assert forall|a: int, b: int| 0 <= a < b < work@.len() implies work@[a] != work@[b] by {
                                        if b < work_prev.len() {
                                            assert(work@[a] == work_prev[a] && work@[b] == work_prev[b]);
                                        } else {
                                            assert(work@[a] == work_prev[a]);
                                        }
                                    }
                                }
                            }
                        } else {
                            let ghost disp_before = dispatched@;
                            dispatched.push(v);
                            proof {
                                lemma_counts_after_change(wv, st_before, pend, v as int, status, pend);
                                assert(!disp_before.contains(v));
                                assert forall|u: usize| #[trigger] dispatched@.contains(u) <==> (u < n && st0[u as int] == NodeStatus::Pending
                                    && st@[u as int] == NodeStatus::Running) by {
                                    if dispatched@.contains(u) && u != v {
                                        let i = choose|i: int| 0 <= i < dispatched@.len() && dispatched@[i] == u;
                                        assert(disp_before[i] == u);
                                    }
                                    if u != v && disp_before.contains(u) {
                                        let i = choose|i: int| 0 <= i < disp_before.len() && disp_before[i] == u;
                                        assert(dispatched@[i] == u);
                                    }
                                    if u == v {
                                        assert(dispatched@[dispatched@.len() - 1] == v);
                                    }
                                }
                                assert(dispatched@.no_duplicates()) by {
                                    assert forall|a: int, b: int| 0 <= a < b < dispatched@.len() implies dispatched@[a] != dispatched@[b] by {
                                        if b < disp_before.len() {
                                            assert(dispatched@[a] == disp_before[a] && dispatched@[b] == disp_before[b]);
                                        } else {
                                            assert(dispatched@[a] == disp_before[a]);
                                            assert(disp_before.contains(dispatched@[a]));
                                        }
                                    }
                                }
                            }
                        }
                        proof {
                            order = order.push(v);
                            assert(st0[v as int] == NodeStatus::Pending);
                            assert(!order_before.contains(v));
                            assert(order.no_duplicates()) by {
                                assert forall|a: int, b: int| 0 <= a < b < order.len() implies order[a] != order[b] by {
                                    if b < order_before.len() {
                                        assert(order[a] == order_before[a] && order[b] == order_before[b]);
                                    } else {
                                        assert(order[a] == order_before[a]);
                                        assert(order_before.contains(order[a]));
                                    }
                                }
                            }
                            assert forall|u: int| 0 <= u < n implies ((u != node && #[trigger] st0[u] != st@[u]) <==> order.contains(
                                u as usize,
                            )) by {
                                if u != v {
                                    assert(st@[u] == st_before[u]);
                                    assert((u != node && st0[u] != st_before[u]) <==> order_before.contains(u as usize));
                                    if order.contains(u as usize) {
                                        let i = choose|i: int| 0 <= i < order.len() && order[i] == u;
                                        assert(order_before[i] == u);
                                    }
                                    if order_before.contains(u as usize) {
                                        let i = choose|i: int| 0 <= i < order_before.len() && order_before[i] == u;
                                        assert(order[i] == u);
                                    }
                                } else {
                                    assert(order[order.len() - 1] == v);
                                }
                            }
                            assert forall|k: int, t: int|
                                0 <= k < order.len() && 0 <= t < wv.in_edges()[order[k] as int].len() implies (wv.src()[#[trigger] wv.in_edges()[#[trigger] order[k] as int][t] as int] matches Some(s)
                                    && (is_resolved(st0[s as int]) || s == node || order.take(k).contains(s))) by {
                                if k < order_before.len() {
                                    assert(order[k] == order_before[k]);
                                    assert(order.take(k) =~= order_before.take(k));
                                } else {
                                    assert(order.take(k) =~= order_before);
                                    let ee = wv.in_edges()[v as int][t];
                                    assert(src_resolved(wv, st_before, ee));
                                    let s = wv.src()[ee as int]->0;
                                    if !is_resolved(st0[s as int]) && s != node {
                                        assert(st0[s as int] != st_before[s as int]);
                                        assert(order_before.contains(s));
                                    }
                                }
                            }
                        }
                    }
                },
                None => {
                    proof {
                        assert forall|u: int| 0 <= u < n implies #[trigger] indeg@[u] + count_where(
                            outx@.take(j + 1),
                            ends_at(wv.dst(), u as usize),
                        ) == count_where(wv.in_edges()[u], not_applied(wv, st@, work@.to_set().insert(x))) by {
                            lemma_count_take(outx@, ends_at(wv.dst(), u as usize), j as int);
                        }
                    }
                },
            }
            j += 1;
        }
        proof {
            assert(outx@.take(outx@.len() as int) =~= outx@);
            assert forall|v: int| 0 <= v < n implies #[trigger] indeg@[v] == count_where(
                wv.in_edges()[v],
                not_applied(wv, st@, work@.to_set()),
            ) by {
                lemma_pend_split(wv, st@, work@.to_set(), x, v);
                lemma_edges_at_swap(wv.src(), wv.dst(), x, v as usize, wv.edge_seq().len() as int);
            }
        }
    }
    proof {
        lemma_to_set_empty(work@);
        assert forall|v: int| 0 <= v < n implies #[trigger] indeg@[v] == unresolved_inputs(wv, st@, v) by {
            lemma_in_edges(wv, v);
            lemma_count_ext(wv.in_edges()[v], not_applied(wv, st@, Set::empty()), unresolved(wv, st@));
        }
        assert(settled_in_order(wv, st0, st@, node, order));
    }
    dispatched
}

/// What finishing `node` with `output` does to a run: the node succeeds or
/// fails with its output recorded; nodes that had settled stay as they were;
/// some pending nodes are blocked, skipped or handed out (`d`, without repeats), each
/// one only once all its inputs had finished.
pub open spec fn node_finished<F, P>(
    w: Workflow<F>,
    st0: Seq<NodeStatus>,
    outs0: Seq<Option<NodeOutput<P>>>,
    st1: Seq<NodeStatus>,
    outs1: Seq<Option<NodeOutput<P>>>,
    node: usize,
    output: NodeOutput<P>,
    d: Seq<usize>,
) -> bool {
    let n = w.node_seq().len();
    &&& st1[node as int] == if output.payload is Ok {
        NodeStatus::Success
    } else {
        NodeStatus::Failed
    }
    &&& outs1 == outs0.update(node as int, Some(output))
    &&& forall|v: int|
        0 <= v < n && v != node && #[trigger] st0[v] != NodeStatus::Pending ==> st1[v] == st0[v]
    &&& forall|v: int|
        0 <= v < n && #[trigger] st0[v] == NodeStatus::Pending && st1[v] != NodeStatus::Pending
            ==> st1[v] == NodeStatus::Running || st1[v] == NodeStatus::Skipped || st1[v]
            == NodeStatus::Blocked
    &&& d.no_duplicates()
    &&& forall|v: usize|
        #[trigger] d.contains(v) <==> (v < n && st0[v as int] == NodeStatus::Pending && st1[v as int]
            == NodeStatus::Running)
    &&& exists|order: Seq<usize>| settled_in_order(w, st0, st1, node, order)
}

/// Records the output of a node.
fn save_node_output<P>(outs: &mut Vec<Option<NodeOutput<P>>>, node: usize, output: NodeOutput<P>)
    requires
        node < old(outs)@.len(),
    ensures
        final(outs)@ == old(outs)@.update(node as int, Some(output)),
{
    outs.set(node, Some(output));
}

impl<F, P> ExecutionContext<F, P> {
    /// Records that the running node `node` finished with `output`, and hands
    /// out the nodes that this made ready (see `node_finished`). A call for a
    /// node that is not running, or before the run has begun, changes nothing.
    pub fn complete_node(&mut self, node: usize, output: NodeOutput<P>) -> (dispatched: Vec<usize>)
        requires
            old(self).inv(),
        ensures
            final(self).inv(),
            final(self).wf_view() == old(self).wf_view(),
            final(self).id_view() == old(self).id_view(),
            final(self).workflow_id_view() == old(self).workflow_id_view(),
            final(self).started() == old(self).started(),
            (old(self).started() && node < old(self).wf_view().node_seq().len() && old(self).status()[node as int]
                == NodeStatus::Running) ==> node_finished(
                old(self).wf_view(),
                old(self).status(),
                old(self).outputs(),
                final(self).status(),
                final(self).outputs(),
                node,
                output,
                dispatched@,
            ),
            !(old(self).started() && node < old(self).wf_view().node_seq().len() && old(self).status()[node as int]
                == NodeStatus::Running) ==> {
                &&& final(self).status() == old(self).status()
                &&& final(self).outputs() == old(self).outputs()
                &&& final(self).indegrees() == old(self).indegrees()
                &&& dispatched@.len() == 0
            },
    {
        if !self.started || node >= self.workflow.node_count() || self.node_status[node]
            != NodeStatus::Running {
            return Vec::new();
        }
        let w: &Workflow<F> = &self.workflow;
        let ghost wv = *w;
        let ghost st0 = self.node_status@;
        let ghost outs0 = self.node_outputs@;
        let status = if output.payload.is_ok() {
            NodeStatus::Success
        } else {
            NodeStatus::Failed
        };
        proof {
            lemma_agree_after_finish(wv, st0, outs0, node as int, output);
            lemma_to_set_empty(Seq::<usize>::empty());
            lemma_counts_after_change(wv, st0, Set::empty(), node as int, status, set![node]);
            assert(Set::<usize>::empty().insert(node) =~= set![node]);
            assert forall|v: int| 0 <= v < wv.node_seq().len() implies #[trigger] self.indegree@[v]
                == count_where(wv.in_edges()[v], not_applied(wv, st0, Set::empty())) by {
                lemma_in_edges(wv, v);
                lemma_count_ext(wv.in_edges()[v], not_applied(wv, st0, Set::empty()), unresolved(wv, st0));
            }
        }
        self.node_status.set(node, status);
        save_node_output(&mut self.node_outputs, node, output);
        let ghost st1 = self.node_status@;
        let dispatched = propagate(w, &mut self.node_status, &self.node_outputs, &mut self.indegree, node);
        proof {
            assert(self.node_status@[node as int] == st1[node as int]);
            assert(consistent(wv, self.node_status@, self.node_outputs@, self.indegree@));
            assert(exists|order: Seq<usize>| settled_in_order(wv, st1, self.node_status@, node, order));
            let order = choose|order: Seq<usize>| settled_in_order(wv, st1, self.node_status@, node, order);
            let st2 = self.node_status@;
            assert forall|v: int| 0 <= v < wv.node_seq().len() implies ((v != node && #[trigger] st0[v] != st2[v]) <==> order.contains(
                v as usize,
            )) by {
                if v != node {
                    assert(st1[v] == st0[v]);
                    assert((v != node && st1[v] != st2[v]) <==> order.contains(v as usize));
                }
            }
            assert forall|k: int, t: int|
                0 <= k < order.len() && 0 <= t < wv.in_edges()[order[k] as int].len() implies (wv.src()[#[trigger] wv.in_edges()[#[trigger] order[k] as int][t] as int] matches Some(s)
                    && (is_resolved(st0[s as int]) || s == node || order.take(k).contains(s))) by {
                let ee = wv.in_edges()[order[k] as int][t];
                assert(wv.src()[ee as int] matches Some(s) && (is_resolved(st1[s as int]) || s == node || order.take(k).contains(s)));
                let s = wv.src()[ee as int]->0;
                lemma_in_edges(wv, order[k] as int);
                if s != node {
                    assert(st1[s as int] == st0[s as int]);
                }
            }
            assert(settled_in_order(wv, st0, st2, node, order));
            assert forall|v: int|
                0 <= v < wv.node_seq().len() && v != node && #[trigger] st0[v] != NodeStatus::Pending implies st2[v] == st0[v] by {
                assert(st1[v] == st0[v]);
            }
            assert forall|v: int|
                0 <= v < wv.node_seq().len() && #[trigger] st0[v] == NodeStatus::Pending && st2[v] != NodeStatus::Pending
                    implies st2[v] == NodeStatus::Running || st2[v] == NodeStatus::Skipped || st2[v] == NodeStatus::Blocked by {
                assert(st1[v] == st0[v]);
            }
            assert forall|v: usize|
                #[trigger] dispatched@.contains(v) <==> (v < wv.node_seq().len() && st0[v as int] == NodeStatus::Pending && st2[v as int]
                    == NodeStatus::Running) by {
                if v < wv.node_seq().len() && v != node {
                    assert(st1[v as int] == st0[v as int]);
                }
            }
            assert(self.node_outputs@ == outs0.update(node as int, Some(output)));
        }
        dispatched
    }
}

/// The inputs of a list of edges name the sources that have an output, and
/// every such source of an edge of the list is among them.
pub proof fn lemma_input_entries<F, P>(w: Workflow<F>, outs: Seq<Option<NodeOutput<P>>>, es: Seq<usize>)
    requires
        w.wf(),
        outs.len() == w.node_seq().len(),
        forall|k: int|
            0 <= k < es.len() ==> (w.src()[#[trigger] es[k] as int] matches Some(u) ==> u < w.node_seq().len()),
    ensures
        forall|i: int|
            0 <= i < input_entries(w, outs, es).len() ==> {
                let (name, u) = #[trigger] input_entries(w, outs, es)[i];
                &&& u < w.node_seq().len()
                &&& outs[u as int] is Some
                &&& name == w.node_seq()[u as int].name@
                &&& exists|k: int| 0 <= k < es.len() && w.src()[#[trigger] es[k] as int] == Some(u)
            },
        forall|k: int|
            0 <= k < es.len() ==> (w.src()[#[trigger] es[k] as int] matches Some(u) ==> (outs[u as int] is Some
                ==> input_entries(w, outs, es).contains((w.node_seq()[u as int].name@, u)))),
    decreases es.len(),
{
    if es.len() > 0 {
        let init = es.drop_last();
        lemma_input_entries(w, outs, init);
        let a = input_entries(w, outs, init);
        let r = input_entries(w, outs, es);
        assert forall|i: int| 0 <= i < r.len() implies {
            let (name, u) = #[trigger] r[i];
            &&& u < w.node_seq().len()
            &&& outs[u as int] is Some
            &&& name == w.node_seq()[u as int].name@
            &&& exists|k: int| 0 <= k < es.len() && w.src()[#[trigger] es[k] as int] == Some(u)
        } by {
            if i < a.len() {
                assert(r[i] == a[i]);
                let k = choose|k: int| 0 <= k < init.len() && w.src()[#[trigger] init[k] as int] == Some(a[i].1);
                assert(es[k] == init[k]);
            } else {
                assert(es[es.len() - 1] == es.last());
            }
        }
        assert forall|k: int| 0 <= k < es.len() implies (w.src()[#[trigger] es[k] as int] matches Some(u) ==> (outs[u as int] is Some
            ==> r.contains((w.node_seq()[u as int].name@, u)))) by {
            if k < init.len() {
                assert(es[k] == init[k]);
                if let Some(u) = w.src()[es[k] as int] {
                    if outs[u as int] is Some {
                        let j = choose|j: int| 0 <= j < a.len() && a[j] == (w.node_seq()[u as int].name@, u);
                        assert(r[j] == a[j]);
                    }
                }
            } else {
                if let Some(u) = w.src()[es[k] as int] {
                    if outs[u as int] is Some {
                        assert(r[a.len() as int] == (w.node_seq()[u as int].name@, u));
                    }
                }
            }
        }
    }
}

} // verus!
