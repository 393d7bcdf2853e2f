//! A workflow: its nodes and edges, with each edge's endpoints resolved to
//! nodes and each node's outgoing and incoming edges listed.

use vstd::prelude::*;
use crate::edge::edge::Edge;
use crate::node::node::Node;
use crate::uid::{is_simple_v4_uuid, new_id};

verus! {

/// Nodes keyed by id; of several nodes with one id, the last one given counts.
pub open spec fn nodes_by_id<F>(s: Seq<Node<F>>) -> Map<Seq<char>, Node<F>>
    decreases s.len(),
{
    if s.len() == 0 {
        Map::empty()
    } else {
        nodes_by_id(s.drop_last()).insert(s.last().id@, s.last())
    }
}

/// Edges keyed by id; of several edges with one id, the last one given counts.
pub open spec fn edges_by_id(s: Seq<Edge>) -> Map<Seq<char>, Edge>
    decreases s.len(),
{
    if s.len() == 0 {
        Map::empty()
    } else {
        edges_by_id(s.drop_last()).insert(s.last().id@, s.last())
    }
}

/// The edges that leave the node with id `node_id`.
pub open spec fn leaves(node_id: Seq<char>) -> spec_fn(Edge) -> bool {
    |e: Edge| e.from_node_id@ == node_id
}

/// The edges that enter the node with id `node_id`.
pub open spec fn enters(node_id: Seq<char>) -> spec_fn(Edge) -> bool {
    |e: Edge| e.to_node_id@ == node_id
}

/// The ids of some edges.
pub open spec fn edge_ids(edges: Seq<Edge>) -> Seq<Seq<char>> {
    edges.map_values(|e: Edge| e.id@)
}

/// The ids of the edges that leave the node with id `node_id`, in the order given.
pub open spec fn outgoing_ids(edges: Seq<Edge>, node_id: Seq<char>) -> Seq<Seq<char>> {
    edge_ids(edges.filter(leaves(node_id)))
}

/// The ids of the edges that enter the node with id `node_id`, in the order given.
pub open spec fn incoming_ids(edges: Seq<Edge>, node_id: Seq<char>) -> Seq<Seq<char>> {
    edge_ids(edges.filter(enters(node_id)))
}

/// Node id to the ids of its outgoing edges, for every id that some edge leaves.
pub open spec fn adjacency(edges: Seq<Edge>) -> Map<Seq<char>, Seq<Seq<char>>> {
    Map::new(
        |k: Seq<char>| exists|e: int| 0 <= e < edges.len() && #[trigger] edges[e].from_node_id@ == k,
        |k: Seq<char>| outgoing_ids(edges, k),
    )
}

/// Node id to the ids of its incoming edges, for every id that some edge enters.
pub open spec fn reverse_adjacency(edges: Seq<Edge>) -> Map<Seq<char>, Seq<Seq<char>>> {
    Map::new(
        |k: Seq<char>| exists|e: int| 0 <= e < edges.len() && #[trigger] edges[e].to_node_id@ == k,
        |k: Seq<char>| incoming_ids(edges, k),
    )
}

/// No two nodes share an id.
pub open spec fn ids_distinct<F>(s: Seq<Node<F>>) -> bool {
    forall|i: int, j: int|
        0 <= i < s.len() && 0 <= j < s.len() && i != j ==> #[trigger] s[i].id@ != #[trigger] s[j].id@
}

/// `r` is the position of the node with id `id`, or `None` when no node has it.
pub open spec fn locates<F>(nodes: Seq<Node<F>>, id: Seq<char>, r: Option<usize>) -> bool {
    match r {
        Some(i) => i < nodes.len() && nodes[i as int].id@ == id,
        None => forall|i: int| 0 <= i < nodes.len() ==> #[trigger] nodes[i].id@ != id,
    }
}

/// Of the first `k` edges, those whose end (in `ends`) is node `i`, in order.
pub open spec fn edges_at(ends: Seq<Option<usize>>, i: usize, k: int) -> Seq<usize>
    decreases k,
{
    if k <= 0 {
        Seq::empty()
    } else {
        edges_at(ends, i, k - 1) + if ends[k - 1] == Some(i) {
            seq![(k - 1) as usize]
        } else {
            Seq::empty()
        }
    }
}

/// A workflow. `F` is the type of the native functions of its nodes.
pub struct Workflow<F> {
    id: String,
    name: String,
    description: String,
    nodes: Vec<Node<F>>,
    edges: Vec<Edge>,
    edge_src: Vec<Option<usize>>,
    edge_dst: Vec<Option<usize>>,
    out_edges: Vec<Vec<usize>>,
    in_edges: Vec<Vec<usize>>,
}

impl<F> Workflow<F> {
    /// The workflow's id.
    pub closed spec fn id_view(&self) -> Seq<char> {
        self.id@
    }

    pub closed spec fn name_view(&self) -> Seq<char> {
        self.name@
    }

    pub closed spec fn description_view(&self) -> Seq<char> {
        self.description@
    }

    /// The nodes, one per id.
    pub closed spec fn node_seq(&self) -> Seq<Node<F>> {
        self.nodes@
    }

    /// The edges, as given.
    pub closed spec fn edge_seq(&self) -> Seq<Edge> {
        self.edges@
    }

    /// For each edge, the position of its source node, if the workflow has it.
    pub closed spec fn src(&self) -> Seq<Option<usize>> {
        self.edge_src@
    }

    /// For each edge, the position of its target node, if the workflow has it.
    pub closed spec fn dst(&self) -> Seq<Option<usize>> {
        self.edge_dst@
    }

    /// For each node, the positions of the edges that leave it.
    pub closed spec fn out_edges(&self) -> Seq<Seq<usize>> {
        self.out_edges@.map_values(|v: Vec<usize>| v@)
    }

    /// For each node, the positions of the edges that enter it.
    pub closed spec fn in_edges(&self) -> Seq<Seq<usize>> {
        self.in_edges@.map_values(|v: Vec<usize>| v@)
    }

    /// Nodes by id.
    pub open spec fn nodes_map(&self) -> Map<Seq<char>, Node<F>> {
        nodes_by_id(self.node_seq())
    }

    /// Edges by id.
    pub open spec fn edges_map(&self) -> Map<Seq<char>, Edge> {
        edges_by_id(self.edge_seq())
    }

    /// Node id to the ids of its outgoing edges.
    pub open spec fn adjacency_list(&self) -> Map<Seq<char>, Seq<Seq<char>>> {
        adjacency(self.edge_seq())
    }

    /// Node id to the ids of its incoming edges.
    pub open spec fn reverse_adjacency_list(&self) -> Map<Seq<char>, Seq<Seq<char>>> {
        reverse_adjacency(self.edge_seq())
    }

    /// Node ids are distinct, each edge end is resolved to the node with that
    /// id (or to none), and the edge lists of each node are exactly its edges.
    #[verifier::type_invariant]
    pub open spec fn wf(&self) -> bool {
        let n = self.node_seq().len();
        let m = self.edge_seq().len();
        &&& ids_distinct(self.node_seq())
        &&& n <= usize::MAX
        &&& m <= usize::MAX
        &&& self.src().len() == m
        &&& self.dst().len() == m
        &&& forall|e: int|
            0 <= e < m ==> locates(
                self.node_seq(),
                self.edge_seq()[e].from_node_id@,
                #[trigger] self.src()[e],
            )
        &&& forall|e: int|
            0 <= e < m ==> locates(self.node_seq(), self.edge_seq()[e].to_node_id@, #[trigger] self.dst()[e])
        &&& self.out_edges().len() == n
        &&& self.in_edges().len() == n
        &&& forall|i: int|
            0 <= i < n ==> #[trigger] self.out_edges()[i] == edges_at(self.src(), i as usize, m as int)
        &&& forall|i: int|
            0 <= i < n ==> #[trigger] self.in_edges()[i] == edges_at(self.dst(), i as usize, m as int)
    }
}

/// Replacing a node by one with the same id in a list of distinct ids is an
/// update of the map by id.
proof fn lemma_nodes_by_id_update<F>(s: Seq<Node<F>>, i: int, x: Node<F>)
    requires
        ids_distinct(s),
        0 <= i < s.len(),
        x.id@ == s[i].id@,
    ensures
        nodes_by_id(s.update(i, x)) == nodes_by_id(s).insert(x.id@, x),
    decreases s.len(),
{
    let t = s.update(i, x);
    assert(t.drop_last() =~= if i == s.len() - 1 {
        s.drop_last()
    } else {
        s.drop_last().update(i, x)
    });
    if i == s.len() - 1 {
        assert(nodes_by_id(t) =~= nodes_by_id(s).insert(x.id@, x));
    } else {
        assert(ids_distinct(s.drop_last()));
        lemma_nodes_by_id_update(s.drop_last(), i, x);
        assert(s.last().id@ != x.id@);
        assert(nodes_by_id(t) =~= nodes_by_id(s).insert(x.id@, x));
    }
}

/// The position of the node with id `id`, if any.
fn locate<F>(nodes: &Vec<Node<F>>, id: &String) -> (r: Option<usize>)
    ensures
        locates(nodes@, id@, r),
{
    let mut i: usize = 0;
    while i < nodes.len()
        invariant
            i <= nodes.len(),
            forall|j: int| 0 <= j < i ==> #[trigger] nodes@[j].id@ != id@,
        decreases nodes.len() - i,
    {
        if nodes[i].id == *id {
            return Some(i);
        }
        i += 1;
    }
    None
}

/// The positions of the edges whose end (in `ends`) is node `i`.
fn collect_edges_at(ends: &Vec<Option<usize>>, i: usize) -> (r: Vec<usize>)
    ensures
        r@ == edges_at(ends@, i, ends@.len() as int),
{
    let mut r: Vec<usize> = Vec::new();
    let mut e: usize = 0;
    while e < ends.len()
        invariant
            e <= ends.len(),
            r@ == edges_at(ends@, i, e as int),
        decreases ends.len() - e,
    {
        match ends[e] {
            Some(k) => {
                if k == i {
                    r.push(e);
                }
            },
            None => {},
        }
        e += 1;
    }
    r
}

impl<F> Workflow<F> {
    /// Builds a workflow from its nodes and edges: the nodes keyed by id (the
    /// last node with an id counts), every edge kept, and the edge lists of
    /// every node.
    pub fn new(nodes: Vec<Node<F>>, edges: Vec<Edge>, name: String, description: String) -> (w:
        Self)
        ensures
            is_simple_v4_uuid(w.id_view()),
            w.name_view() == name@,
            w.description_view() == description@,
            w.nodes_map() == nodes_by_id(nodes@),
            w.edge_seq() == edges@,
            w.edges_map() == edges_by_id(edges@),
            w.adjacency_list() == adjacency(edges@),
            w.reverse_adjacency_list() == reverse_adjacency(edges@),
    {
        let ghost input = nodes@;
        let mut node_vec: Vec<Node<F>> = Vec::new();
        for node in it: nodes
            invariant
                it.seq() == input,
                ids_distinct(node_vec@),
                nodes_by_id(node_vec@) == nodes_by_id(input.take(it.index() as int)),
        {
            proof {
                assert(input.take(it.index() + 1).drop_last() =~= input.take(it.index() as int));
            }
            match locate(&node_vec, &node.id) {
                Some(i) => {
                    proof {
                        lemma_nodes_by_id_update(node_vec@, i as int, node);
                    }
                    node_vec.set(i, node);
                    proof {
                        assert(ids_distinct(node_vec@));
                    }
                },
                None => {
                    let ghost before = node_vec@;
                    node_vec.push(node);
                    proof {
                        assert(node_vec@.drop_last() =~= before);
                        assert(ids_distinct(node_vec@));
                    }
                },
            }
        }
        proof {
            assert(input.take(input.len() as int) =~= input);
        }
        let mut edge_src: Vec<Option<usize>> = Vec::new();
        let mut edge_dst: Vec<Option<usize>> = Vec::new();
        let mut e: usize = 0;
        while e < edges.len()
            invariant
                e <= edges.len(),
                edge_src@.len() == e,
                edge_dst@.len() == e,
                forall|k: int|
                    0 <= k < e ==> locates(node_vec@, edges@[k].from_node_id@, #[trigger] edge_src@[k]),
                forall|k: int|
                    0 <= k < e ==> locates(node_vec@, edges@[k].to_node_id@, #[trigger] edge_dst@[k]),
            decreases edges.len() - e,
        {
            edge_src.push(locate(&node_vec, &edges[e].from_node_id));
            edge_dst.push(locate(&node_vec, &edges[e].to_node_id));
            e += 1;
        }
        let mut out_edges: Vec<Vec<usize>> = Vec::new();
        let mut in_edges: Vec<Vec<usize>> = Vec::new();
        let mut i: usize = 0;
        while i < node_vec.len()
            invariant
                i <= node_vec.len(),
                edge_src@.len() == edges@.len(),
                edge_dst@.len() == edges@.len(),
                out_edges@.len() == i,
                in_edges@.len() == i,
                forall|k: int|
                    0 <= k < i ==> #[trigger] out_edges@[k]@ == edges_at(
                        edge_src@,
                        k as usize,
                        edges@.len() as int,
                    ),
                forall|k: int|
                    0 <= k < i ==> #[trigger] in_edges@[k]@ == edges_at(
                        edge_dst@,
                        k as usize,
                        edges@.len() as int,
                    ),
            decreases node_vec.len() - i,
        {
            out_edges.push(collect_edges_at(&edge_src, i));
            in_edges.push(collect_edges_at(&edge_dst, i));
            i += 1;
        }
        let w = Workflow {
            id: new_id(),
            name,
            description,
            nodes: node_vec,
            edges,
            edge_src,
            edge_dst,
            out_edges,
            in_edges,
        };
        proof {
            assert(w.out_edges() =~= out_edges@.map_values(|v: Vec<usize>| v@));
        }
        w
    }
}

impl<F> Workflow<F> {
    /// Every edge that leaves a node of the workflow enters one.
    pub open spec fn targets_known(&self) -> bool {
        forall|e: int|
            0 <= e < self.edge_seq().len() && #[trigger] self.src()[e] is Some ==> self.dst()[e] is Some
    }

    pub fn id(&self) -> (r: &String)
        ensures
            r@ == self.id_view(),
    {
        &self.id
    }

    pub fn name(&self) -> (r: &String)
        ensures
            r@ == self.name_view(),
    {
        &self.name
    }

    pub fn description(&self) -> (r: &String)
        ensures
            r@ == self.description_view(),
    {
        &self.description
    }

    pub fn node_count(&self) -> (r: usize)
        ensures
            r == self.node_seq().len(),
    {
        self.nodes.len()
    }

    pub fn edge_count(&self) -> (r: usize)
        ensures
            r == self.edge_seq().len(),
    {
        self.edges.len()
    }

    /// The node at position `i`.
    pub fn node(&self, i: usize) -> (r: &Node<F>)
        requires
            i < self.node_seq().len(),
        ensures
            *r == self.node_seq()[i as int],
    {
        &self.nodes[i]
    }

    /// The edge at position `e`.
    pub fn edge(&self, e: usize) -> (r: &Edge)
        requires
            e < self.edge_seq().len(),
        ensures
            *r == self.edge_seq()[e as int],
    {
        &self.edges[e]
    }

    /// The position of the node that edge `e` leaves, if the workflow has it.
    pub fn edge_source(&self, e: usize) -> (r: Option<usize>)
        requires
            e < self.edge_seq().len(),
        ensures
            r == self.src()[e as int],
    {
        proof {
            use_type_invariant(self);
        }
        self.edge_src[e]
    }

    /// The position of the node that edge `e` enters, if the workflow has it.
    pub fn edge_target(&self, e: usize) -> (r: Option<usize>)
        requires
            e < self.edge_seq().len(),
        ensures
            r == self.dst()[e as int],
    {
        proof {
            use_type_invariant(self);
        }
        self.edge_dst[e]
    }

    /// The positions of the edges that leave node `i`.
    pub fn outgoing(&self, i: usize) -> (r: &Vec<usize>)
        requires
            i < self.node_seq().len(),
        ensures
            r@ == self.out_edges()[i as int],
    {
        proof {
            use_type_invariant(self);
        }
        &self.out_edges[i]
    }

    /// The positions of the edges that enter node `i`.
    pub fn incoming(&self, i: usize) -> (r: &Vec<usize>)
        requires
            i < self.node_seq().len(),
        ensures
            r@ == self.in_edges()[i as int],
    {
        proof {
            use_type_invariant(self);
        }
        &self.in_edges[i]
    }

    /// The position of the node with id `id`.
    pub fn node_index(&self, id: &String) -> (r: Option<usize>)
        ensures
            locates(self.node_seq(), id@, r),
    {
        locate(&self.nodes, id)
    }

    /// Whether every edge that leaves a node of the workflow enters one.
    pub fn edge_targets_known(&self) -> (b: bool)
        ensures
            b == self.targets_known(),
    {
        proof {
            use_type_invariant(self);
        }
        let mut e: usize = 0;
        while e < self.edges.len()
            invariant
                self.wf(),
                e <= self.edges@.len(),
                forall|k: int| 0 <= k < e && #[trigger] self.src()[k] is Some ==> self.dst()[k] is Some,
            decreases self.edges@.len() - e,
        {
            if self.edge_src[e].is_some() && self.edge_dst[e].is_none() {
                return false;
            }
            e += 1;
        }
        true
    }
}

/// The ids of the edges that leave (when `outgoing`) or enter the node with id
/// `node_id`, in order, and whether there is any.
fn select_edge_ids(edges: &Vec<Edge>, node_id: &String, outgoing: bool) -> (r: (Vec<String>, bool))
    ensures
        outgoing ==> edge_ids(edges@.filter(leaves(node_id@))) == r.0@.map_values(|s: String| s@),
        !outgoing ==> edge_ids(edges@.filter(enters(node_id@))) == r.0@.map_values(|s: String| s@),
        outgoing ==> r.1 == exists|e: int| 0 <= e < edges@.len() && #[trigger] leaves(node_id@)(edges@[e]),
        !outgoing ==> r.1 == exists|e: int| 0 <= e < edges@.len() && #[trigger] enters(node_id@)(edges@[e]),
{
    let ghost pred = if outgoing {
        leaves(node_id@)
    } else {
        enters(node_id@)
    };
    let mut ids: Vec<String> = Vec::new();
    let mut found = false;
    let mut e: usize = 0;
    while e < edges.len()
        invariant
            e <= edges@.len(),
            pred == if outgoing {
                leaves(node_id@)
            } else {
                enters(node_id@)
            },
            edge_ids(edges@.take(e as int).filter(pred)) == ids@.map_values(|s: String| s@),
            found == exists|k: int| 0 <= k < e && #[trigger] pred(edges@[k]),
        decreases edges@.len() - e,
    {
        proof {
            assert(edges@.take(e + 1) =~= edges@.take(e as int).push(edges@[e as int]));
            edges@.take(e as int).lemma_filter_push(edges@[e as int], pred);
        }
        let ghost before = ids@;
        let hit = if outgoing {
            edges[e].from_node_id == *node_id
        } else {
            edges[e].to_node_id == *node_id
        };
        if hit {
            ids.push(edges[e].id.clone());
            found = true;
            proof {
                assert(ids@.map_values(|s: String| s@) =~= before.map_values(|s: String| s@).push(edges@[e as int].id@));
                assert(edge_ids(edges@.take(e as int).filter(pred).push(edges@[e as int])) =~= edge_ids(edges@.take(e as int).filter(pred)).push(edges@[e as int].id@));
            }
        }
        e += 1;
    }
    proof {
        assert(edges@.take(edges@.len() as int) =~= edges@);
        if found {
            let k = choose|k: int| 0 <= k < edges@.len() && #[trigger] pred(edges@[k]);
            assert(pred(edges@[k]));
        }
    }
    (ids, found)
}

impl<F> Workflow<F> {
    /// The ids of the edges that leave the node with id `node_id`, when some edge does.
    pub fn outgoing_edge_ids(&self, node_id: &String) -> (r: Option<Vec<String>>)
        ensures
            r is Some <==> self.adjacency_list().dom().contains(node_id@),
            r matches Some(ids) ==> ids@.map_values(|s: String| s@) == self.adjacency_list()[node_id@],
    {
        let (ids, found) = select_edge_ids(&self.edges, node_id, true);
        proof {
            let es = self.edges@;
            if found {
                let e = choose|e: int| 0 <= e < es.len() && #[trigger] leaves(node_id@)(es[e]);
                assert(es[e].from_node_id@ == node_id@);
            }
            if self.adjacency_list().dom().contains(node_id@) {
                let e = choose|e: int| 0 <= e < es.len() && #[trigger] es[e].from_node_id@ == node_id@;
                assert(leaves(node_id@)(es[e]));
            }
        }
        if found {
            Some(ids)
        } else {
            None
        }
    }

    /// The ids of the edges that enter the node with id `node_id`, when some edge does.
    pub fn incoming_edge_ids(&self, node_id: &String) -> (r: Option<Vec<String>>)
        ensures
            r is Some <==> self.reverse_adjacency_list().dom().contains(node_id@),
            r matches Some(ids) ==> ids@.map_values(|s: String| s@) == self.reverse_adjacency_list()[node_id@],
    {
        let (ids, found) = select_edge_ids(&self.edges, node_id, false);
        proof {
            let es = self.edges@;
            if found {
                let e = choose|e: int| 0 <= e < es.len() && #[trigger] enters(node_id@)(es[e]);
                assert(es[e].to_node_id@ == node_id@);
            }
            if self.reverse_adjacency_list().dom().contains(node_id@) {
                let e = choose|e: int| 0 <= e < es.len() && #[trigger] es[e].to_node_id@ == node_id@;
                assert(enters(node_id@)(es[e]));
            }
        }
        if found {
            Some(ids)
        } else {
            None
        }
    }
}

/// The edges that leave (when `outgoing`) or enter the node with id `k`.
pub open spec fn side(outgoing: bool, k: Seq<char>) -> spec_fn(Edge) -> bool {
    if outgoing {
        leaves(k)
    } else {
        enters(k)
    }
}

/// The id of the node that edge `e` leaves (when `outgoing`) or enters.
pub open spec fn end_id(outgoing: bool, e: Edge) -> Seq<char> {
    if outgoing {
        e.from_node_id@
    } else {
        e.to_node_id@
    }
}

/// How many ids the lists of the nodes `ks` hold together.
pub open spec fn total_listed(m: Map<Seq<char>, Seq<Seq<char>>>, ks: Seq<Seq<char>>) -> nat
    decreases ks.len(),
{
    if ks.len() == 0 {
        0
    } else {
        total_listed(m, ks.drop_last()) + m[ks.last()].len()
    }
}

/// How many of the edges `es` leave (or enter) each of the nodes `ks`, added up.
pub open spec fn listed_count(es: Seq<Edge>, ks: Seq<Seq<char>>, outgoing: bool) -> nat
    decreases ks.len(),
{
    if ks.len() == 0 {
        0
    } else {
        listed_count(es, ks.drop_last(), outgoing) + es.filter(side(outgoing, ks.last())).len()
    }
}

/// How many times `y` occurs in `ks`.
pub open spec fn occurrences(ks: Seq<Seq<char>>, y: Seq<char>) -> nat
    decreases ks.len(),
{
    if ks.len() == 0 {
        0
    } else {
        occurrences(ks.drop_last(), y) + if ks.last() == y {
            1nat
        } else {
            0nat
        }
    }
}

proof fn lemma_occurrences(ks: Seq<Seq<char>>, y: Seq<char>)
    requires
        ks.no_duplicates(),
    ensures
        occurrences(ks, y) == if ks.contains(y) {
            1nat
        } else {
            0nat
        },
    decreases ks.len(),
{
    if ks.len() > 0 {
        let init = ks.drop_last();
        assert(init.no_duplicates());
        lemma_occurrences(init, y);
        if init.contains(y) {
            let j = choose|j: int| 0 <= j < init.len() && init[j] == y;
            assert(ks[j] == y);
            assert(ks.last() != y);
        }
        if ks.contains(y) && ks.last() != y {
            let j = choose|j: int| 0 <= j < ks.len() && ks[j] == y;
            assert(init[j] == y);
        }
    }
}

proof fn lemma_listed_count_empty(ks: Seq<Seq<char>>, outgoing: bool)
    ensures
        listed_count(Seq::empty(), ks, outgoing) == 0,
    decreases ks.len(),
{
    if ks.len() > 0 {
        lemma_listed_count_empty(ks.drop_last(), outgoing);
    }
}

proof fn lemma_listed_count_push(es: Seq<Edge>, x: Edge, ks: Seq<Seq<char>>, outgoing: bool)
    ensures
        listed_count(es.push(x), ks, outgoing) == listed_count(es, ks, outgoing) + occurrences(
            ks,
            end_id(outgoing, x),
        ),
    decreases ks.len(),
{
    if ks.len() > 0 {
        lemma_listed_count_push(es, x, ks.drop_last(), outgoing);
        es.lemma_filter_push(x, side(outgoing, ks.last()));
    }
}

/// Each edge, counted under its end among the distinct nodes `ks`, is
/// counted once.
proof fn lemma_listed_count_all(es: Seq<Edge>, ks: Seq<Seq<char>>, outgoing: bool)
    requires
        ks.no_duplicates(),
        forall|i: int| 0 <= i < es.len() ==> ks.contains(end_id(outgoing, #[trigger] es[i])),
    ensures
        listed_count(es, ks, outgoing) == es.len(),
    decreases es.len(),
{
    if es.len() == 0 {
        lemma_listed_count_empty(ks, outgoing);
        assert(es =~= Seq::<Edge>::empty());
    } else {
        let init = es.drop_last();
        assert forall|i: int| 0 <= i < init.len() implies ks.contains(end_id(outgoing, #[trigger] init[i])) by {
            assert(init[i] == es[i]);
        }
        lemma_listed_count_all(init, ks, outgoing);
        lemma_listed_count_push(init, es.last(), ks, outgoing);
        lemma_occurrences(ks, end_id(outgoing, es.last()));
        assert(init.push(es.last()) =~= es);
    }
}

/// Every item kept by a filter is an item of the sequence.
proof fn lemma_filter_members<A>(s: Seq<A>, p: spec_fn(A) -> bool)
    ensures
        forall|i: int| 0 <= i < s.filter(p).len() ==> s.contains(#[trigger] s.filter(p)[i]),
    decreases s.len(),
{
    reveal(Seq::filter);
    if s.len() > 0 {
        let init = s.drop_last();
        lemma_filter_members(init, p);
        assert forall|i: int| 0 <= i < s.filter(p).len() implies s.contains(#[trigger] s.filter(p)[i]) by {
            if i < init.filter(p).len() {
                assert(s.filter(p)[i] == init.filter(p)[i]);
                let j = choose|j: int| 0 <= j < init.len() && init[j] == init.filter(p)[i];
                assert(s[j] == init[j]);
            } else {
                assert(s.filter(p)[i] == s[s.len() - 1]);
            }
        }
    }
}

/// The ids of the edges are the keys of the edges map.
proof fn lemma_edges_by_id_dom(s: Seq<Edge>)
    ensures
        forall|i: int| 0 <= i < s.len() ==> edges_by_id(s).dom().contains(#[trigger] s[i].id@),
    decreases s.len(),
{
    if s.len() > 0 {
        lemma_edges_by_id_dom(s.drop_last());
        assert forall|i: int| 0 <= i < s.len() implies edges_by_id(s).dom().contains(#[trigger] s[i].id@) by {
            if i < s.len() - 1 {
                assert(s.drop_last()[i] == s[i]);
            }
        }
    }
}

/// No two edges share an id.
pub open spec fn edge_ids_distinct(s: Seq<Edge>) -> bool {
    forall|i: int, j: int|
        0 <= i < s.len() && 0 <= j < s.len() && i != j ==> #[trigger] s[i].id@ != #[trigger] s[j].id@
}

/// The keys of the edges map are ids of the edges; with distinct ids there
/// are as many keys as edges.
pub proof fn lemma_edges_by_id_len(s: Seq<Edge>)
    ensures
        edges_by_id(s).dom().finite(),
        forall|k: Seq<char>| #[trigger] edges_by_id(s).dom().contains(k) ==> exists|i: int| 0 <= i < s.len() && s[i].id@ == k,
        edge_ids_distinct(s) ==> edges_by_id(s).dom().len() == s.len(),
    decreases s.len(),
{
    if s.len() > 0 {
        let init = s.drop_last();
        lemma_edges_by_id_len(init);
        assert forall|k: Seq<char>| #[trigger] edges_by_id(s).dom().contains(k) implies exists|i: int| 0 <= i < s.len() && s[i].id@ == k by {
            if k != s.last().id@ {
                let i = choose|i: int| 0 <= i < init.len() && init[i].id@ == k;
                assert(s[i].id@ == k);
            } else {
                assert(s[s.len() - 1].id@ == k);
            }
        }
        if edge_ids_distinct(s) {
            assert(edge_ids_distinct(init)) by {
                assert forall|i: int, j: int| 0 <= i < init.len() && 0 <= j < init.len() && i != j implies #[trigger] init[i].id@ != #[trigger] init[j].id@ by {
                    assert(init[i] == s[i] && init[j] == s[j]);
                }
            }
            if edges_by_id(init).dom().contains(s.last().id@) {
                let i = choose|i: int| 0 <= i < init.len() && init[i].id@ == s.last().id@;
                assert(s[i].id@ == s[s.len() - 1].id@);
            }
        }
    }
}

/// With distinct ids, the nodes map has one key per node.
pub proof fn lemma_nodes_by_id_len<F>(s: Seq<Node<F>>)
    requires
        ids_distinct(s),
    ensures
        nodes_by_id(s).dom().finite(),
        nodes_by_id(s).dom().len() == s.len(),
    decreases s.len(),
{
    if s.len() > 0 {
        let init = s.drop_last();
        assert(ids_distinct(init)) by {
            assert forall|i: int, j: int| 0 <= i < init.len() && 0 <= j < init.len() && i != j implies #[trigger] init[i].id@ != #[trigger] init[j].id@ by {
                assert(init[i] == s[i] && init[j] == s[j]);
            }
        }
        lemma_nodes_by_id_len(init);
        lemma_nodes_by_id_dom(init, s.last().id@);
        if nodes_by_id(init).dom().contains(s.last().id@) {
            let i = choose|i: int| 0 <= i < init.len() && #[trigger] init[i].id@ == s.last().id@;
            assert(s[i].id@ == s[s.len() - 1].id@);
        }
    }
}

/// The ids of the nodes are the keys of the nodes map.
proof fn lemma_nodes_by_id_dom<F>(s: Seq<Node<F>>, k: Seq<char>)
    ensures
        nodes_by_id(s).dom().contains(k) <==> exists|i: int| 0 <= i < s.len() && #[trigger] s[i].id@ == k,
    decreases s.len(),
{
    if s.len() > 0 {
        let init = s.drop_last();
        lemma_nodes_by_id_dom(init, k);
        if exists|i: int| 0 <= i < init.len() && #[trigger] init[i].id@ == k {
            let i = choose|i: int| 0 <= i < init.len() && #[trigger] init[i].id@ == k;
            assert(s[i].id@ == k);
        }
        if exists|i: int| 0 <= i < s.len() && #[trigger] s[i].id@ == k {
            let i = choose|i: int| 0 <= i < s.len() && #[trigger] s[i].id@ == k;
            if i < s.len() - 1 {
                assert(init[i].id@ == k);
            }
        }
    }
}

/// The lists of the nodes `ks` hold as many ids as the edges there leave or enter.
proof fn lemma_total_listed<F>(w: Workflow<F>, ks: Seq<Seq<char>>, outgoing: bool)
    requires
        outgoing ==> forall|j: int| 0 <= j < ks.len() ==> w.adjacency_list().dom().contains(#[trigger] ks[j]),
        !outgoing ==> forall|j: int| 0 <= j < ks.len() ==> w.reverse_adjacency_list().dom().contains(#[trigger] ks[j]),
    ensures
        total_listed(if outgoing { w.adjacency_list() } else { w.reverse_adjacency_list() }, ks)
            == listed_count(w.edge_seq(), ks, outgoing),
    decreases ks.len(),
{
    if ks.len() > 0 {
        let init = ks.drop_last();
        assert forall|j: int| 0 <= j < init.len() implies (outgoing ==> w.adjacency_list().dom().contains(#[trigger] init[j]))
            && (!outgoing ==> w.reverse_adjacency_list().dom().contains(init[j])) by {
            assert(init[j] == ks[j]);
        }
        lemma_total_listed(w, init, outgoing);
        assert(ks.last() == ks[ks.len() - 1]);
    }
}

impl<F> Workflow<F> {
    /// The maps of a workflow agree. Every edge id listed for a node, outgoing
    /// or incoming, is a key of the edges map. An edge's source (or target) is
    /// a node of the workflow exactly when the nodes map has its id. And over
    /// the node ids of the adjacency list (or of the reverse one), each taken
    /// once, the lists hold as many ids as there are edges: each edge is
    /// listed once, under its source, and once, under its target. When no
    /// two edges share an id, that is also the number of keys of the edges
    /// map.
    pub proof fn law_maps_agree(&self, ks: Seq<Seq<char>>, ls: Seq<Seq<char>>)
        requires
            self.wf(),
            ks.no_duplicates(),
            ks.to_set() == self.adjacency_list().dom(),
            ls.no_duplicates(),
            ls.to_set() == self.reverse_adjacency_list().dom(),
        ensures
            forall|k: Seq<char>, j: int|
                self.adjacency_list().dom().contains(k) && 0 <= j < self.adjacency_list()[k].len()
                    ==> self.edges_map().dom().contains(#[trigger] self.adjacency_list()[k][j]),
            forall|k: Seq<char>, j: int|
                self.reverse_adjacency_list().dom().contains(k) && 0 <= j
                    < self.reverse_adjacency_list()[k].len() ==> self.edges_map().dom().contains(
                    #[trigger] self.reverse_adjacency_list()[k][j],
                ),
            forall|e: int|
                0 <= e < self.edge_seq().len() ==> (self.src()[e] is Some <==> self.nodes_map().dom().contains(
                    #[trigger] self.edge_seq()[e].from_node_id@,
                )),
            forall|e: int|
                0 <= e < self.edge_seq().len() ==> (self.dst()[e] is Some <==> self.nodes_map().dom().contains(
                    (#[trigger] self.edge_seq()[e]).to_node_id@,
                )),
            total_listed(self.adjacency_list(), ks) == self.edge_seq().len(),
            total_listed(self.reverse_adjacency_list(), ls) == self.edge_seq().len(),
            edge_ids_distinct(self.edge_seq()) ==> self.edges_map().dom().len() == self.edge_seq().len(),
    {
        lemma_edges_by_id_len(self.edge_seq());
        let es = self.edge_seq();
        lemma_edges_by_id_dom(es);
        assert forall|k: Seq<char>, j: int|
            self.adjacency_list().dom().contains(k) && 0 <= j < self.adjacency_list()[k].len()
                implies self.edges_map().dom().contains(#[trigger] self.adjacency_list()[k][j]) by {
            lemma_filter_members(es, leaves(k));
            let x = es.filter(leaves(k))[j];
            let i = choose|i: int| 0 <= i < es.len() && es[i] == x;
            assert(es[i].id@ == self.adjacency_list()[k][j]);
        }
        assert forall|k: Seq<char>, j: int|
            self.reverse_adjacency_list().dom().contains(k) && 0 <= j < self.reverse_adjacency_list()[k].len()
                implies self.edges_map().dom().contains(#[trigger] self.reverse_adjacency_list()[k][j]) by {
            lemma_filter_members(es, enters(k));
            let x = es.filter(enters(k))[j];
            let i = choose|i: int| 0 <= i < es.len() && es[i] == x;
            assert(es[i].id@ == self.reverse_adjacency_list()[k][j]);
        }
        assert forall|e: int| 0 <= e < es.len() implies (self.src()[e] is Some <==> self.nodes_map().dom().contains(
            #[trigger] es[e].from_node_id@,
        )) by {
            lemma_nodes_by_id_dom(self.node_seq(), es[e].from_node_id@);
            assert(locates(self.node_seq(), es[e].from_node_id@, self.src()[e]));
        }
        assert forall|e: int| 0 <= e < es.len() implies (self.dst()[e] is Some <==> self.nodes_map().dom().contains(
            (#[trigger] es[e]).to_node_id@,
        )) by {
            lemma_nodes_by_id_dom(self.node_seq(), es[e].to_node_id@);
            assert(locates(self.node_seq(), es[e].to_node_id@, self.dst()[e]));
        }
        assert forall|j: int| 0 <= j < ks.len() implies self.adjacency_list().dom().contains(#[trigger] ks[j]) by {
            assert(ks.to_set().contains(ks[j]));
        }
        assert forall|j: int| 0 <= j < ls.len() implies self.reverse_adjacency_list().dom().contains(#[trigger] ls[j]) by {
            assert(ls.to_set().contains(ls[j]));
        }
        lemma_total_listed(*self, ks, true);
        lemma_total_listed(*self, ls, false);
        assert forall|i: int| 0 <= i < es.len() implies ks.contains(end_id(true, #[trigger] es[i])) by {
            assert(self.adjacency_list().dom().contains(es[i].from_node_id@));
            assert(ks.to_set().contains(es[i].from_node_id@));
        }
        assert forall|i: int| 0 <= i < es.len() implies ls.contains(end_id(false, #[trigger] es[i])) by {
            assert(self.reverse_adjacency_list().dom().contains(es[i].to_node_id@));
            assert(ls.to_set().contains(es[i].to_node_id@));
        }
        lemma_listed_count_all(es, ks, true);
        lemma_listed_count_all(es, ls, false);
    }
}

} // verus!
