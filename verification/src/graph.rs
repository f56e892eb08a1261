//! A graph over zero-based node indices, with edges stored in insertion
//! order so that an edge's index doubles as its identity.  A compile-time
//! marker decides whether an added edge is directed or undirected.

pub mod bfs;
pub mod dijkstra;

pub use bfs::BFS;
pub use dijkstra::Dijkstra;
pub use dijkstra::Weight;

use vstd::prelude::*;

verus! {

/// Index of a node in a graph's node table.
pub type NodeIdx = usize;

/// Index of an edge in a graph's edge table.
pub type EdgeIdx = usize;

/// An ordered pair of node indices; immutable once created.
#[derive(Debug, Default, Clone, Copy, Hash, PartialEq, Eq, PartialOrd, Ord, Structural)]
pub struct Edge {
    source: NodeIdx,
    target: NodeIdx,
}

impl Edge {
    /// The source node index.
    pub closed spec fn src(self) -> int {
        self.source as int
    }

    /// The target node index.
    pub closed spec fn tgt(self) -> int {
        self.target as int
    }

    /// The same pair with source and target swapped.
    pub closed spec fn reversed(self) -> Edge {
        Edge { source: self.target, target: self.source }
    }

    /// Two edges are mirror images of each other.
    pub open spec fn is_reverse_of(self, other: Edge) -> bool {
        self.src() == other.tgt() && self.tgt() == other.src()
    }

    /// Create an edge from a source and a target node index.
    pub fn new(source: NodeIdx, target: NodeIdx) -> (r: Edge)
        ensures
            r.src() == source,
            r.tgt() == target,
    {
        Edge { source, target }
    }

    /// The source node index.
    pub fn source(&self) -> (r: NodeIdx)
        ensures
            r as int == self.src(),
    {
        self.source
    }

    /// The target node index.
    pub fn target(&self) -> (r: NodeIdx)
        ensures
            r as int == self.tgt(),
    {
        self.target
    }

    /// A new edge with source and target swapped; `self` is unchanged.
    pub fn reverse(&self) -> (r: Edge)
        ensures
            r == self.reversed(),
            r.src() == self.tgt(),
            r.tgt() == self.src(),
    {
        Edge { source: self.target, target: self.source }
    }
}

/// A node's adjacency: the edges leaving it and the edges entering it,
/// each paired with the edge's index, in insertion order.
#[derive(Debug, Clone)]
pub struct Node {
    in_edges: Vec<(Edge, EdgeIdx)>,
    out_edges: Vec<(Edge, EdgeIdx)>,
}

/// Marker choosing directed `add_edge` semantics.
#[derive(Debug)]
pub struct Directed {}

/// Marker choosing undirected `add_edge` semantics.
#[derive(Debug)]
pub struct Undirected {}

/// Graph structure: a node table and an edge table.  The marker `D`
/// fixes, at the type level, how `add_edge` fills the adjacency lists.
#[derive(Debug)]
pub struct Graph<D> {
    nodes: Vec<Node>,
    edges: Vec<Edge>,
    d: core::marker::PhantomData<D>,
}

/// Directed graph: each added edge appears once, leaving its source.
pub type DiGraph = Graph<Directed>;

/// Undirected graph: each added edge appears in the out-adjacency of
/// both endpoints, under a single canonical edge index.
pub type UnGraph = Graph<Undirected>;

/// The out-adjacency a directed graph's node `i` holds after the edges
/// `edges` were added in order: the edges with source `i`, each with its
/// index, in insertion order.
pub open spec fn di_out_entries(edges: Seq<Edge>, i: int) -> Seq<(Edge, EdgeIdx)>
    decreases edges.len(),
{
    if edges.len() == 0 {
        Seq::empty()
    } else {
        let k = edges.len() - 1;
        di_out_entries(edges.drop_last(), i) + if edges[k].src() == i {
            seq![(edges[k], k as EdgeIdx)]
        } else {
            Seq::empty()
        }
    }
}

/// The in-adjacency a directed graph's node `i` holds after the edges
/// `edges` were added in order.
pub open spec fn di_in_entries(edges: Seq<Edge>, i: int) -> Seq<(Edge, EdgeIdx)>
    decreases edges.len(),
{
    if edges.len() == 0 {
        Seq::empty()
    } else {
        let k = edges.len() - 1;
        di_in_entries(edges.drop_last(), i) + if edges[k].tgt() == i {
            seq![(edges[k], k as EdgeIdx)]
        } else {
            Seq::empty()
        }
    }
}

/// What one added undirected edge `e` with index `k` contributes to node
/// `i`'s out-adjacency: the original orientation when `i` is the source,
/// the reversed orientation when `i` is the target.
pub open spec fn un_out_contribution(e: Edge, k: EdgeIdx, i: int) -> Seq<(Edge, EdgeIdx)> {
    if e.src() == i && e.tgt() == i {
        seq![(e, k), (e.reversed(), k)]
    } else if e.src() == i {
        seq![(e, k)]
    } else if e.tgt() == i {
        seq![(e.reversed(), k)]
    } else {
        Seq::empty()
    }
}

/// What one added undirected edge `e` with index `k` contributes to node
/// `i`'s in-adjacency.
pub open spec fn un_in_contribution(e: Edge, k: EdgeIdx, i: int) -> Seq<(Edge, EdgeIdx)> {
    if e.src() == i && e.tgt() == i {
        seq![(e.reversed(), k), (e, k)]
    } else if e.src() == i {
        seq![(e.reversed(), k)]
    } else if e.tgt() == i {
        seq![(e, k)]
    } else {
        Seq::empty()
    }
}

/// The out-adjacency an undirected graph's node `i` holds after the
/// edges `edges` were added in order.
pub open spec fn un_out_entries(edges: Seq<Edge>, i: int) -> Seq<(Edge, EdgeIdx)>
    decreases edges.len(),
{
    if edges.len() == 0 {
        Seq::empty()
    } else {
        let k = edges.len() - 1;
        un_out_entries(edges.drop_last(), i) + un_out_contribution(edges[k], k as EdgeIdx, i)
    }
}

/// The in-adjacency an undirected graph's node `i` holds after the
/// edges `edges` were added in order.
pub open spec fn un_in_entries(edges: Seq<Edge>, i: int) -> Seq<(Edge, EdgeIdx)>
    decreases edges.len(),
{
    if edges.len() == 0 {
        Seq::empty()
    } else {
        let k = edges.len() - 1;
        un_in_entries(edges.drop_last(), i) + un_in_contribution(edges[k], k as EdgeIdx, i)
    }
}

/// One traversal step exists from `a` to `b`: some out-adjacency
/// entry of `a` leads to `b`.
pub open spec fn step_ok<D>(g: Graph<D>, a: int, b: int) -> bool {
    exists|j: int| 0 <= j < g.out_seq(a).len() && (#[trigger] g.out_seq(a)[j]).0.tgt() == b
}

/// `to` can be reached from `from` in exactly `hops` traversal steps.
pub open spec fn is_route<D>(g: Graph<D>, from: int, to: int, hops: nat) -> bool
    decreases hops,
{
    if hops == 0 {
        to == from
    } else {
        exists|m: int|
            #![trigger step_ok(g, m, to)]
            {
                &&& 0 <= m < g.n_nodes_spec()
                &&& is_route(g, from, m, (hops - 1) as nat)
                &&& step_ok(g, m, to)
            }
    }
}

impl<D> Graph<D> {
    /// Number of nodes.
    pub closed spec fn n_nodes_spec(self) -> int {
        self.nodes@.len() as int
    }

    /// The edge table, in insertion order.
    pub closed spec fn edge_seq(self) -> Seq<Edge> {
        self.edges@
    }

    /// Node `i`'s out-adjacency entries, in insertion order.
    pub closed spec fn out_seq(self, i: int) -> Seq<(Edge, EdgeIdx)> {
        self.nodes@[i].out_edges@
    }

    /// Node `i`'s in-adjacency entries, in insertion order.
    pub closed spec fn in_seq(self, i: int) -> Seq<(Edge, EdgeIdx)> {
        self.nodes@[i].in_edges@
    }

    /// Every edge's endpoints name existing nodes.
    pub open spec fn endpoints_ok(self) -> bool {
        forall|k: int|
            0 <= k < self.edge_seq().len() ==> {
                &&& 0 <= (#[trigger] self.edge_seq()[k]).src() < self.n_nodes_spec()
                &&& 0 <= self.edge_seq()[k].tgt() < self.n_nodes_spec()
            }
    }

    /// What a traversal needs of any graph, directed or undirected:
    /// each out-adjacency entry of node `i` is an orientation of the
    /// edge stored under its index, leaves `i`, and stays in range.
    pub open spec fn wf_adj(self) -> bool {
        forall|i: int, j: int|
            0 <= i < self.n_nodes_spec() && 0 <= j < self.out_seq(i).len() ==> {
                let (e, k) = #[trigger] self.out_seq(i)[j];
                &&& 0 <= k < self.edge_seq().len()
                &&& e.src() == i
                &&& 0 <= e.tgt() < self.n_nodes_spec()
                &&& (e == self.edge_seq()[k as int] || e.is_reverse_of(self.edge_seq()[k as int]))
            }
    }

    /// A directed graph's invariant: every adjacency list holds exactly
    /// what adding the edge table in order produces.
    pub open spec fn wf_directed(self) -> bool {
        &&& self.endpoints_ok()
        &&& forall|i: int|
            0 <= i < self.n_nodes_spec() ==> #[trigger] self.out_seq(i) == di_out_entries(
                self.edge_seq(),
                i,
            )
        &&& forall|i: int|
            0 <= i < self.n_nodes_spec() ==> #[trigger] self.in_seq(i) == di_in_entries(
                self.edge_seq(),
                i,
            )
    }

    /// An undirected graph's invariant: every adjacency list holds
    /// exactly what adding the edge table in order produces, each edge
    /// in both orientations.
    pub open spec fn wf_undirected(self) -> bool {
        &&& self.endpoints_ok()
        &&& forall|i: int|
            0 <= i < self.n_nodes_spec() ==> #[trigger] self.out_seq(i) == un_out_entries(
                self.edge_seq(),
                i,
            )
        &&& forall|i: int|
            0 <= i < self.n_nodes_spec() ==> #[trigger] self.in_seq(i) == un_in_entries(
                self.edge_seq(),
                i,
            )
    }

    /// Create an empty graph: no nodes, no edges.
    pub fn new() -> (r: Graph<D>)
        ensures
            r.n_nodes_spec() == 0,
            r.edge_seq().len() == 0,
            r.wf_directed(),
            r.wf_undirected(),
            r.wf_adj(),
    {
        Graph { nodes: Vec::new(), edges: Vec::new(), d: core::marker::PhantomData }
    }

    /// Create a graph with `n_nodes` isolated nodes and no edges.
    pub fn with_nodes(n_nodes: usize) -> (r: Graph<D>)
        ensures
            r.n_nodes_spec() == n_nodes,
            r.edge_seq().len() == 0,
            forall|i: int| 0 <= i < n_nodes ==> (#[trigger] r.out_seq(i)).len() == 0,
            forall|i: int| 0 <= i < n_nodes ==> (#[trigger] r.in_seq(i)).len() == 0,
            r.wf_directed(),
            r.wf_undirected(),
            r.wf_adj(),
    {
        let mut nodes: Vec<Node> = Vec::new();
        let mut i: usize = 0;
        while i < n_nodes
            invariant
                i <= n_nodes,
                nodes@.len() == i,
                forall|j: int|
                    0 <= j < i ==> (#[trigger] nodes@[j]).out_edges@.len() == 0
                        && nodes@[j].in_edges@.len() == 0,
            decreases n_nodes - i,
        {
            nodes.push(Node { in_edges: Vec::new(), out_edges: Vec::new() });
            i = i + 1;
        }
        let r = Graph { nodes, edges: Vec::new(), d: core::marker::PhantomData };
        proof {
            assert forall|j: int| 0 <= j < n_nodes implies #[trigger] r.out_seq(j)
                == di_out_entries(r.edge_seq(), j) && r.out_seq(j) == un_out_entries(
                r.edge_seq(),
                j,
            ) by {
                assert(r.out_seq(j) =~= Seq::<(Edge, EdgeIdx)>::empty());
            }
            assert forall|j: int| 0 <= j < n_nodes implies #[trigger] r.in_seq(j) == di_in_entries(
                r.edge_seq(),
                j,
            ) && r.in_seq(j) == un_in_entries(r.edge_seq(), j) by {
                assert(r.in_seq(j) =~= Seq::<(Edge, EdgeIdx)>::empty());
            }
        }
        r
    }

    /// The out-adjacency of `node`: pairs of (edge, edge index) in
    /// insertion order.
    pub fn out_edges(&self, node: NodeIdx) -> (r: &Vec<(Edge, EdgeIdx)>)
        requires
            node < self.n_nodes_spec(),
        ensures
            r@ == self.out_seq(node as int),
    {
        &self.nodes[node].out_edges
    }

    /// The in-adjacency of `node`: pairs of (edge, edge index) in
    /// insertion order.
    pub fn in_edges(&self, node: NodeIdx) -> (r: &Vec<(Edge, EdgeIdx)>)
        requires
            node < self.n_nodes_spec(),
        ensures
            r@ == self.in_seq(node as int),
    {
        &self.nodes[node].in_edges
    }

    /// The number of nodes.
    pub fn n_nodes(&self) -> (r: usize)
        ensures
            r == self.n_nodes_spec(),
    {
        self.nodes.len()
    }

    /// The number of edges.
    pub fn n_edges(&self) -> (r: usize)
        ensures
            r == self.edge_seq().len(),
    {
        self.edges.len()
    }

    /// The edge table, in insertion order.
    pub fn edges(&self) -> (r: &Vec<Edge>)
        ensures
            r@ == self.edge_seq(),
    {
        &self.edges
    }
}

/// Each entry of a directed out-adjacency list is the edge stored
/// under its index, and leaves the node holding the list.
proof fn lemma_di_out_entry(edges: Seq<Edge>, i: int, j: int)
    requires
        edges.len() <= usize::MAX,
        0 <= j < di_out_entries(edges, i).len(),
    ensures
        ({
            let (e, k) = di_out_entries(edges, i)[j];
            &&& 0 <= k < edges.len()
            &&& e == edges[k as int]
            &&& e.src() == i
        }),
    decreases edges.len(),
{
    if edges.len() > 0 {
        let prefix = di_out_entries(edges.drop_last(), i);
        if j < prefix.len() {
            lemma_di_out_entry(edges.drop_last(), i, j);
            let (e, k) = prefix[j];
            assert(edges.drop_last()[k as int] == edges[k as int]);
        }
    }
}

/// Each entry of an undirected out-adjacency list is an orientation of
/// the edge stored under its index, and leaves the node holding the
/// list.
proof fn lemma_un_out_entry(edges: Seq<Edge>, i: int, j: int)
    requires
        edges.len() <= usize::MAX,
        0 <= j < un_out_entries(edges, i).len(),
    ensures
        ({
            let (e, k) = un_out_entries(edges, i)[j];
            &&& 0 <= k < edges.len()
            &&& (e == edges[k as int] || e.is_reverse_of(edges[k as int]))
            &&& e.src() == i
        }),
    decreases edges.len(),
{
    if edges.len() > 0 {
        let prefix = un_out_entries(edges.drop_last(), i);
        if j < prefix.len() {
            lemma_un_out_entry(edges.drop_last(), i, j);
            let (e, k) = prefix[j];
            assert(edges.drop_last()[k as int] == edges[k as int]);
        }
    }
}

/// A well-formed directed graph has a sound adjacency for traversal.
pub proof fn lemma_wf_directed_adj<D>(g: Graph<D>)
    requires
        g.wf_directed(),
        g.edge_seq().len() <= usize::MAX,
    ensures
        g.wf_adj(),
{
    assert forall|i: int, j: int|
        0 <= i < g.n_nodes_spec() && 0 <= j < g.out_seq(i).len() implies {
        let (e, k) = #[trigger] g.out_seq(i)[j];
        &&& 0 <= k < g.edge_seq().len()
        &&& e.src() == i
        &&& 0 <= e.tgt() < g.n_nodes_spec()
        &&& (e == g.edge_seq()[k as int] || e.is_reverse_of(g.edge_seq()[k as int]))
    } by {
        lemma_di_out_entry(g.edge_seq(), i, j);
    }
}

/// A well-formed undirected graph has a sound adjacency for traversal.
pub proof fn lemma_wf_undirected_adj<D>(g: Graph<D>)
    requires
        g.wf_undirected(),
        g.edge_seq().len() <= usize::MAX,
    ensures
        g.wf_adj(),
{
    assert forall|i: int, j: int|
        0 <= i < g.n_nodes_spec() && 0 <= j < g.out_seq(i).len() implies {
        let (e, k) = #[trigger] g.out_seq(i)[j];
        &&& 0 <= k < g.edge_seq().len()
        &&& e.src() == i
        &&& 0 <= e.tgt() < g.n_nodes_spec()
        &&& (e == g.edge_seq()[k as int] || e.is_reverse_of(g.edge_seq()[k as int]))
    } by {
        lemma_un_out_entry(g.edge_seq(), i, j);
    }
}

impl DiGraph {
    /// Add a directed edge; its endpoints must be existing nodes.  The
    /// edge is appended to the edge table, to its source's
    /// out-adjacency and to its target's in-adjacency, and its index
    /// is returned.
    pub fn add_edge(&mut self, edge: Edge) -> (r: EdgeIdx)
        requires
            old(self).wf_directed(),
            0 <= edge.src() < old(self).n_nodes_spec(),
            0 <= edge.tgt() < old(self).n_nodes_spec(),
        ensures
            final(self).wf_directed(),
            final(self).wf_adj(),
            final(self).n_nodes_spec() == old(self).n_nodes_spec(),
            final(self).edge_seq() == old(self).edge_seq().push(edge),
            r == old(self).edge_seq().len(),
            forall|i: int|
                0 <= i < old(self).n_nodes_spec() ==> #[trigger] final(self).out_seq(i) == if i
                    == edge.src() {
                    old(self).out_seq(i).push((edge, r))
                } else {
                    old(self).out_seq(i)
                },
            forall|i: int|
                0 <= i < old(self).n_nodes_spec() ==> #[trigger] final(self).in_seq(i) == if i
                    == edge.tgt() {
                    old(self).in_seq(i).push((edge, r))
                } else {
                    old(self).in_seq(i)
                },
    {
        let edge_idx = self.edges.len();
        let source = edge.source;
        let target = edge.target;
        self.nodes[source].out_edges.push((edge, edge_idx));
        self.nodes[target].in_edges.push((edge, edge_idx));
        self.edges.push(edge);
        proof {
            let g0 = *old(self);
            let g1 = *self;
            vstd::std_specs::vec::axiom_spec_len(&self.edges);
            assert(g1.edge_seq().len() <= usize::MAX);
            assert(g1.edge_seq().drop_last() =~= g0.edge_seq());
            assert forall|i: int| 0 <= i < g0.n_nodes_spec() implies #[trigger] g1.out_seq(i)
                == di_out_entries(g1.edge_seq(), i) && g1.out_seq(i) == if i == edge.src() {
                g0.out_seq(i).push((edge, edge_idx))
            } else {
                g0.out_seq(i)
            } by {
                if i == edge.src() {
                    assert(g0.out_seq(i).push((edge, edge_idx)) =~= di_out_entries(
                        g0.edge_seq(),
                        i,
                    ) + seq![(edge, edge_idx)]);
                } else {
                    assert(g0.out_seq(i) =~= di_out_entries(g0.edge_seq(), i) + Seq::empty());
                }
            }
            assert forall|i: int| 0 <= i < g0.n_nodes_spec() implies #[trigger] g1.in_seq(i)
                == di_in_entries(g1.edge_seq(), i) && g1.in_seq(i) == if i == edge.tgt() {
                g0.in_seq(i).push((edge, edge_idx))
            } else {
                g0.in_seq(i)
            } by {
                if i == edge.tgt() {
                    assert(g0.in_seq(i).push((edge, edge_idx)) =~= di_in_entries(g0.edge_seq(), i)
                        + seq![(edge, edge_idx)]);
                } else {
                    assert(g0.in_seq(i) =~= di_in_entries(g0.edge_seq(), i) + Seq::empty());
                }
            }
            lemma_wf_directed_adj(g1);
        }
        edge_idx
    }

    /// Create a directed graph with `n_nodes` isolated nodes, then add
    /// the given edges in order.
    pub fn with_edges(n_nodes: usize, edges: &Vec<Edge>) -> (r: DiGraph)
        requires
            forall|k: int|
                0 <= k < edges@.len() ==> 0 <= (#[trigger] edges@[k]).src() < n_nodes && 0
                    <= edges@[k].tgt() < n_nodes,
        ensures
            r.wf_directed(),
            r.wf_adj(),
            r.n_nodes_spec() == n_nodes,
            r.edge_seq() == edges@,
    {
        let mut graph = Self::with_nodes(n_nodes);
        let mut i: usize = 0;
        while i < edges.len()
            invariant
                i <= edges@.len(),
                graph.wf_directed(),
                graph.n_nodes_spec() == n_nodes,
                graph.edge_seq() == edges@.subrange(0, i as int),
                forall|k: int|
                    0 <= k < edges@.len() ==> 0 <= (#[trigger] edges@[k]).src() < n_nodes && 0
                        <= edges@[k].tgt() < n_nodes,
            decreases edges@.len() - i,
        {
            graph.add_edge(edges[i]);
            i = i + 1;
            proof {
                assert(graph.edge_seq() =~= edges@.subrange(0, i as int));
            }
        }
        proof {
            assert(graph.edge_seq() =~= edges@);
            vstd::std_specs::vec::axiom_spec_len(edges);
            lemma_wf_directed_adj(graph);
        }
        graph
    }
}

impl UnGraph {
    /// Add an undirected edge; its endpoints must be existing nodes.
    /// The edge is appended to the edge table once, under a single
    /// index, and each endpoint's adjacency gains the orientation that
    /// leaves (out) or enters (in) it.
    pub fn add_edge(&mut self, edge: Edge) -> (r: EdgeIdx)
        requires
            old(self).wf_undirected(),
            0 <= edge.src() < old(self).n_nodes_spec(),
            0 <= edge.tgt() < old(self).n_nodes_spec(),
        ensures
            final(self).wf_undirected(),
            final(self).wf_adj(),
            final(self).n_nodes_spec() == old(self).n_nodes_spec(),
            final(self).edge_seq() == old(self).edge_seq().push(edge),
            r == old(self).edge_seq().len(),
            forall|i: int|
                0 <= i < old(self).n_nodes_spec() ==> #[trigger] final(self).out_seq(i) == old(
                    self,
                ).out_seq(i) + un_out_contribution(edge, r, i),
            forall|i: int|
                0 <= i < old(self).n_nodes_spec() ==> #[trigger] final(self).in_seq(i) == old(
                    self,
                ).in_seq(i) + un_in_contribution(edge, r, i),
    {
        let edge_idx = self.edges.len();
        let source = edge.source;
        let target = edge.target;
        let reversed = edge.reverse();
        self.nodes[source].out_edges.push((edge, edge_idx));
        self.nodes[source].in_edges.push((reversed, edge_idx));
        self.nodes[target].in_edges.push((edge, edge_idx));
        self.nodes[target].out_edges.push((reversed, edge_idx));
        self.edges.push(edge);
        proof {
            let g0 = *old(self);
            let g1 = *self;
            vstd::std_specs::vec::axiom_spec_len(&self.edges);
            assert(g1.edge_seq().len() <= usize::MAX);
            assert(g1.edge_seq().drop_last() =~= g0.edge_seq());
            assert forall|i: int| 0 <= i < g0.n_nodes_spec() implies #[trigger] g1.out_seq(i)
                == un_out_entries(g1.edge_seq(), i) && g1.out_seq(i) == g0.out_seq(i)
                + un_out_contribution(edge, edge_idx, i) by {
                assert(g1.edge_seq()[g1.edge_seq().len() - 1] == edge);
                assert(un_out_entries(g1.edge_seq(), i) == un_out_entries(g0.edge_seq(), i)
                    + un_out_contribution(edge, edge_idx, i));
                if i == edge.src() && i == edge.tgt() {
                    assert(g1.out_seq(i) =~= g0.out_seq(i) + seq![
                        (edge, edge_idx),
                        (edge.reversed(), edge_idx),
                    ]);
                } else if i == edge.src() {
                    assert(g1.out_seq(i) =~= g0.out_seq(i) + seq![(edge, edge_idx)]);
                } else if i == edge.tgt() {
                    assert(g1.out_seq(i) =~= g0.out_seq(i) + seq![(edge.reversed(), edge_idx)]);
                } else {
                    assert(g1.out_seq(i) =~= g0.out_seq(i) + Seq::empty());
                }
            }
            assert forall|i: int| 0 <= i < g0.n_nodes_spec() implies #[trigger] g1.in_seq(i)
                == un_in_entries(g1.edge_seq(), i) && g1.in_seq(i) == g0.in_seq(i)
                + un_in_contribution(edge, edge_idx, i) by {
                assert(g1.edge_seq()[g1.edge_seq().len() - 1] == edge);
                assert(un_in_entries(g1.edge_seq(), i) == un_in_entries(g0.edge_seq(), i)
                    + un_in_contribution(edge, edge_idx, i));
                if i == edge.src() && i == edge.tgt() {
                    assert(g1.in_seq(i) =~= g0.in_seq(i) + seq![
                        (edge.reversed(), edge_idx),
                        (edge, edge_idx),
                    ]);
                } else if i == edge.src() {
                    assert(g1.in_seq(i) =~= g0.in_seq(i) + seq![(edge.reversed(), edge_idx)]);
                } else if i == edge.tgt() {
                    assert(g1.in_seq(i) =~= g0.in_seq(i) + seq![(edge, edge_idx)]);
                } else {
                    assert(g1.in_seq(i) =~= g0.in_seq(i) + Seq::empty());
                }
            }
            lemma_wf_undirected_adj(g1);
        }
        edge_idx
    }

    /// Create an undirected graph with `n_nodes` isolated nodes, then
    /// add the given edges in order.
    pub fn with_edges(n_nodes: usize, edges: &Vec<Edge>) -> (r: UnGraph)
        requires
            forall|k: int|
                0 <= k < edges@.len() ==> 0 <= (#[trigger] edges@[k]).src() < n_nodes && 0
                    <= edges@[k].tgt() < n_nodes,
        ensures
            r.wf_undirected(),
            r.wf_adj(),
            r.n_nodes_spec() == n_nodes,
            r.edge_seq() == edges@,
    {
        let mut graph = Self::with_nodes(n_nodes);
        let mut i: usize = 0;
        while i < edges.len()
            invariant
                i <= edges@.len(),
                graph.wf_undirected(),
                graph.n_nodes_spec() == n_nodes,
                graph.edge_seq() == edges@.subrange(0, i as int),
                forall|k: int|
                    0 <= k < edges@.len() ==> 0 <= (#[trigger] edges@[k]).src() < n_nodes && 0
                        <= edges@[k].tgt() < n_nodes,
            decreases edges@.len() - i,
        {
            graph.add_edge(edges[i]);
            i = i + 1;
            proof {
                assert(graph.edge_seq() =~= edges@.subrange(0, i as int));
            }
        }
        proof {
            assert(graph.edge_seq() =~= edges@);
            vstd::std_specs::vec::axiom_spec_len(edges);
            lemma_wf_undirected_adj(graph);
        }
        graph
    }
}

/// Undirected adjacency symmetry: for every edge (u, v) of a
/// well-formed undirected graph, v appears in u's out-adjacency in the
/// edge's own orientation and u appears in v's out-adjacency in the
/// reversed orientation, both under the edge's single canonical index.
pub proof fn lemma_undirected_adjacency_symmetry(g: UnGraph, k: int)
    requires
        g.wf_undirected(),
        g.edge_seq().len() <= usize::MAX,
        0 <= k < g.edge_seq().len(),
    ensures
        g.out_seq(g.edge_seq()[k].src()).contains((g.edge_seq()[k], k as EdgeIdx)),
        g.out_seq(g.edge_seq()[k].tgt()).contains((g.edge_seq()[k].reversed(), k as EdgeIdx)),
        g.edge_seq()[k].reversed().src() == g.edge_seq()[k].tgt(),
        g.edge_seq()[k].reversed().tgt() == g.edge_seq()[k].src(),
{
    lemma_un_out_entries_complete(g.edge_seq(), k);
}

/// Adding undirected edges in order puts each edge, under its index,
/// in the out-adjacency of both of its endpoints.
proof fn lemma_un_out_entries_complete(edges: Seq<Edge>, k: int)
    requires
        edges.len() <= usize::MAX,
        0 <= k < edges.len(),
    ensures
        un_out_entries(edges, edges[k].src()).contains((edges[k], k as EdgeIdx)),
        un_out_entries(edges, edges[k].tgt()).contains((edges[k].reversed(), k as EdgeIdx)),
    decreases edges.len(),
{
    let e = edges[k];
    if k == edges.len() - 1 {
        let prefix_src = un_out_entries(edges.drop_last(), e.src());
        let contribution_src = un_out_contribution(e, k as EdgeIdx, e.src());
        assert(contribution_src[0] == (e, k as EdgeIdx));
        assert(un_out_entries(edges, e.src())[prefix_src.len() as int] == (e, k as EdgeIdx));
        let prefix_tgt = un_out_entries(edges.drop_last(), e.tgt());
        let contribution_tgt = un_out_contribution(e, k as EdgeIdx, e.tgt());
        if e.src() == e.tgt() {
            assert(contribution_tgt[1] == (e.reversed(), k as EdgeIdx));
            assert(un_out_entries(edges, e.tgt())[prefix_tgt.len() as int + 1] == (
                e.reversed(),
                k as EdgeIdx,
            ));
        } else {
            assert(contribution_tgt[0] == (e.reversed(), k as EdgeIdx));
            assert(un_out_entries(edges, e.tgt())[prefix_tgt.len() as int] == (
                e.reversed(),
                k as EdgeIdx,
            ));
        }
    } else {
        lemma_un_out_entries_complete(edges.drop_last(), k);
        assert(edges.drop_last()[k] == e);
        let prefix_src = un_out_entries(edges.drop_last(), e.src());
        let j_src = choose|j: int|
            0 <= j < prefix_src.len() && prefix_src[j] == (e, k as EdgeIdx);
        assert(un_out_entries(edges, e.src())[j_src] == (e, k as EdgeIdx));
        let prefix_tgt = un_out_entries(edges.drop_last(), e.tgt());
        let j_tgt = choose|j: int|
            0 <= j < prefix_tgt.len() && prefix_tgt[j] == (e.reversed(), k as EdgeIdx);
        assert(un_out_entries(edges, e.tgt())[j_tgt] == (e.reversed(), k as EdgeIdx));
    }
}

} // verus!
