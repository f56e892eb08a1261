//! Breadth-first search: exact shortest hop-count distances and
//! predecessor edges from a root node, over any graph whose adjacency
//! is sound.

use vstd::prelude::*;
use vstd::set_lib::lemma_int_range;
use vstd::set_lib::lemma_len_subset;
use vstd::set_lib::set_int_range;

use crate::graph::{EdgeIdx, Graph, NodeIdx, is_route, step_ok};

verus! {

/// The nodes a distance table marks as reached.
pub open spec fn reached_set(dist: Seq<Option<usize>>) -> Set<int> {
    Set::new(|i: int| 0 <= i < dist.len() && dist[i] is Some)
}

/// The predecessor entry of node `t` is sound: it names the edge
/// index of an out-adjacency entry that leads from a reached node `m`
/// to `t`, and `t`'s distance is exactly one more than `m`'s — so
/// distances grow by single hops along predecessor edges.
pub open spec fn parent_edge_ok<D>(
    graph: Graph<D>,
    dist: Seq<Option<usize>>,
    through: Seq<Option<EdgeIdx>>,
    t: int,
) -> bool {
    match through[t] {
        Some(e) => exists|m: int, j: int|
            #![trigger graph.out_seq(m)[j]]
            {
                &&& 0 <= m < graph.n_nodes_spec()
                &&& 0 <= j < graph.out_seq(m).len()
                &&& graph.out_seq(m)[j].1 == e
                &&& graph.out_seq(m)[j].0.src() == m
                &&& graph.out_seq(m)[j].0.tgt() == t
                &&& match (dist[m], dist[t]) {
                    (Some(dm), Some(dt)) => dt == dm + 1,
                    _ => false,
                }
            },
        None => true,
    }
}

/// Node `u` is fully relaxed: if it is reached, every node one step
/// out of it is reached at most one hop later.
pub open spec fn expanded<D>(graph: Graph<D>, dist: Seq<Option<usize>>, u: int) -> bool {
    forall|j: int|
        0 <= j < graph.out_seq(u).len() ==> {
            let tgt = (#[trigger] graph.out_seq(u)[j]).0.tgt();
            match (dist[u], dist[tgt]) {
                (Some(du), Some(dt)) => dt <= du + 1,
                (Some(du), None) => false,
                _ => true,
            }
        }
}

/// Everything a finished breadth-first search promises about its
/// tables, for a graph and a root.  Together with the two route
/// lemmas below this pins the distances down exactly: a node's entry
/// is the least number of traversal steps from the root, and absent
/// exactly for unreachable nodes.
pub open spec fn result_ok<D>(r: BFS, graph: Graph<D>, root: NodeIdx) -> bool {
    let n = graph.n_nodes_spec();
    let dist = r.distance_seq();
    let through = r.through_seq();
    &&& r.root_spec() == root
    &&& dist.len() == n
    &&& through.len() == n
    &&& dist[root as int] == Some(0usize)
    &&& through[root as int] is None
    &&& forall|t: int|
        0 <= t < n && t != root as int ==> ((#[trigger] dist[t]) is Some <==> through[t] is Some)
    &&& forall|t: int| 0 <= t < n && #[trigger] dist[t] == Some(0usize) ==> t == root as int
    &&& forall|t: int|
        0 <= t < n ==> match #[trigger] dist[t] {
            Some(d) => d < n,
            None => true,
        }
    &&& forall|t: int| 0 <= t < n ==> parent_edge_ok(graph, dist, through, t)
    &&& forall|u: int| 0 <= u < n ==> expanded(graph, dist, u)
}

/// A breadth-first search result: for each node, the hop count from
/// the root at which it was first reached and the edge index used to
/// reach it, or nothing for the root and for unreached nodes.
#[derive(Debug)]
pub struct BFS {
    root: NodeIdx,
    distance: Vec<Option<usize>>,
    through: Vec<Option<EdgeIdx>>,
    next: Vec<NodeIdx>,
}

impl BFS {
    /// The root of the last search.
    pub closed spec fn root_spec(self) -> int {
        self.root as int
    }

    /// The distance table of the last search.
    pub closed spec fn distance_seq(self) -> Seq<Option<usize>> {
        self.distance@
    }

    /// The predecessor-edge table of the last search.
    pub closed spec fn through_seq(self) -> Seq<Option<EdgeIdx>> {
        self.through@
    }

    /// The distance recorded for the node the frontier holds at
    /// position `q`.
    spec fn queue_val(self, q: int) -> int {
        match self.distance@[self.next@[q] as int] {
            Some(d) => d as int,
            None => -1,
        }
    }

    /// Get the root node.
    pub fn root(&self) -> (r: NodeIdx)
        ensures
            r == self.root_spec(),
    {
        self.root
    }

    /// Get the hop distances, one slot per node.
    pub fn distance(&self) -> (r: &Vec<Option<usize>>)
        ensures
            r@ == self.distance_seq(),
    {
        &self.distance
    }

    /// Get the predecessor edges, one slot per node.
    pub fn through(&self) -> (r: &Vec<Option<EdgeIdx>>)
        ensures
            r@ == self.through_seq(),
    {
        &self.through
    }

    /// Create a search result for the graph from the root node.
    pub fn with_graph<D>(graph: &Graph<D>, root: NodeIdx) -> (r: BFS)
        requires
            graph.wf_adj(),
            root < graph.n_nodes_spec(),
        ensures
            result_ok(r, *graph, root),
    {
        let mut algo = BFS { root: 0, distance: Vec::new(), through: Vec::new(), next: Vec::new() };
        algo.read(graph, root);
        algo
    }

    /// Run the search for the graph from the root node, overwriting
    /// any earlier result.  Distances are assigned level by level: the
    /// root gets zero, and a node first reached over an out-edge of a
    /// frontier node gets that node's distance plus one; each node is
    /// enqueued at most once, and unreached nodes keep no distance and
    /// no predecessor.
    pub fn read<D>(&mut self, graph: &Graph<D>, root: NodeIdx)
        requires
            graph.wf_adj(),
            root < graph.n_nodes_spec(),
        ensures
            result_ok(*final(self), *graph, root),
    {
        let n = graph.n_nodes();
        self.root = root;
        self.distance = vec![None; n];
        self.through = vec![None; n];
        self.next = Vec::new();

        self.distance[root] = Some(0);
        proof {
            lemma_int_range(0, n as int);
            assert(reached_set(self.distance@) =~= Set::<int>::empty().insert(root as int));
            lemma_len_subset(reached_set(self.distance@), set_int_range(0, n as int));
        }

        // Seed the frontier with the root's out-edges, reaching each
        // yet-unreached neighbour at distance one.
        let out = graph.out_edges(root);
        let m_out = out.len();
        let mut j: usize = 0;
        while j < m_out
            invariant
                graph.wf_adj(),
                root < graph.n_nodes_spec(),
                n == graph.n_nodes_spec(),
                j <= m_out,
                m_out == graph.out_seq(root as int).len(),
                out@ == graph.out_seq(root as int),
                self.loop_inv(*graph, root),
                forall|x: int|
                    0 <= x < n ==> match #[trigger] self.distance@[x] {
                        Some(d) => d <= 1,
                        None => true,
                    },
                forall|jj: int|
                    0 <= jj < j ==> match self.distance@[(#[trigger] graph.out_seq(
                        root as int,
                    )[jj]).0.tgt()] {
                        Some(dt) => dt <= 1,
                        None => false,
                    },
            decreases m_out - j,
        {
            let (e, k) = out[j];
            let t = e.target();
            proof {
                assert(graph.out_seq(root as int)[j as int] == (e, k));
                assert(0 <= e.tgt() < graph.n_nodes_spec());
            }
            if self.distance[t].is_none() {
                self.reach(graph, root, root, t, k, 0);
            }
            j = j + 1;
        }

        // Drain the frontier in arrival order, expanding each popped
        // node's out-edges; the frontier's recorded distances never
        // decrease along the queue, and pending ones trail the one
        // under expansion by at most a hop, so a node reached earlier
        // can never sit more than one hop above it.
        let mut head: usize = 0;
        while head < self.next.len()
            invariant
                graph.wf_adj(),
                root < graph.n_nodes_spec(),
                n == graph.n_nodes_spec(),
                head <= self.next@.len(),
                self.loop_inv(*graph, root),
                expanded(*graph, self.distance@, root as int),
                forall|q: int|
                    0 <= q < head ==> expanded(
                        *graph,
                        self.distance@,
                        #[trigger] self.next@[q] as int,
                    ),
                head < self.next@.len() ==> forall|q: int|
                    head <= q < self.next@.len() ==> #[trigger] self.queue_val(q) <= self.queue_val(
                        head as int,
                    ) + 1,
            decreases self.next@.len() - head + n - reached_set(self.distance@).len(),
        {
            let u = self.next[head];
            let ghost head0 = head as int;
            proof {
                assert(0 <= self.next@[head as int] < n);
            }
            head = head + 1;
            let du = self.distance[u].unwrap();
            let ghost r0 = reached_set(self.distance@);
            let ghost len0 = self.next@.len();
            let out_u = graph.out_edges(u);
            let m_u = out_u.len();
            let mut j2: usize = 0;
            while j2 < m_u
                invariant
                    graph.wf_adj(),
                    root < graph.n_nodes_spec(),
                    n == graph.n_nodes_spec(),
                    u < n,
                    u != root,
                    j2 <= m_u,
                    m_u == graph.out_seq(u as int).len(),
                    out_u@ == graph.out_seq(u as int),
                    self.distance@[u as int] == Some(du),
                    0 <= head0 < self.next@.len(),
                    head == head0 + 1,
                    self.next@[head0] == u,
                    du as int == self.queue_val(head0),
                    self.loop_inv(*graph, root),
                    expanded(*graph, self.distance@, root as int),
                    forall|q: int|
                        0 <= q < head0 ==> expanded(
                            *graph,
                            self.distance@,
                            #[trigger] self.next@[q] as int,
                        ),
                    forall|q: int|
                        head0 <= q < self.next@.len() ==> #[trigger] self.queue_val(q) <= du + 1,
                    forall|jj: int|
                        0 <= jj < j2 ==> match self.distance@[(#[trigger] graph.out_seq(
                            u as int,
                        )[jj]).0.tgt()] {
                            Some(dt) => dt <= du + 1,
                            None => false,
                        },
                    self.next@.len() - reached_set(self.distance@).len() == len0 - r0.len(),
                    reached_set(self.distance@).len() >= r0.len(),
                decreases m_u - j2,
            {
                let (e, k) = out_u[j2];
                let t = e.target();
                proof {
                    assert(graph.out_seq(u as int)[j2 as int] == (e, k));
                    assert(0 <= e.tgt() < graph.n_nodes_spec());
                }
                if self.distance[t].is_none() {
                    let ghost s0 = *self;
                    self.reach(graph, root, u, t, k, du);
                    proof {
                        assert forall|q: int|
                            head0 <= q < self.next@.len() implies #[trigger] self.queue_val(q)
                            <= du + 1 by {
                            if q < s0.next@.len() {
                                assert(self.next@[q] == s0.next@[q]);
                                assert(self.queue_val(q) == s0.queue_val(q));
                            } else {
                                assert(self.next@[q] == t);
                            }
                        }
                    }
                } else {
                    proof {
                        // The target was reached before: at the root's
                        // level zero, or through some frontier entry,
                        // whose recorded distance the sorted queue
                        // bounds by one hop above `u`'s.
                        if t as int != root as int {
                            let q = choose|q: int|
                                0 <= q < self.next@.len() && #[trigger] self.next@[q] == t;
                            if q < head0 {
                                assert(self.queue_val(q) <= self.queue_val(head0));
                            } else {
                                assert(self.queue_val(q) <= du + 1);
                            }
                        }
                    }
                }
                j2 = j2 + 1;
            }
            proof {
                if head < self.next@.len() {
                    assert forall|q: int|
                        head <= q < self.next@.len() implies #[trigger] self.queue_val(q)
                        <= self.queue_val(head as int) + 1 by {
                        assert(self.queue_val(q) <= du + 1);
                        assert(self.queue_val(head0) <= self.queue_val(head as int));
                    }
                }
            }
        }
        proof {
            assert forall|u: int| 0 <= u < n implies expanded(*graph, self.distance@, u) by {
                if self.distance@[u] is Some && u != root as int {
                    let q = choose|q: int|
                        0 <= q < self.next@.len() && #[trigger] self.next@[q] == u;
                }
            }
        }
    }

    /// The working invariant of the search loops: table shapes, the
    /// root's entries, the pairing of distances with predecessors,
    /// the distance bound, predecessor soundness, and a frontier that
    /// lists every reached node but the root, in never-decreasing
    /// distance order.
    spec fn loop_inv<D>(self, graph: Graph<D>, root: NodeIdx) -> bool {
        let n = graph.n_nodes_spec();
        let dist = self.distance@;
        let through = self.through@;
        &&& self.root_spec() == root
        &&& dist.len() == n
        &&& through.len() == n
        &&& dist[root as int] == Some(0usize)
        &&& through[root as int] is None
        &&& forall|t: int|
            0 <= t < n && t != root as int ==> ((#[trigger] dist[t]) is Some <==> through[t]
                is Some)
        &&& forall|t: int| 0 <= t < n && #[trigger] dist[t] == Some(0usize) ==> t == root as int
        &&& reached_set(dist).finite()
        &&& reached_set(dist).len() <= n
        &&& forall|t: int|
            0 <= t < n ==> match #[trigger] dist[t] {
                Some(d) => d < reached_set(dist).len(),
                None => true,
            }
        &&& forall|t: int| 0 <= t < n ==> parent_edge_ok(graph, dist, through, t)
        &&& forall|q: int|
            0 <= q < self.next@.len() ==> 0 <= #[trigger] self.next@[q] < n
                && dist[self.next@[q] as int] is Some && self.next@[q] != root
        &&& forall|x: int|
            0 <= x < n && x != root as int && (#[trigger] dist[x]) is Some ==> exists|q: int|
                0 <= q < self.next@.len() && #[trigger] self.next@[q] == x
        &&& forall|q1: int, q2: int|
            0 <= q1 <= q2 < self.next@.len() ==> #[trigger] self.queue_val(q1)
                <= #[trigger] self.queue_val(q2)
    }

    /// Mark `t`, first reached from `u` over the adjacency entry
    /// `(e, k)`, at one hop more than `u`, and enqueue it.
    fn reach<D>(
        &mut self,
        graph: &Graph<D>,
        root: NodeIdx,
        u: NodeIdx,
        t: NodeIdx,
        k: EdgeIdx,
        du: usize,
    )
        requires
            graph.wf_adj(),
            root < graph.n_nodes_spec(),
            u < graph.n_nodes_spec(),
            t < graph.n_nodes_spec(),
            old(self).loop_inv(*graph, root),
            old(self).distance@[u as int] == Some(du),
            old(self).distance@[t as int] is None,
            exists|j: int|
                0 <= j < graph.out_seq(u as int).len() && (#[trigger] graph.out_seq(u as int)[j]).1
                    == k && graph.out_seq(u as int)[j].0.tgt() == t && graph.out_seq(
                    u as int,
                )[j].0.src() == u,
            forall|q: int|
                0 <= q < old(self).next@.len() ==> #[trigger] old(self).queue_val(q) <= du + 1,
        ensures
            final(self).loop_inv(*graph, root),
            final(self).root_spec() == old(self).root_spec(),
            final(self).distance@ == old(self).distance@.update(t as int, Some((du + 1) as usize)),
            final(self).through@ == old(self).through@.update(t as int, Some(k)),
            final(self).next@ == old(self).next@.push(t),
            reached_set(final(self).distance@).len() == reached_set(old(self).distance@).len() + 1,
    {
        let n_exec: usize = graph.n_nodes();
        proof {
            lemma_int_range(0, graph.n_nodes_spec());
            assert(reached_set(self.distance@).contains(u as int));
            assert(du < reached_set(self.distance@).len());
            assert(du < n_exec);
        }
        self.distance[t] = Some(du + 1);
        self.through[t] = Some(k);
        self.next.push(t);
        proof {
            let n = graph.n_nodes_spec();
            let dist0 = old(self).distance@;
            let dist1 = self.distance@;
            let r0 = reached_set(dist0);
            let r1 = reached_set(dist1);
            assert(r1 =~= r0.insert(t as int));
            lemma_len_subset(r1, set_int_range(0, n));

            let j = choose|j: int|
                0 <= j < graph.out_seq(u as int).len() && (#[trigger] graph.out_seq(u as int)[j]).1
                    == k && graph.out_seq(u as int)[j].0.tgt() == t && graph.out_seq(
                    u as int,
                )[j].0.src() == u;

            // Every node's predecessor entry stays sound: the new
            // node's entry points back at `u`, and no reached node's
            // distance changed.
            assert forall|x: int| 0 <= x < n implies parent_edge_ok(
                *graph,
                dist1,
                self.through@,
                x,
            ) by {
                if x == t as int {
                    assert(graph.out_seq(u as int)[j].1 == k);
                    assert(dist1[u as int] == Some(du) && dist1[t as int] == Some(
                        (du + 1) as usize,
                    ));
                } else {
                    match old(self).through@[x] {
                        Some(px) => {
                            assert(parent_edge_ok(*graph, dist0, old(self).through@, x));
                            let (m, jm) = choose|m: int, jm: int|
                                #![trigger graph.out_seq(m)[jm]]
                                {
                                    &&& 0 <= m < n
                                    &&& 0 <= jm < graph.out_seq(m).len()
                                    &&& graph.out_seq(m)[jm].1 == px
                                    &&& graph.out_seq(m)[jm].0.src() == m
                                    &&& graph.out_seq(m)[jm].0.tgt() == x
                                    &&& match (dist0[m], dist0[x]) {
                                        (Some(dm), Some(dx)) => dx == dm + 1,
                                        _ => false,
                                    }
                                };
                            assert(dist1[m] == dist0[m] && dist1[x] == dist0[x]);
                            assert(graph.out_seq(m)[jm].1 == px);
                        },
                        None => {},
                    }
                }
            }

            // The frontier still holds reached non-root nodes only,
            // and lists every reached node besides the root.
            assert forall|q: int| 0 <= q < self.next@.len() implies 0 <= #[trigger] self.next@[q]
                < n && dist1[self.next@[q] as int] is Some && self.next@[q] != root by {
                if q < old(self).next@.len() {
                    assert(self.next@[q] == old(self).next@[q]);
                } else {
                    assert(self.next@[q] == t);
                }
            }
            assert forall|x: int|
                0 <= x < n && x != root as int && (#[trigger] dist1[x]) is Some implies exists|
                q: int,
            | 0 <= q < self.next@.len() && #[trigger] self.next@[q] == x by {
                if x == t as int {
                    assert(self.next@[old(self).next@.len() as int] == t);
                } else {
                    let q = choose|q: int|
                        0 <= q < old(self).next@.len() && #[trigger] old(self).next@[q] == x;
                    assert(self.next@[q] == x);
                }
            }

            // The frontier stays sorted: everything already queued is
            // recorded at most one hop above `u`, which is exactly the
            // new node's level.
            assert forall|q1: int, q2: int|
                0 <= q1 <= q2 < self.next@.len() implies #[trigger] self.queue_val(q1)
                <= #[trigger] self.queue_val(q2) by {
                if q2 < old(self).next@.len() {
                    assert(self.queue_val(q1) == old(self).queue_val(q1));
                    assert(self.queue_val(q2) == old(self).queue_val(q2));
                } else {
                    assert(self.queue_val(q2) == du + 1);
                    if q1 < old(self).next@.len() {
                        assert(self.queue_val(q1) == old(self).queue_val(q1));
                        assert(old(self).queue_val(q1) <= du + 1);
                    }
                }
            }
        }
    }
}

/// Distances are achievable: in a finished search, a node reported at
/// distance `d` is joined to the root by an actual chain of exactly
/// `d` traversal steps, found by following the predecessor entries
/// back to the root.
pub proof fn lemma_distance_achievable<D>(r: BFS, graph: Graph<D>, root: NodeIdx, t: int, d: usize)
    requires
        result_ok(r, graph, root),
        0 <= t < graph.n_nodes_spec(),
        r.distance_seq()[t] == Some(d),
    ensures
        is_route(graph, root as int, t, d as nat),
    decreases d,
{
    let dist = r.distance_seq();
    let through = r.through_seq();
    let n = graph.n_nodes_spec();
    if t != root as int {
        assert(parent_edge_ok(graph, dist, through, t));
        let (m, jm) = choose|m: int, jm: int|
            #![trigger graph.out_seq(m)[jm]]
            {
                &&& 0 <= m < n
                &&& 0 <= jm < graph.out_seq(m).len()
                &&& graph.out_seq(m)[jm].1 == through[t]->0
                &&& graph.out_seq(m)[jm].0.src() == m
                &&& graph.out_seq(m)[jm].0.tgt() == t
                &&& match (dist[m], dist[t]) {
                    (Some(dm), Some(dt)) => dt == dm + 1,
                    _ => false,
                }
            };
        let dm = dist[m]->0;
        lemma_distance_achievable(r, graph, root, m, dm);
        assert(step_ok(graph, m, t));
    }
}

/// Distances are minimal, and every reachable node is reached: the
/// node at the end of any chain of `hops` traversal steps from the
/// root holds a distance, of at most `hops`.
pub proof fn lemma_distance_minimal<D>(r: BFS, graph: Graph<D>, root: NodeIdx, t: int, hops: nat)
    requires
        result_ok(r, graph, root),
        0 <= t < graph.n_nodes_spec(),
        is_route(graph, root as int, t, hops),
    ensures
        match r.distance_seq()[t] {
            Some(d) => d <= hops,
            None => false,
        },
    decreases hops,
{
    let dist = r.distance_seq();
    let n = graph.n_nodes_spec();
    if hops > 0 {
        let m = choose|m: int|
            #![trigger step_ok(graph, m, t)]
            {
                &&& 0 <= m < n
                &&& is_route(graph, root as int, m, (hops - 1) as nat)
                &&& step_ok(graph, m, t)
            };
        lemma_distance_minimal(r, graph, root, m, (hops - 1) as nat);
        let j = choose|j: int|
            0 <= j < graph.out_seq(m).len() && (#[trigger] graph.out_seq(m)[j]).0.tgt() == t;
        assert(expanded(graph, dist, m));
        assert(graph.out_seq(m)[j].0.tgt() == t);
    }
}

} // verus!
