//! Weighted shortest-path search by priority relaxation with lazy
//! deletion, generic over a non-negative, additively closed weight
//! type.

use vstd::prelude::*;

use crate::graph::{EdgeIdx, Graph, NodeIdx};

verus! {

/// A weight usable as a search distance: it carries a non-negative,
/// bounded integer measure, a zero, an overflow-checked addition and a
/// strict comparison, each tied exactly to that measure.
pub trait Weight: Sized + Copy {
    /// The integer measure of the weight.
    spec fn w(self) -> int;

    /// The largest measure a value of the type can carry.
    spec fn w_max() -> int;

    /// Every value's measure is non-negative and bounded.
    proof fn lemma_w_in_range(self)
        ensures
            0 <= self.w() <= Self::w_max(),
    ;

    /// The bound itself is non-negative.
    proof fn lemma_w_max_nonneg()
        ensures
            Self::w_max() >= 0,
    ;

    /// The zero weight.
    fn zero() -> (r: Self)
        ensures
            r.w() == 0,
    ;

    /// The sum of two weights, or nothing where the sum does not fit
    /// in the type.
    fn add_checked(self, other: Self) -> (r: Option<Self>)
        ensures
            match r {
                Some(s) => s.w() == self.w() + other.w(),
                None => self.w() + other.w() > Self::w_max(),
            },
    ;

    /// Strict comparison of the measures.
    fn less_than(self, other: Self) -> (r: bool)
        ensures
            r == (self.w() < other.w()),
    ;
}

impl Weight for u64 {
    closed spec fn w(self) -> int {
        self as int
    }

    closed spec fn w_max() -> int {
        u64::MAX as int
    }

    proof fn lemma_w_in_range(self) {
    }

    proof fn lemma_w_max_nonneg() {
    }

    fn zero() -> (r: Self) {
        0
    }

    fn add_checked(self, other: Self) -> (r: Option<Self>) {
        u64::checked_add(self, other)
    }

    fn less_than(self, other: Self) -> (r: bool) {
        self < other
    }
}

/// The measure a distance slot contributes to the search's potential:
/// an unreached slot weighs more than any weight the type can carry,
/// so every recording strictly lowers the potential.
pub open spec fn slot_measure<T: Weight>(o: Option<T>) -> int {
    match o {
        Some(v) => v.w(),
        None => T::w_max() + 1,
    }
}

/// The search's potential: the sum of the slot measures over the
/// distance slots `0 .. k`.
pub open spec fn measure_sum<T: Weight>(dist: Seq<Option<T>>, k: int) -> int
    decreases k,
{
    if k <= 0 {
        0
    } else {
        measure_sum(dist, k - 1) + slot_measure(dist[k - 1])
    }
}

/// Every prefix of the potential is non-negative.
proof fn lemma_measure_sum_nonneg<T: Weight>(dist: Seq<Option<T>>, k: int)
    ensures
        measure_sum(dist, k) >= 0,
    decreases k,
{
    if k > 0 {
        lemma_measure_sum_nonneg(dist, k - 1);
        match dist[k - 1] {
            Some(v) => v.lemma_w_in_range(),
            None => T::lemma_w_max_nonneg(),
        }
    }
}

/// Changing one distance slot changes the potential by exactly the
/// difference of the slot measures, and only where the prefix covers
/// the slot.
proof fn lemma_measure_sum_update<T: Weight>(dist: Seq<Option<T>>, j: int, v: Option<T>, k: int)
    requires
        0 <= j < dist.len(),
        0 <= k <= dist.len(),
    ensures
        measure_sum(dist.update(j, v), k) == measure_sum(dist, k) + if j < k {
            slot_measure(v) - slot_measure(dist[j])
        } else {
            0
        },
    decreases k,
{
    if k > 0 {
        lemma_measure_sum_update(dist, j, v, k - 1);
    }
}

/// The traversal steps `steps` lead from `from` to `to`: each step
/// names a node and one of its out-adjacency entries, and each
/// entry's target is where the next step starts.
pub open spec fn path_ok<D>(g: Graph<D>, from: int, steps: Seq<(int, int)>, to: int) -> bool
    decreases steps.len(),
{
    if steps.len() == 0 {
        to == from
    } else {
        let (m, j) = steps.last();
        &&& 0 <= m < g.n_nodes_spec()
        &&& 0 <= j < g.out_seq(m).len()
        &&& g.out_seq(m)[j].0.tgt() == to
        &&& path_ok(g, from, steps.drop_last(), m)
    }
}

/// The total weight of the traversal steps `steps`, each step costing
/// the weight stored for its entry's edge index.
pub open spec fn path_cost<D, T: Weight>(g: Graph<D>, weights: Seq<T>, steps: Seq<(int, int)>) -> int
    decreases steps.len(),
{
    if steps.len() == 0 {
        0
    } else {
        let (m, j) = steps.last();
        path_cost(g, weights, steps.drop_last()) + weights[g.out_seq(m)[j].1 as int].w()
    }
}

/// The predecessor entry of node `t` is sound: it names the edge
/// index of an out-adjacency entry that leads from a reached node `m`
/// to `t`, and `t`'s recorded weight is at least `m`'s plus that
/// edge's weight — relaxation never recorded a shortcut that the
/// edge's weight cannot explain.
pub open spec fn parent_edge_ok_w<D, T: Weight>(
    graph: Graph<D>,
    weights: Seq<T>,
    dist: Seq<Option<T>>,
    through: Seq<Option<EdgeIdx>>,
    t: int,
) -> bool {
    match through[t] {
        Some(e) => exists|m: int, j: int|
            #![trigger graph.out_seq(m)[j]]
            {
                &&& 0 <= m < graph.n_nodes_spec()
                &&& 0 <= j < graph.out_seq(m).len()
                &&& graph.out_seq(m)[j].1 == e
                &&& graph.out_seq(m)[j].0.src() == m
                &&& graph.out_seq(m)[j].0.tgt() == t
                &&& match (dist[m], dist[t]) {
                    (Some(dm), Some(dt)) => dt.w() >= dm.w() + weights[e as int].w(),
                    _ => false,
                }
            },
        None => true,
    }
}

/// Node `u` is fully relaxed: if it is reached, then each node one
/// step out of it is reached at no more than `u`'s weight plus the
/// step's weight — unless even that sum does not fit the weight type.
pub open spec fn relaxed<D, T: Weight>(
    graph: Graph<D>,
    weights: Seq<T>,
    dist: Seq<Option<T>>,
    u: int,
) -> bool {
    forall|j: int|
        0 <= j < graph.out_seq(u).len() ==> {
            let entry = #[trigger] graph.out_seq(u)[j];
            match dist[u] {
                Some(du) => ({
                    ||| match dist[entry.0.tgt()] {
                        Some(dt) => dt.w() <= du.w() + weights[entry.1 as int].w(),
                        None => false,
                    }
                    ||| du.w() + weights[entry.1 as int].w() > T::w_max()
                }),
                None => true,
            }
        }
}

/// Everything a finished weighted search promises about its tables,
/// for a graph, a weight table and a root.  Every reached node is
/// fully relaxed and carries a weight some real chain of steps
/// achieves, so together with the minimality lemma below the recorded
/// weight is exactly the least total weight of any chain of steps
/// from the root, wherever that least weight fits the type.
pub open spec fn result_ok_w<D, T: Weight>(
    r: Dijkstra<T>,
    graph: Graph<D>,
    weights: Seq<T>,
    root: NodeIdx,
) -> bool {
    let n = graph.n_nodes_spec();
    let dist = r.distance_seq();
    let through = r.through_seq();
    &&& r.root_spec() == root
    &&& dist.len() == n
    &&& through.len() == n
    &&& match dist[root as int] {
        Some(z) => z.w() == 0,
        None => false,
    }
    &&& through[root as int] is None
    &&& forall|t: int|
        0 <= t < n && t != root as int ==> ((#[trigger] dist[t]) is Some <==> through[t] is Some)
    &&& forall|t: int| 0 <= t < n ==> parent_edge_ok_w(graph, weights, dist, through, t)
    &&& forall|u: int| 0 <= u < n ==> relaxed(graph, weights, dist, u)
    &&& forall|t: int|
        0 <= t < n ==> match #[trigger] dist[t] {
            Some(d) => exists|steps: Seq<(int, int)>|
                #![trigger path_ok(graph, root as int, steps, t)]
                path_ok(graph, root as int, steps, t) && path_cost(graph, weights, steps)
                    <= d.w(),
            None => true,
        }
}

/// A weighted-search result: for each node, the least found cumulative
/// weight from the root and the edge index used to reach it, or
/// nothing for the root and for unreached nodes.
#[derive(Debug)]
pub struct Dijkstra<T> {
    root: NodeIdx,
    distance: Vec<Option<T>>,
    through: Vec<Option<EdgeIdx>>,
    next: Vec<(T, NodeIdx)>,
}

impl<T: Weight> Dijkstra<T> {
    /// The root of the last search.
    pub closed spec fn root_spec(self) -> int {
        self.root as int
    }

    /// The distance table of the last search.
    pub closed spec fn distance_seq(self) -> Seq<Option<T>> {
        self.distance@
    }

    /// The predecessor-edge table of the last search.
    pub closed spec fn through_seq(self) -> Seq<Option<EdgeIdx>> {
        self.through@
    }

    /// Get the root node.
    pub fn root(&self) -> (r: NodeIdx)
        ensures
            r == self.root_spec(),
    {
        self.root
    }

    /// Get the cumulative weights, one slot per node.
    pub fn distance(&self) -> (r: &Vec<Option<T>>)
        ensures
            r@ == self.distance_seq(),
    {
        &self.distance
    }

    /// Get the predecessor edges, one slot per node.
    pub fn through(&self) -> (r: &Vec<Option<EdgeIdx>>)
        ensures
            r@ == self.through_seq(),
    {
        &self.through
    }

    /// Create a search result for the graph from the root node, with
    /// `weights[k]` the weight of the edge stored under index `k`.
    pub fn with_graph<D>(graph: &Graph<D>, root: NodeIdx, weights: &Vec<T>) -> (r: Dijkstra<T>)
        requires
            graph.wf_adj(),
            root < graph.n_nodes_spec(),
            weights@.len() == graph.edge_seq().len(),
        ensures
            result_ok_w(r, *graph, weights@, root),
    {
        let mut algo = Dijkstra {
            root: 0,
            distance: Vec::new(),
            through: Vec::new(),
            next: Vec::new(),
        };
        algo.read(graph, root, weights);
        algo
    }

    /// The working invariant of the search loops: table shapes, the
    /// root's entries, the pairing of distances with predecessors,
    /// predecessor soundness, achievability of every recorded weight,
    /// a frontier whose entries carry keys no smaller than their
    /// node's recorded weight and achievable in their own right, and
    /// every reached node either fully relaxed or waiting in the
    /// frontier under a key no larger than its recorded weight.
    spec fn loop_inv<D>(self, graph: Graph<D>, weights: Seq<T>, root: NodeIdx) -> bool {
        let n = graph.n_nodes_spec();
        let dist = self.distance@;
        let through = self.through@;
        &&& self.root_spec() == root
        &&& dist.len() == n
        &&& through.len() == n
        &&& match dist[root as int] {
            Some(z) => z.w() == 0,
            None => false,
        }
        &&& through[root as int] is None
        &&& forall|t: int|
            0 <= t < n && t != root as int ==> ((#[trigger] dist[t]) is Some <==> through[t]
                is Some)
        &&& forall|t: int| 0 <= t < n ==> parent_edge_ok_w(graph, weights, dist, through, t)
        &&& forall|t: int|
            0 <= t < n ==> match #[trigger] dist[t] {
                Some(d) => exists|steps: Seq<(int, int)>|
                    #![trigger path_ok(graph, root as int, steps, t)]
                    path_ok(graph, root as int, steps, t) && path_cost(graph, weights, steps)
                        <= d.w(),
                None => true,
            }
        &&& forall|q: int|
            0 <= q < self.next@.len() ==> {
                let (key, node) = #[trigger] self.next@[q];
                &&& 0 <= node < n
                &&& match dist[node as int] {
                    Some(d) => d.w() <= key.w(),
                    None => false,
                }
                &&& exists|steps: Seq<(int, int)>|
                    #![trigger path_ok(graph, root as int, steps, node as int)]
                    path_ok(graph, root as int, steps, node as int) && path_cost(
                        graph,
                        weights,
                        steps,
                    ) <= key.w()
            }
        &&& forall|x: int|
            0 <= x < n && (#[trigger] dist[x]) is Some ==> relaxed(graph, weights, dist, x)
                || exists|q: int|
                {
                    let (kq, nq) = #[trigger] self.next@[q];
                    &&& 0 <= q < self.next@.len()
                    &&& nq == x
                    &&& match dist[x] {
                        Some(d) => kq.w() <= d.w(),
                        None => false,
                    }
                }
    }

    /// Run the search for the graph from the root node, overwriting
    /// any earlier result; `weights[k]` is the weight of the edge
    /// stored under index `k`.  The root starts at the zero weight;
    /// the frontier is seeded with the root's out-edges and drained by
    /// smallest key; a stale entry — one whose key exceeds its node's
    /// recorded weight — is discarded; otherwise each out-edge of the
    /// entry's node is relaxed, re-recording a node exactly when the
    /// candidate weight is strictly smaller than its recorded one (a
    /// candidate that overflows the weight type is dropped).
    /// Unreached nodes keep no weight and no predecessor.
    pub fn read<D>(&mut self, graph: &Graph<D>, root: NodeIdx, weights: &Vec<T>)
        requires
            graph.wf_adj(),
            root < graph.n_nodes_spec(),
            weights@.len() == graph.edge_seq().len(),
        ensures
            result_ok_w(*final(self), *graph, weights@, root),
    {
        let n = graph.n_nodes();
        self.root = root;
        self.distance = vec![None; n];
        self.through = vec![None; n];
        self.next = Vec::new();

        let zero = T::zero();
        self.distance[root] = Some(zero);
        proof {
            assert(path_ok(*graph, root as int, Seq::<(int, int)>::empty(), root as int));
            assert(path_cost(*graph, weights@, Seq::<(int, int)>::empty()) == 0);
        }

        // Seed the frontier with the root's out-edges.
        let out = graph.out_edges(root);
        let m_out = out.len();
        let mut j: usize = 0;
        while j < m_out
            invariant
                graph.wf_adj(),
                root < graph.n_nodes_spec(),
                n == graph.n_nodes_spec(),
                weights@.len() == graph.edge_seq().len(),
                j <= m_out,
                m_out == graph.out_seq(root as int).len(),
                out@ == graph.out_seq(root as int),
                self.partial_inv(*graph, weights@, root, root),
                self.distance@[root as int] matches Some(z) && z.w() == 0,
                forall|jj: int|
                    0 <= jj < j ==> {
                        let entry = #[trigger] graph.out_seq(root as int)[jj];
                        match self.distance@[entry.0.tgt()] {
                            Some(dt) => dt.w() <= weights@[entry.1 as int].w(),
                            None => false,
                        }
                    },
            decreases m_out - j,
        {
            let (e, k) = out[j];
            let t = e.target();
            proof {
                assert(graph.out_seq(root as int)[j as int] == (e, k));
                assert(0 <= e.tgt() < graph.n_nodes_spec());
            }
            let candidate = weights[k];
            let ghost dist_before = self.distance@;
            proof {
                candidate.lemma_w_in_range();
                match self.distance@[root as int] {
                    Some(z) => z.lemma_w_in_range(),
                    None => {},
                }
                assert(path_ok(*graph, root as int, Seq::<(int, int)>::empty(), root as int));
                assert(path_cost(*graph, weights@, Seq::<(int, int)>::empty()) == 0);
            }
            let improves = match self.distance[t] {
                Some(prev) => candidate.less_than(prev),
                None => true,
            };
            if improves {
                self.record(graph, weights, root, root, t, k, candidate);
                proof {
                    assert forall|jj: int| 0 <= jj < j + 1 implies {
                        let entry = #[trigger] graph.out_seq(root as int)[jj];
                        match self.distance@[entry.0.tgt()] {
                            Some(dt) => dt.w() <= weights@[entry.1 as int].w(),
                            None => false,
                        }
                    } by {
                        let entry = graph.out_seq(root as int)[jj];
                        if entry.0.tgt() == t as int {
                            assert(self.distance@[t as int] == Some(candidate));
                        } else {
                            assert(self.distance@[entry.0.tgt()] == dist_before[entry.0.tgt()]);
                        }
                    }
                }
            }
            j = j + 1;
        }
        proof {
            assert(relaxed(*graph, weights@, self.distance@, root as int));
            assert(self.loop_inv(*graph, weights@, root));
        }

        // Drain the frontier, relaxing around each entry's node
        // unless the entry has gone stale.  Popping the smallest key
        // first keeps re-recordings rare; correctness does not depend
        // on the order, since stale entries are discarded and a node
        // improved after its expansion waits in the frontier again.
        while self.next.len() > 0
            invariant
                graph.wf_adj(),
                root < graph.n_nodes_spec(),
                n == graph.n_nodes_spec(),
                weights@.len() == graph.edge_seq().len(),
                self.loop_inv(*graph, weights@, root),
            decreases measure_sum(self.distance@, n as int) + self.next@.len(),
        {
            proof {
                lemma_measure_sum_nonneg(self.distance@, n as int);
            }
            // Select the earliest entry with the smallest key.
            let mut best: usize = 0;
            let mut i: usize = 1;
            while i < self.next.len()
                invariant
                    best < self.next@.len(),
                    i <= self.next@.len(),
                decreases self.next@.len() - i,
            {
                let cand_key = self.next[i].0;
                if cand_key.less_than(self.next[best].0) {
                    best = i;
                }
                i = i + 1;
            }
            let ghost pre = *self;
            let ghost q0 = self.next@;
            let (key, u) = self.next.swap_remove(best);
            proof {
                assert(pre.loop_inv(*graph, weights@, root));
                assert(pre.next@ == q0);
                assert forall|q: int| 0 <= q < self.next@.len() implies {
                    let (kq, node) = #[trigger] self.next@[q];
                    &&& 0 <= node < n
                    &&& match self.distance@[node as int] {
                        Some(d) => d.w() <= kq.w(),
                        None => false,
                    }
                    &&& exists|steps: Seq<(int, int)>|
                        #![trigger path_ok(*graph, root as int, steps, node as int)]
                        path_ok(*graph, root as int, steps, node as int) && path_cost(
                            *graph,
                            weights@,
                            steps,
                        ) <= kq.w()
                } by {
                    if q == best as int {
                        assert(self.next@[q] == q0[q0.len() - 1]);
                    } else {
                        assert(self.next@[q] == q0[q]);
                    }
                }
                assert((key, u) == q0[best as int]);

                // Every reached node other than this entry's is still
                // relaxed or covered: its witness entry was not the
                // removed one, and survived the swap.
                assert forall|x: int|
                    0 <= x < n && x != u as int && (#[trigger] self.distance@[x]) is Some implies
                    relaxed(*graph, weights@, self.distance@, x) || exists|q: int|
                    {
                        let (kq, nq) = #[trigger] self.next@[q];
                        &&& 0 <= q < self.next@.len()
                        &&& nq == x
                        &&& match self.distance@[x] {
                            Some(d) => kq.w() <= d.w(),
                            None => false,
                        }
                    } by {
                    if !relaxed(*graph, weights@, self.distance@, x) {
                        let q = choose|q: int|
                            {
                                let (kq, nq) = #[trigger] pre.next@[q];
                                &&& 0 <= q < pre.next@.len()
                                &&& nq == x
                                &&& match pre.distance@[x] {
                                    Some(d) => kq.w() <= d.w(),
                                    None => false,
                                }
                            };
                        assert(q != best as int);
                        if q == q0.len() - 1 {
                            assert(self.next@[best as int] == q0[q]);
                        } else {
                            assert(self.next@[q] == q0[q]);
                        }
                    }
                }
                assert(self.partial_inv(*graph, weights@, root, u));
            }

            // A stale entry: the node has since been recorded with a
            // strictly smaller weight; discard without relaxing.  Its
            // earlier, smaller re-recording still waits in the
            // frontier, so the node stays covered.
            let stale = match self.distance[u] {
                Some(prev) => prev.less_than(key),
                None => false,
            };
            if stale {
                proof {
                    assert forall|x: int|
                        0 <= x < graph.n_nodes_spec() && (#[trigger] self.distance@[x]) is Some
                        implies relaxed(*graph, weights@, self.distance@, x) || exists|q: int|
                        {
                            let (kq, nq) = #[trigger] q0[q];
                            &&& 0 <= q < q0.len()
                            &&& nq == x
                            &&& match self.distance@[x] {
                                Some(d) => kq.w() <= d.w(),
                                None => false,
                            }
                        } by {
                        if !relaxed(*graph, weights@, self.distance@, x) {
                            assert(pre.next@ == q0 && pre.distance@ == self.distance@);
                        }
                    }
                    self.lemma_covered_after_removal(*graph, weights@, root, q0, best as int, key, u);
                }
            } else {
                proof {
                    // Proceeding: the key equals the node's recorded
                    // weight, and the entry's own chain bounds it.
                    assert(match self.distance@[u as int] {
                        Some(d) => d.w() == key.w(),
                        None => false,
                    });
                    assert(exists|steps: Seq<(int, int)>|
                        #![trigger path_ok(*graph, root as int, steps, u as int)]
                        path_ok(*graph, root as int, steps, u as int) && path_cost(
                            *graph,
                            weights@,
                            steps,
                        ) <= key.w());
                }
                let ghost sum0 = measure_sum(self.distance@, n as int);
                let ghost len0 = self.next@.len() as int;
                let out_u = graph.out_edges(u);
                let m_u = out_u.len();
                let mut j2: usize = 0;
                while j2 < m_u
                    invariant
                        graph.wf_adj(),
                        root < graph.n_nodes_spec(),
                        n == graph.n_nodes_spec(),
                        weights@.len() == graph.edge_seq().len(),
                        u < n,
                        j2 <= m_u,
                        m_u == graph.out_seq(u as int).len(),
                        out_u@ == graph.out_seq(u as int),
                        self.partial_inv(*graph, weights@, root, u),
                        self.distance@[u as int] matches Some(d) && d.w() == key.w(),
                        exists|steps: Seq<(int, int)>|
                            #![trigger path_ok(*graph, root as int, steps, u as int)]
                            path_ok(*graph, root as int, steps, u as int) && path_cost(
                                *graph,
                                weights@,
                                steps,
                            ) <= key.w(),
                        forall|jj: int|
                            0 <= jj < j2 ==> {
                                let entry = #[trigger] graph.out_seq(u as int)[jj];
                                ||| match self.distance@[entry.0.tgt()] {
                                    Some(dt) => dt.w() <= key.w() + weights@[entry.1 as int].w(),
                                    None => false,
                                }
                                ||| key.w() + weights@[entry.1 as int].w() > T::w_max()
                            },
                        measure_sum(self.distance@, n as int) + self.next@.len() <= sum0 + len0,
                    decreases m_u - j2,
                {
                    let (e, k2) = out_u[j2];
                    let t = e.target();
                    proof {
                        assert(graph.out_seq(u as int)[j2 as int] == (e, k2));
                        assert(0 <= e.tgt() < graph.n_nodes_spec());
                    }
                    match key.add_checked(weights[k2]) {
                        Some(candidate) => {
                            proof {
                                match self.distance@[u as int] {
                                    Some(d) => d.lemma_w_in_range(),
                                    None => {},
                                }
                                weights@[k2 as int].lemma_w_in_range();
                                candidate.lemma_w_in_range();
                            }
                            let improves = match self.distance[t] {
                                Some(prev) => candidate.less_than(prev),
                                None => true,
                            };
                            if improves {
                                self.record(graph, weights, root, u, t, k2, candidate);
                            }
                        },
                        None => {
                            // The candidate weight does not fit the
                            // type; the step cannot improve anything
                            // representable.
                        },
                    }
                    j2 = j2 + 1;
                }
                proof {
                    // All of `u`'s steps are now relaxed at `u`'s own
                    // recorded weight, so `u` no longer needs a
                    // frontier entry.
                    assert(relaxed(*graph, weights@, self.distance@, u as int));
                    assert(self.loop_inv(*graph, weights@, root));
                }
            }
            proof {
                lemma_measure_sum_nonneg(self.distance@, n as int);
            }
        }
        proof {
            // An empty frontier covers nothing, so every reached node
            // is fully relaxed.
            assert forall|u2: int| 0 <= u2 < n implies relaxed(
                *graph,
                weights@,
                self.distance@,
                u2,
            ) by {
                if self.distance@[u2] is Some {
                    assert(self.next@.len() == 0);
                }
            }
        }
    }

    /// The loop invariant, except that node `u` — the one under
    /// expansion — need not be relaxed or covered by the frontier.
    spec fn partial_inv<D>(self, graph: Graph<D>, weights: Seq<T>, root: NodeIdx, u: NodeIdx) -> bool {
        let n = graph.n_nodes_spec();
        let dist = self.distance@;
        let through = self.through@;
        &&& self.root_spec() == root
        &&& dist.len() == n
        &&& through.len() == n
        &&& match dist[root as int] {
            Some(z) => z.w() == 0,
            None => false,
        }
        &&& through[root as int] is None
        &&& forall|t: int|
            0 <= t < n && t != root as int ==> ((#[trigger] dist[t]) is Some <==> through[t]
                is Some)
        &&& forall|t: int| 0 <= t < n ==> parent_edge_ok_w(graph, weights, dist, through, t)
        &&& forall|t: int|
            0 <= t < n ==> match #[trigger] dist[t] {
                Some(d) => exists|steps: Seq<(int, int)>|
                    #![trigger path_ok(graph, root as int, steps, t)]
                    path_ok(graph, root as int, steps, t) && path_cost(graph, weights, steps)
                        <= d.w(),
                None => true,
            }
        &&& forall|q: int|
            0 <= q < self.next@.len() ==> {
                let (key, node) = #[trigger] self.next@[q];
                &&& 0 <= node < n
                &&& match dist[node as int] {
                    Some(d) => d.w() <= key.w(),
                    None => false,
                }
                &&& exists|steps: Seq<(int, int)>|
                    #![trigger path_ok(graph, root as int, steps, node as int)]
                    path_ok(graph, root as int, steps, node as int) && path_cost(
                        graph,
                        weights,
                        steps,
                    ) <= key.w()
            }
        &&& forall|x: int|
            0 <= x < n && x != u as int && (#[trigger] dist[x]) is Some ==> relaxed(
                graph,
                weights,
                dist,
                x,
            ) || exists|q: int|
                {
                    let (kq, nq) = #[trigger] self.next@[q];
                    &&& 0 <= q < self.next@.len()
                    &&& nq == x
                    &&& match dist[x] {
                        Some(d) => kq.w() <= d.w(),
                        None => false,
                    }
                }
    }

    /// After a stale entry for `u` is removed, `u` is still relaxed
    /// or covered: the stale key sat strictly above `u`'s recorded
    /// weight, so whatever frontier entry covered `u` was a different,
    /// smaller one, and it survived the removal.
    proof fn lemma_covered_after_removal<D>(
        &self,
        graph: Graph<D>,
        weights: Seq<T>,
        root: NodeIdx,
        q0: Seq<(T, NodeIdx)>,
        best: int,
        key: T,
        u: NodeIdx,
    )
        requires
            0 <= best < q0.len(),
            q0[best] == (key, u),
            self.next@ == q0.update(best, q0.last()).drop_last(),
            graph.wf_adj(),
            root < graph.n_nodes_spec(),
            u < graph.n_nodes_spec(),
            self.partial_inv(graph, weights, root, u),
            forall|x: int|
                0 <= x < graph.n_nodes_spec() && (#[trigger] self.distance@[x]) is Some
                    ==> relaxed(graph, weights, self.distance@, x) || exists|q: int|
                    {
                        let (kq, nq) = #[trigger] q0[q];
                        &&& 0 <= q < q0.len()
                        &&& nq == x
                        &&& match self.distance@[x] {
                            Some(d) => kq.w() <= d.w(),
                            None => false,
                        }
                    },
            match self.distance@[u as int] {
                Some(d) => d.w() < key.w(),
                None => false,
            },
        ensures
            self.loop_inv(graph, weights, root),
    {
        let n = graph.n_nodes_spec();
        let dist = self.distance@;
        assert forall|x: int| 0 <= x < n && (#[trigger] dist[x]) is Some implies relaxed(
            graph,
            weights,
            dist,
            x,
        ) || exists|q: int|
            {
                let (kq, nq) = #[trigger] self.next@[q];
                &&& 0 <= q < self.next@.len()
                &&& nq == x
                &&& match dist[x] {
                    Some(d) => kq.w() <= d.w(),
                    None => false,
                }
            } by {
            if !relaxed(graph, weights, dist, x) {
                let q = choose|q: int|
                    {
                        let (kq, nq) = #[trigger] q0[q];
                        &&& 0 <= q < q0.len()
                        &&& nq == x
                        &&& match dist[x] {
                            Some(d) => kq.w() <= d.w(),
                            None => false,
                        }
                    };
                assert(q != best);
                if q == q0.len() - 1 {
                    assert(self.next@[best] == q0[q]);
                } else {
                    assert(self.next@[q] == q0[q]);
                }
            }
        }
    }

    /// Record node `t`, relaxed from `u` over the adjacency entry
    /// `(e, k)` with candidate weight `c`, and push the entry on the
    /// frontier.
    fn record<D>(
        &mut self,
        graph: &Graph<D>,
        weights: &Vec<T>,
        root: NodeIdx,
        u: NodeIdx,
        t: NodeIdx,
        k: EdgeIdx,
        c: T,
    )
        requires
            graph.wf_adj(),
            root < graph.n_nodes_spec(),
            u < graph.n_nodes_spec(),
            t < graph.n_nodes_spec(),
            weights@.len() == graph.edge_seq().len(),
            old(self).partial_inv(*graph, weights@, root, u),
            exists|j: int|
                0 <= j < graph.out_seq(u as int).len() && (#[trigger] graph.out_seq(u as int)[j]).1
                    == k && graph.out_seq(u as int)[j].0.tgt() == t && graph.out_seq(
                    u as int,
                )[j].0.src() == u,
            match old(self).distance@[u as int] {
                Some(d) => c.w() >= d.w() + weights@[k as int].w(),
                None => false,
            },
            match old(self).distance@[t as int] {
                Some(prev) => c.w() < prev.w(),
                None => true,
            },
            exists|steps: Seq<(int, int)>|
                #![trigger path_ok(*graph, root as int, steps, u as int)]
                path_ok(*graph, root as int, steps, u as int) && path_cost(*graph, weights@, steps)
                    <= c.w() - weights@[k as int].w(),
            0 <= weights@[k as int].w(),
            0 <= c.w() <= T::w_max(),
        ensures
            final(self).partial_inv(*graph, weights@, root, u),
            final(self).root_spec() == old(self).root_spec(),
            final(self).distance@ == old(self).distance@.update(t as int, Some(c)),
            final(self).through@ == old(self).through@.update(t as int, Some(k)),
            final(self).next@ == old(self).next@.push((c, t)),
            measure_sum(final(self).distance@, graph.n_nodes_spec()) <= measure_sum(
                old(self).distance@,
                graph.n_nodes_spec(),
            ) - 1,
    {
        proof {
            match self.distance@[u as int] {
                Some(d) => d.lemma_w_in_range(),
                None => {},
            }
            assert(t != root as int);
        }
        self.distance[t] = Some(c);
        self.through[t] = Some(k);
        self.next.push((c, t));
        proof {
            let n = graph.n_nodes_spec();
            let dist0 = old(self).distance@;
            let dist1 = self.distance@;
            lemma_measure_sum_update(dist0, t as int, Some(c), n);

            let j = choose|j: int|
                0 <= j < graph.out_seq(u as int).len() && (#[trigger] graph.out_seq(u as int)[j]).1
                    == k && graph.out_seq(u as int)[j].0.tgt() == t && graph.out_seq(
                    u as int,
                )[j].0.src() == u;

            // The weight recorded for `t` is achievable: extend a
            // chain of steps that achieves `u`'s share by this entry.
            let prefix = choose|steps: Seq<(int, int)>|
                #![trigger path_ok(*graph, root as int, steps, u as int)]
                path_ok(*graph, root as int, steps, u as int) && path_cost(
                    *graph,
                    weights@,
                    steps,
                ) <= c.w() - weights@[k as int].w();
            let steps_t = prefix.push((u as int, j));
            assert(steps_t.drop_last() =~= prefix);
            assert(steps_t.last() == (u as int, j));
            assert(path_ok(*graph, root as int, steps_t, t as int));
            assert(path_cost(*graph, weights@, steps_t) <= c.w());

            // Predecessor soundness holds everywhere: the new entry
            // points back at `u`, and every other entry's inequality
            // only slackens when `t`'s weight drops.
            assert forall|x: int| 0 <= x < n implies parent_edge_ok_w(
                *graph,
                weights@,
                dist1,
                self.through@,
                x,
            ) by {
                if x == t as int {
                    assert(graph.out_seq(u as int)[j].1 == k);
                    if u as int == t as int {
                        assert(dist1[u as int] == Some(c));
                    } else {
                        assert(dist1[u as int] == dist0[u as int]);
                    }
                } else {
                    match old(self).through@[x] {
                        Some(px) => {
                            assert(parent_edge_ok_w(*graph, weights@, dist0, old(self).through@, x));
                            let (m, jm) = choose|m: int, jm: int|
                                #![trigger graph.out_seq(m)[jm]]
                                {
                                    &&& 0 <= m < n
                                    &&& 0 <= jm < graph.out_seq(m).len()
                                    &&& graph.out_seq(m)[jm].1 == px
                                    &&& graph.out_seq(m)[jm].0.src() == m
                                    &&& graph.out_seq(m)[jm].0.tgt() == x
                                    &&& match (dist0[m], dist0[x]) {
                                        (Some(dm), Some(dx)) => dx.w() >= dm.w() + weights@[px as int].w(),
                                        _ => false,
                                    }
                                };
                            if m == t as int {
                                assert(dist1[m] == Some(c));
                                assert(dist1[x] == dist0[x]);
                            } else {
                                assert(dist1[m] == dist0[m]);
                                assert(dist1[x] == dist0[x]);
                            }
                            assert(graph.out_seq(m)[jm].1 == px);
                        },
                        None => {},
                    }
                }
            }

            // Every recorded weight stays achievable: `t`'s new chain
            // was built above, the others' chains do not involve the
            // distance table at all.
            assert forall|x: int|
                0 <= x < n implies match #[trigger] dist1[x] {
                Some(d) => exists|steps: Seq<(int, int)>|
                    #![trigger path_ok(*graph, root as int, steps, x)]
                    path_ok(*graph, root as int, steps, x) && path_cost(*graph, weights@, steps)
                        <= d.w(),
                None => true,
            } by {
                if x == t as int {
                    assert(path_ok(*graph, root as int, steps_t, x) && path_cost(
                        *graph,
                        weights@,
                        steps_t,
                    ) <= c.w());
                } else {
                    assert(dist1[x] == dist0[x]);
                }
            }

            // Frontier entries still carry sound, achievable keys.
            assert forall|q: int| 0 <= q < self.next@.len() implies {
                let (kq, node) = #[trigger] self.next@[q];
                &&& 0 <= node < n
                &&& match dist1[node as int] {
                    Some(d) => d.w() <= kq.w(),
                    None => false,
                }
                &&& exists|steps: Seq<(int, int)>|
                    #![trigger path_ok(*graph, root as int, steps, node as int)]
                    path_ok(*graph, root as int, steps, node as int) && path_cost(
                        *graph,
                        weights@,
                        steps,
                    ) <= kq.w()
            } by {
                if q < old(self).next@.len() {
                    assert(self.next@[q] == old(self).next@[q]);
                } else {
                    assert(self.next@[q] == (c, t));
                    assert(path_ok(*graph, root as int, steps_t, t as int) && path_cost(
                        *graph,
                        weights@,
                        steps_t,
                    ) <= c.w());
                }
            }

            // Every reached node other than `u` stays relaxed or
            // covered: `t` is covered by its fresh entry, and an
            // already relaxed node only sees `t`'s weight drop.
            assert forall|x: int|
                0 <= x < n && x != u as int && (#[trigger] dist1[x]) is Some implies relaxed(
                *graph,
                weights@,
                dist1,
                x,
            ) || exists|q: int|
                {
                    let (kq, nq) = #[trigger] self.next@[q];
                    &&& 0 <= q < self.next@.len()
                    &&& nq == x
                    &&& match dist1[x] {
                        Some(d) => kq.w() <= d.w(),
                        None => false,
                    }
                } by {
                if x == t as int {
                    assert(self.next@[old(self).next@.len() as int] == (c, t));
                } else {
                    if relaxed(*graph, weights@, dist0, x) {
                        assert forall|jj: int| 0 <= jj < graph.out_seq(x).len() implies {
                            let entry = #[trigger] graph.out_seq(x)[jj];
                            match dist1[x] {
                                Some(dx) => ({
                                    ||| match dist1[entry.0.tgt()] {
                                        Some(dt) => dt.w() <= dx.w() + weights@[entry.1 as int].w(),
                                        None => false,
                                    }
                                    ||| dx.w() + weights@[entry.1 as int].w() > T::w_max()
                                }),
                                None => true,
                            }
                        } by {
                            let entry = graph.out_seq(x)[jj];
                            if entry.0.tgt() == t as int {
                                assert(dist0[t as int] is Some || (dist0[x] matches Some(dx)
                                    && dx.w() + weights@[entry.1 as int].w() > T::w_max()));
                            }
                        }
                    } else {
                        let q = choose|q: int|
                            {
                                let (kq, nq) = #[trigger] old(self).next@[q];
                                &&& 0 <= q < old(self).next@.len()
                                &&& nq == x
                                &&& match dist0[x] {
                                    Some(d) => kq.w() <= d.w(),
                                    None => false,
                                }
                            };
                        assert(self.next@[q] == old(self).next@[q]);
                    }
                }
            }
        }
    }
}

/// Recorded weights are minimal: the node at the end of any chain of
/// traversal steps from the root whose total weight fits the weight
/// type holds a recorded weight of at most that total.  Together with
/// the achievability clause of `result_ok_w`, a reached node's weight
/// is exactly the least chain weight, and a node with no recorded
/// weight has no chain whose weight fits the type.
pub proof fn lemma_weighted_distance_minimal<D, T: Weight>(
    r: Dijkstra<T>,
    graph: Graph<D>,
    weights: Seq<T>,
    root: NodeIdx,
    t: int,
    steps: Seq<(int, int)>,
)
    requires
        result_ok_w(r, graph, weights, root),
        graph.wf_adj(),
        weights.len() == graph.edge_seq().len(),
        0 <= t < graph.n_nodes_spec(),
        path_ok(graph, root as int, steps, t),
        path_cost(graph, weights, steps) <= T::w_max(),
    ensures
        match r.distance_seq()[t] {
            Some(d) => d.w() <= path_cost(graph, weights, steps),
            None => false,
        },
    decreases steps.len(),
{
    let dist = r.distance_seq();
    let n = graph.n_nodes_spec();
    if steps.len() == 0 {
    } else {
        let (m, j) = steps.last();
        let entry = graph.out_seq(m)[j];
        let e = entry.1 as int;
        assert(0 <= e < graph.edge_seq().len());
        weights[e].lemma_w_in_range();
        lemma_path_cost_nonneg(graph, weights, steps.drop_last());
        lemma_weighted_distance_minimal(r, graph, weights, root, m, steps.drop_last());
        let dm = dist[m]->0;
        dm.lemma_w_in_range();
        assert(relaxed(graph, weights, dist, m));
        assert(graph.out_seq(m)[j] == entry);
        assert(dm.w() + weights[e].w() <= path_cost(graph, weights, steps) <= T::w_max());
    }
}

/// A chain of steps through a sound adjacency costs a non-negative
/// total.
proof fn lemma_path_cost_nonneg<D, T: Weight>(graph: Graph<D>, weights: Seq<T>, steps: Seq<(int, int)>)
    requires
        graph.wf_adj(),
        weights.len() == graph.edge_seq().len(),
    ensures
        forall|from: int, to: int| #[trigger]
            path_ok(graph, from, steps, to) ==> path_cost(graph, weights, steps) >= 0,
    decreases steps.len(),
{
    if steps.len() > 0 {
        lemma_path_cost_nonneg(graph, weights, steps.drop_last());
        assert forall|from: int, to: int| #[trigger]
            path_ok(graph, from, steps, to) implies path_cost(graph, weights, steps) >= 0 by {
            let (m, j) = steps.last();
            assert(path_ok(graph, from, steps.drop_last(), m));
            weights[graph.out_seq(m)[j].1 as int].lemma_w_in_range();
        }
    }
}

} // verus!
