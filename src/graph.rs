use vstd::prelude::*;

verus! {

/// A directed edge as given to the graph builder: (source, destination, weight).
pub type InputEdge = (usize, usize, u32);

/// The outgoing edges of node `u`, as (destination, weight) pairs, in the order in
/// which they occur in `es`.
pub open spec fn out_of(es: Seq<InputEdge>, u: int) -> Seq<(usize, u32)>
    decreases es.len(),
{
    if es.len() == 0 {
        Seq::empty()
    } else {
        let e = es.last();
        let rest = out_of(es.drop_last(), u);
        if e.0 as int == u {
            rest.push((e.1, e.2))
        } else {
            rest
        }
    }
}

/// Every endpoint of every edge names one of the `n` nodes.
pub open spec fn edges_in_range(es: Seq<InputEdge>, n: int) -> bool {
    forall|i: int| 0 <= i < es.len() ==> (#[trigger] es[i]).0 < n && es[i].1 < n
}

/// Every destination in an adjacency sequence names one of its nodes.
pub open spec fn adjacency_closed(adj: Seq<Seq<(usize, u32)>>) -> bool {
    forall|u: int, j: int|
        0 <= u < adj.len() && 0 <= j < adj[u].len() ==> (#[trigger] adj[u][j]).0 < adj.len()
}

/// The graph has an edge from `u` to `v` of weight `w`.
pub open spec fn has_edge(adj: Seq<Seq<(usize, u32)>>, u: int, v: int, w: int) -> bool {
    0 <= u < adj.len() && 0 <= v < adj.len() && exists|j: int|
        0 <= j < adj[u].len() && (#[trigger] adj[u][j]).0 == v && adj[u][j].1 == w
}

/// The adjacency built from `es`: node `u`'s edges in input order.
pub open spec fn adjacency_of(es: Seq<InputEdge>, n: nat) -> Seq<Seq<(usize, u32)>> {
    Seq::new(n, |u: int| out_of(es, u))
}

#[derive(Debug, Clone, Copy, PartialEq, Eq, Structural)]
pub enum GraphError {
    /// An edge or a source names a node outside `[0, n)`.
    InvalidNodeIndex,
}

/// A static directed graph in compressed layout: the edges leaving node `u` are
/// `edges[offsets[u] .. offsets[u + 1]]`.
pub struct Graph {
    offsets: Vec<usize>,
    edges: Vec<(usize, u32)>,
}

impl View for Graph {
    type V = Seq<Seq<(usize, u32)>>;

    closed spec fn view(&self) -> Seq<Seq<(usize, u32)>> {
        Seq::new(
            (self.offsets@.len() - 1) as nat,
            |u: int| self.edges@.subrange(self.offsets@[u] as int, self.offsets@[u + 1] as int),
        )
    }
}

impl Graph {
    /// The layout is consistent: offsets start at zero, never decrease, end at the
    /// edge count, and every destination is a node of the graph.
    pub closed spec fn wf(&self) -> bool {
        &&& self.offsets@.len() >= 1
        &&& self.offsets@[0] == 0
        &&& forall|i: int|
            0 <= i < self.offsets@.len() - 1 ==> #[trigger] self.offsets@[i] <= self.offsets@[i
                + 1]
        &&& self.offsets@[self.offsets@.len() - 1] == self.edges@.len()
        &&& forall|i: int|
            0 <= i < self.offsets@.len() ==> #[trigger] self.offsets@[i] <= self.edges@.len()
        &&& forall|j: int|
            0 <= j < self.edges@.len() ==> (#[trigger] self.edges@[j]).0 < self.offsets@.len() - 1
    }

    /// Every destination of a well-formed graph is one of its nodes.
    pub proof fn lemma_closed(&self)
        requires
            self.wf(),
        ensures
            adjacency_closed(self@),
    {
        assert forall|u: int, j: int|
            0 <= u < self@.len() && 0 <= j < self@[u].len() implies (#[trigger] self@[u][j]).0 < self@.len() by {
            assert(self@[u][j] == self.edges@[self.offsets@[u] + j]);
        }
    }

    /// The number of nodes.
    pub fn node_count(&self) -> (r: usize)
        requires
            self.wf(),
        ensures
            r == self@.len(),
    {
        self.offsets.len() - 1
    }

    /// The edges leaving `u`, as (destination, weight) pairs, without copying.
    pub fn neighbors(&self, u: usize) -> (r: &[(usize, u32)])
        requires
            self.wf(),
            u < self@.len(),
        ensures
            r@ == self@[u as int],
            forall|j: int| 0 <= j < r@.len() ==> (#[trigger] r@[j]).0 < self@.len(),
    {
        let len = self.offsets.len();
        assert(u + 1 < len);
        let a = self.offsets[u];
        let b = self.offsets[u + 1];
        let r = vstd::slice::slice_subrange(self.edges.as_slice(), a, b);
        proof {
            assert forall|j: int| 0 <= j < r@.len() implies (#[trigger] r@[j]).0 < self@.len() by {
                assert(r@[j] == self.edges@[a + j]);
            }
        }
        r
    }

    /// Builds the graph on nodes `0..n` from `(u, v, w)` triples, keeping each
    /// node's edges in input order. Fails when an endpoint is not below `n`.
    pub fn new(n: usize, edges_with_sources: &[InputEdge]) -> (r: Result<Graph, GraphError>)
        ensures
            r is Ok <==> edges_in_range(edges_with_sources@, n as int),
            r is Err ==> r == Err::<Graph, GraphError>(GraphError::InvalidNodeIndex),
            r matches Ok(g) ==> g.wf() && g@ == adjacency_of(edges_with_sources@, n as nat),
    {
        let m = edges_with_sources.len();
        let mut k: usize = 0;
        while k < m
            invariant
                m == edges_with_sources@.len(),
                k <= m,
                forall|i: int| 0 <= i < k ==> (#[trigger] edges_with_sources@[i]).0 < n
                    && edges_with_sources@[i].1 < n,
            decreases m - k,
        {
            let (u, v, _w) = edges_with_sources[k];
            if u >= n || v >= n {
                return Err(GraphError::InvalidNodeIndex);
            }
            k = k + 1;
        }
        let ghost es = edges_with_sources@;

        let mut adj: Vec<Vec<(usize, u32)>> = Vec::new();
        let mut i: usize = 0;
        while i < n
            invariant
                i <= n,
                adj@.len() == i,
                forall|u: int| 0 <= u < i ==> (#[trigger] adj@[u])@ == out_of(es.subrange(0, 0), u),
            decreases n - i,
        {
            adj.push(Vec::new());
            i = i + 1;
        }

        let mut k: usize = 0;
        while k < m
            invariant
                es == edges_with_sources@,
                m == es.len(),
                edges_in_range(es, n as int),
                k <= m,
                adj@.len() == n,
                forall|u: int| 0 <= u < n ==> (#[trigger] adj@[u])@ == out_of(es.subrange(0, k as int), u),
            decreases m - k,
        {
            let (u, v, w) = edges_with_sources[k];
            assert(es[k as int] == (u, v, w));
            let ghost before = adj@;
            let mut row: Vec<(usize, u32)> = Vec::new();
            std::mem::swap(&mut adj[u], &mut row);
            row.push((v, w));
            std::mem::swap(&mut adj[u], &mut row);
            proof {
                let pre = es.subrange(0, k as int);
                let post = es.subrange(0, k + 1);
                assert(post.drop_last() =~= pre);
                assert(post.last() == (u, v, w));
                assert forall|x: int| 0 <= x < n implies (#[trigger] adj@[x])@ == out_of(post, x) by {
                    if x != u as int {
                        assert(adj@[x] == before[x]);
                    }
                }
            }
            k = k + 1;
        }
        assert(es.subrange(0, m as int) =~= es);

        let mut offsets: Vec<usize> = Vec::new();
        offsets.push(0);
        let mut flat: Vec<(usize, u32)> = Vec::with_capacity(m);
        let mut i: usize = 0;
        while i < n
            invariant
                es == edges_with_sources@,
                edges_in_range(es, n as int),
                adj@.len() == n,
                forall|u: int| 0 <= u < n ==> (#[trigger] adj@[u])@ == out_of(es, u),
                i <= n,
                offsets@.len() == i + 1,
                offsets@[0] == 0,
                offsets@[i as int] == flat@.len(),
                forall|x: int| 0 <= x < i ==> #[trigger] offsets@[x] <= offsets@[x + 1],
                forall|x: int| 0 <= x <= i ==> #[trigger] offsets@[x] <= flat@.len(),
                forall|x: int|
                    0 <= x < i ==> flat@.subrange(offsets@[x] as int, offsets@[x + 1] as int)
                        == #[trigger] adj@[x]@,
                forall|j: int| 0 <= j < flat@.len() ==> (#[trigger] flat@[j]).0 < n,
            decreases n - i,
        {
            let row = &adj[i];
            proof {
                lemma_out_of_in_range(es, n as int, i as int);
            }
            let ghost flat0 = flat@;
            let mut j: usize = 0;
            while j < row.len()
                invariant
                    row@ == out_of(es, i as int),
                    forall|t: int| 0 <= t < row@.len() ==> (#[trigger] row@[t]).0 < n,
                    j <= row@.len(),
                    flat@.len() == flat0.len() + j,
                    flat@.subrange(0, flat0.len() as int) == flat0,
                    flat@.subrange(flat0.len() as int, flat@.len() as int) == row@.subrange(0, j as int),
                    forall|t: int| 0 <= t < flat@.len() ==> (#[trigger] flat@[t]).0 < n,
                    forall|t: int| 0 <= t < flat0.len() ==> (#[trigger] flat0[t]).0 < n,
                decreases row@.len() - j,
            {
                let ghost prev = flat@;
                flat.push(row[j]);
                proof {
                    assert(flat@.subrange(0, flat0.len() as int) =~= prev.subrange(0, flat0.len() as int));
                    assert(flat@.subrange(flat0.len() as int, flat@.len() as int)
                        =~= prev.subrange(flat0.len() as int, prev.len() as int).push(row@[j as int]));
                    assert(row@.subrange(0, j + 1) =~= row@.subrange(0, j as int).push(row@[j as int]));
                }
                j = j + 1;
            }
            assert(row@.subrange(0, j as int) =~= row@);
            offsets.push(flat.len());
            proof {
                assert forall|x: int|
                    0 <= x <= i implies flat@.subrange(offsets@[x] as int, offsets@[x + 1] as int)
                        == #[trigger] adj@[x]@ by {
                    if x < i {
                        assert(flat@.subrange(offsets@[x] as int, offsets@[x + 1] as int)
                            =~= flat0.subrange(offsets@[x] as int, offsets@[x + 1] as int));
                    }
                }
            }
            i = i + 1;
        }
        let g = Graph { offsets, edges: flat };
        proof {
            assert forall|x: int| 0 <= x < n implies #[trigger] g@[x] == adjacency_of(es, n as nat)[x] by {
                assert(adj@[x]@ == out_of(es, x));
            }
            assert(g@ =~= adjacency_of(es, n as nat));
        }
        Ok(g)
    }
}

/// Every destination among `u`'s outgoing edges is below `n` when all endpoints are.
proof fn lemma_out_of_in_range(es: Seq<InputEdge>, n: int, u: int)
    requires
        edges_in_range(es, n),
    ensures
        forall|t: int| 0 <= t < out_of(es, u).len() ==> (#[trigger] out_of(es, u)[t]).0 < n,
    decreases es.len(),
{
    if es.len() > 0 {
        let rest = es.drop_last();
        assert forall|i: int| 0 <= i < rest.len() implies (#[trigger] rest[i]).0 < n && rest[i].1 < n by {
            assert(rest[i] == es[i]);
        }
        lemma_out_of_in_range(rest, n, u);
        let e = es[es.len() - 1];
        assert(es.last() == e);
        assert(e.1 < n);
        if e.0 as int == u {
            let r = out_of(rest, u);
            assert(out_of(es, u) == r.push((e.1, e.2)));
            assert forall|t: int| 0 <= t < out_of(es, u).len() implies (#[trigger] out_of(es, u)[t]).0 < n by {
                if t < r.len() {
                    assert(out_of(es, u)[t] == r[t]);
                }
            }
        } else {
            assert(out_of(es, u) == out_of(rest, u));
        }
    }
}

} // verus!
