use vstd::prelude::*;
use crate::frontier::Frontier;
use crate::graph::{
    adjacency_closed, adjacency_of, edges_in_range, has_edge, out_of, Graph, GraphError, InputEdge,
};

verus! {

broadcast use vstd::multiset::group_multiset_axioms;

/// The distance recorded for a node that no path reaches.
pub const UNREACHABLE: u32 = u32::MAX;

/// `a + w`, capped at the largest `u32`.
pub open spec fn sat_add(a: int, w: int) -> int {
    if a + w > u32::MAX as int {
        u32::MAX as int
    } else {
        a + w
    }
}

/// `p` is a walk from `s` to `t`: a sequence of edges `(u, v, w)` of `adj`, each
/// starting where the previous one ends.
pub open spec fn is_walk(adj: Seq<Seq<(usize, u32)>>, s: int, t: int, p: Seq<(int, int, int)>) -> bool
    decreases p.len(),
{
    if p.len() == 0 {
        s == t
    } else {
        let e = p.last();
        &&& e.1 == t
        &&& has_edge(adj, e.0, e.1, e.2)
        &&& is_walk(adj, s, e.0, p.drop_last())
    }
}

/// The total weight of the edges of a walk.
pub open spec fn walk_weight(p: Seq<(int, int, int)>) -> int
    decreases p.len(),
{
    if p.len() == 0 {
        0
    } else {
        walk_weight(p.drop_last()) + p.last().2
    }
}

/// No edge leaving a node with a finite distance offers a shorter distance to its
/// destination.
pub open spec fn relaxed(adj: Seq<Seq<(usize, u32)>>, d: Seq<u32>) -> bool {
    forall|u: int, v: int, w: int|
        #[trigger] has_edge(adj, u, v, w) && d[u] < UNREACHABLE ==> d[v] as int <= sat_add(
            d[u] as int,
            w,
        )
}

/// Every finite distance is the weight of some walk from `s`.
pub open spec fn witnessed(adj: Seq<Seq<(usize, u32)>>, s: int, d: Seq<u32>) -> bool {
    forall|v: int|
        0 <= v < d.len() && #[trigger] d[v] < UNREACHABLE ==> exists|p: Seq<(int, int, int)>|
            #[trigger] is_walk(adj, s, v, p) && walk_weight(p) == d[v]
}

/// `d` holds, for each node, the least walk weight from `s`, or `UNREACHABLE`
/// where no walk exists or the least weight does not fit below `u32::MAX`.
pub open spec fn shortest_from(adj: Seq<Seq<(usize, u32)>>, s: int, d: Seq<u32>) -> bool {
    &&& d.len() == adj.len()
    &&& 0 <= s < adj.len()
    &&& d[s] == 0
    &&& relaxed(adj, d)
    &&& witnessed(adj, s, d)
}

/// The distance vector from `s`: the one sequence meeting `shortest_from`.
pub open spec fn distances(adj: Seq<Seq<(usize, u32)>>, s: int) -> Seq<u32> {
    choose|d: Seq<u32>| shortest_from(adj, s, d)
}

/// The edges leaving `u` offer nothing shorter than the distances in `d`.
pub open spec fn node_relaxed(adj: Seq<Seq<(usize, u32)>>, d: Seq<u32>, u: int) -> bool {
    forall|j: int|
        0 <= j < adj[u].len() ==> d[(#[trigger] adj[u][j]).0 as int] as int <= sat_add(
            d[u] as int,
            adj[u][j].1 as int,
        )
}

/// The sum of all entries.
pub open spec fn total(d: Seq<u32>) -> int
    decreases d.len(),
{
    if d.len() == 0 {
        0
    } else {
        total(d.drop_last()) + d.last()
    }
}

proof fn lemma_total_nonneg(d: Seq<u32>)
    ensures
        total(d) >= 0,
    decreases d.len(),
{
    if d.len() > 0 {
        lemma_total_nonneg(d.drop_last());
    }
}

proof fn lemma_total_update(d: Seq<u32>, i: int, x: u32)
    requires
        0 <= i < d.len(),
    ensures
        total(d.update(i, x)) == total(d) - d[i] + x,
    decreases d.len(),
{
    let e = d.update(i, x);
    if i < d.len() - 1 {
        assert(e.drop_last() =~= d.drop_last().update(i, x));
        lemma_total_update(d.drop_last(), i, x);
    } else {
        assert(e.drop_last() =~= d.drop_last());
    }
}

/// Along any walk from `s`, a shortest-distance vector is no larger than the
/// walk's weight, unless that weight reaches `UNREACHABLE`.
pub proof fn lemma_walk_bound(adj: Seq<Seq<(usize, u32)>>, s: int, d: Seq<u32>, v: int, p: Seq<(int, int, int)>)
    requires
        shortest_from(adj, s, d),
        is_walk(adj, s, v, p),
    ensures
        0 <= v < d.len(),
        d[v] as int <= walk_weight(p) || walk_weight(p) >= UNREACHABLE,
        walk_weight(p) >= 0,
    decreases p.len(),
{
    if p.len() > 0 {
        let e = p.last();
        lemma_walk_bound(adj, s, d, e.0, p.drop_last());
        assert(has_edge(adj, e.0, e.1, e.2));
        let j = choose|j: int|
            0 <= j < adj[e.0].len() && (#[trigger] adj[e.0][j]).0 == e.1 && adj[e.0][j].1 == e.2;
        assert(e.2 >= 0);
    }
}

/// Distances are determined by the graph and the source: any two vectors meeting
/// `shortest_from` for the same graph and source are equal, so repeated runs, and
/// runs into buffers left over from other sources, give the same result.
pub proof fn lemma_distances_unique(adj: Seq<Seq<(usize, u32)>>, s: int, d1: Seq<u32>, d2: Seq<u32>)
    requires
        shortest_from(adj, s, d1),
        shortest_from(adj, s, d2),
    ensures
        d1 == d2,
{
    assert forall|v: int| 0 <= v < d1.len() implies d1[v] == d2[v] by {
        if d1[v] < UNREACHABLE {
            let p = choose|p: Seq<(int, int, int)>| #[trigger] is_walk(adj, s, v, p) && walk_weight(p) == d1[v];
            lemma_walk_bound(adj, s, d2, v, p);
        }
        if d2[v] < UNREACHABLE {
            let p = choose|p: Seq<(int, int, int)>| #[trigger] is_walk(adj, s, v, p) && walk_weight(p) == d2[v];
            lemma_walk_bound(adj, s, d1, v, p);
        }
    }
    assert(d1 =~= d2);
}

/// A vector meeting `shortest_from` is `distances(adj, s)`.
pub proof fn lemma_is_distances(adj: Seq<Seq<(usize, u32)>>, s: int, d: Seq<u32>)
    requires
        shortest_from(adj, s, d),
    ensures
        distances(adj, s) == d,
{
    let c = distances(adj, s);
    assert(shortest_from(adj, s, c));
    lemma_distances_unique(adj, s, c, d);
}

/// A node that no walk from `s` reaches is recorded as `UNREACHABLE`.
pub proof fn lemma_unreachable(adj: Seq<Seq<(usize, u32)>>, s: int, d: Seq<u32>, v: int)
    requires
        shortest_from(adj, s, d),
        0 <= v < adj.len(),
        forall|p: Seq<(int, int, int)>| !#[trigger] is_walk(adj, s, v, p),
    ensures
        d[v] == UNREACHABLE,
{
    if d[v] < UNREACHABLE {
        let p = choose|p: Seq<(int, int, int)>| #[trigger] is_walk(adj, s, v, p) && walk_weight(p) == d[v];
        assert(is_walk(adj, s, v, p));
    }
}

/// A node with outgoing edges is named by some input edge, so it fits in `usize`.
proof fn lemma_out_of_source(es: Seq<InputEdge>, u: int)
    ensures
        out_of(es, u).len() > 0 ==> 0 <= u <= usize::MAX,
    decreases es.len(),
{
    if es.len() > 0 {
        lemma_out_of_source(es.drop_last(), u);
    }
}

/// Node `u`'s outgoing edges hold `(v, w)` exactly when the input holds `(u, v, w)`.
proof fn lemma_out_of_contains(es: Seq<InputEdge>, u: usize, v: usize, w: u32)
    ensures
        out_of(es, u as int).contains((v, w)) <==> es.contains((u, v, w)),
    decreases es.len(),
{
    let o = out_of(es, u as int);
    if es.len() == 0 {
        assert(!o.contains((v, w)));
        assert(!es.contains((u, v, w)));
    } else {
        let rest = es.drop_last();
        let e = es.last();
        let r = out_of(rest, u as int);
        lemma_out_of_contains(rest, u, v, w);
        assert(es[es.len() - 1] == e);
        assert(es.contains((u, v, w)) <==> rest.contains((u, v, w)) || e == (u, v, w)) by {
            if rest.contains((u, v, w)) {
                let i = choose|i: int| 0 <= i < rest.len() && rest[i] == (u, v, w);
                assert(es[i] == (u, v, w));
            }
            if es.contains((u, v, w)) {
                let i = choose|i: int| 0 <= i < es.len() && es[i] == (u, v, w);
                if i < rest.len() {
                    assert(rest[i] == (u, v, w));
                }
            }
        }
        if e.0 == u {
            assert(o == r.push((e.1, e.2)));
            assert(o.contains((v, w)) <==> r.contains((v, w)) || (e.1, e.2) == (v, w)) by {
                if r.contains((v, w)) {
                    let j = choose|j: int| 0 <= j < r.len() && r[j] == (v, w);
                    assert(o[j] == (v, w));
                }
                if (e.1, e.2) == (v, w) {
                    assert(o[r.len() as int] == (v, w));
                }
                if o.contains((v, w)) {
                    let j = choose|j: int| 0 <= j < o.len() && o[j] == (v, w);
                    if j < r.len() {
                        assert(r[j] == (v, w));
                    }
                }
            }
        } else {
            assert(o == r);
        }
    }
}

/// The graphs built from two orderings of one multiset of edges have the same edges.
proof fn lemma_same_edges(n: nat, es1: Seq<InputEdge>, es2: Seq<InputEdge>)
    requires
        es1.to_multiset() == es2.to_multiset(),
    ensures
        forall|u: int, v: int, w: int|
            #![trigger has_edge(adjacency_of(es1, n), u, v, w)]
            #![trigger has_edge(adjacency_of(es2, n), u, v, w)]
            has_edge(adjacency_of(es1, n), u, v, w) <==> has_edge(adjacency_of(es2, n), u, v, w),
{
    broadcast use vstd::seq_lib::group_to_multiset_ensures;

    let a1 = adjacency_of(es1, n);
    let a2 = adjacency_of(es2, n);
    assert forall|u: int, v: int, w: int| #[trigger] has_edge(a1, u, v, w) implies has_edge(a2, u, v, w) by {
        let j = choose|j: int| 0 <= j < a1[u].len() && (#[trigger] a1[u][j]).0 == v && a1[u][j].1 == w;
        let x = a1[u][j];
        assert(out_of(es1, u).contains(x));
        lemma_out_of_source(es1, u);
        lemma_out_of_contains(es1, u as usize, x.0, x.1);
        lemma_out_of_contains(es2, u as usize, x.0, x.1);
        assert(es1.contains((u as usize, x.0, x.1)));
        assert(es1.to_multiset().count((u as usize, x.0, x.1)) > 0);
        assert(es2.to_multiset().count((u as usize, x.0, x.1)) > 0);
        assert(es2.contains((u as usize, x.0, x.1)));
        let k = choose|k: int| 0 <= k < a2[u].len() && a2[u][k] == x;
        assert(a2[u][k] == x);
    }
    assert forall|u: int, v: int, w: int| #[trigger] has_edge(a2, u, v, w) implies has_edge(a1, u, v, w) by {
        let j = choose|j: int| 0 <= j < a2[u].len() && (#[trigger] a2[u][j]).0 == v && a2[u][j].1 == w;
        let x = a2[u][j];
        assert(out_of(es2, u).contains(x));
        lemma_out_of_source(es2, u);
        lemma_out_of_contains(es2, u as usize, x.0, x.1);
        lemma_out_of_contains(es1, u as usize, x.0, x.1);
        assert(es2.contains((u as usize, x.0, x.1)));
        assert(es2.to_multiset().count((u as usize, x.0, x.1)) > 0);
        assert(es1.to_multiset().count((u as usize, x.0, x.1)) > 0);
        assert(es1.contains((u as usize, x.0, x.1)));
        let k = choose|k: int| 0 <= k < a1[u].len() && a1[u][k] == x;
        assert(a1[u][k] == x);
    }
}

/// A walk over edges that two graphs share is a walk in both.
proof fn lemma_walk_transfer(
    a1: Seq<Seq<(usize, u32)>>,
    a2: Seq<Seq<(usize, u32)>>,
    s: int,
    t: int,
    p: Seq<(int, int, int)>,
)
    requires
        forall|u: int, v: int, w: int|
            #![trigger has_edge(a1, u, v, w)]
            #![trigger has_edge(a2, u, v, w)]
            has_edge(a1, u, v, w) <==> has_edge(a2, u, v, w),
        is_walk(a1, s, t, p),
    ensures
        is_walk(a2, s, t, p),
    decreases p.len(),
{
    if p.len() > 0 {
        lemma_walk_transfer(a1, a2, s, p.last().0, p.drop_last());
    }
}

/// Reordering the input edges, without changing which edges occur how often,
/// changes no distance.
pub proof fn lemma_edge_order_irrelevant(
    n: nat,
    es1: Seq<InputEdge>,
    es2: Seq<InputEdge>,
    s: int,
    d1: Seq<u32>,
    d2: Seq<u32>,
)
    requires
        es1.to_multiset() == es2.to_multiset(),
        shortest_from(adjacency_of(es1, n), s, d1),
        shortest_from(adjacency_of(es2, n), s, d2),
    ensures
        d1 == d2,
{
    let a1 = adjacency_of(es1, n);
    let a2 = adjacency_of(es2, n);
    lemma_same_edges(n, es1, es2);
    assert forall|v: int| 0 <= v < d1.len() && #[trigger] d1[v] < UNREACHABLE implies exists|
        p: Seq<(int, int, int)>,
    | #[trigger] is_walk(a2, s, v, p) && walk_weight(p) == d1[v] by {
        let p = choose|p: Seq<(int, int, int)>| #[trigger] is_walk(a1, s, v, p) && walk_weight(p) == d1[v];
        lemma_walk_transfer(a1, a2, s, v, p);
    }
    assert(shortest_from(a2, s, d1));
    lemma_distances_unique(a2, s, d1, d2);
}

/// Runs Dijkstra's algorithm on `graph` from `source`. `dist` and `frontier` are
/// caller-owned buffers that are reset first, so what they held before has no
/// effect: afterwards `dist` holds the distances from `source` and `frontier` is
/// empty.
pub fn dijkstra(graph: &Graph, source: usize, dist: &mut Vec<u32>, frontier: &mut Frontier)
    requires
        graph.wf(),
        source < graph@.len(),
        old(dist)@.len() == graph@.len(),
    ensures
        shortest_from(graph@, source as int, final(dist)@),
        final(dist)@ == distances(graph@, source as int),
        final(dist)@[source as int] == 0,
        final(frontier).wf(),
        final(frontier)@.len() == 0,
{
    let ghost adj = graph@;
    let ghost s = source as int;
    proof {
        graph.lemma_closed();
    }
    let n = dist.len();
    let mut i: usize = 0;
    while i < n
        invariant
            n == dist@.len(),
            i <= n,
            forall|k: int| 0 <= k < i ==> dist@[k] == UNREACHABLE,
        decreases n - i,
    {
        dist.set(i, UNREACHABLE);
        i = i + 1;
    }
    frontier.clear();
    dist.set(source, 0);
    frontier.push(0, source);
    proof {
        assert(is_walk(adj, s, s, Seq::<(int, int, int)>::empty()));
        assert(walk_weight(Seq::<(int, int, int)>::empty()) == 0);
        assert forall|v: int| 0 <= v < dist@.len() && #[trigger] dist@[v] < UNREACHABLE implies exists|
            p: Seq<(int, int, int)>,
        | #[trigger] is_walk(adj, s, v, p) && walk_weight(p) == dist@[v] by {
            assert(v == s);
            assert(is_walk(adj, s, v, Seq::<(int, int, int)>::empty()));
        }
        assert(frontier@.contains((0u32, source)));
    }
    while !frontier.is_empty()
        invariant
            adj == graph@,
            graph.wf(),
            frontier.wf(),
            adjacency_closed(adj),
            n == adj.len(),
            dist@.len() == n,
            0 <= s < n,
            s == source,
            dist@[s] == 0,
            forall|e: (u32, usize)| #[trigger]
                frontier@.contains(e) ==> e.1 < n && dist@[e.1 as int] <= e.0 && e.0 < UNREACHABLE,
            witnessed(adj, s, dist@),
            forall|x: int|
                0 <= x < n && #[trigger] dist@[x] < UNREACHABLE ==> frontier@.contains(
                    (dist@[x], x as usize),
                ) || node_relaxed(adj, dist@, x),
        decreases total(dist@) + frontier@.len(),
    {
        let ghost m0 = total(dist@) + frontier@.len();
        let ghost f0 = frontier@;
        let popped = frontier.pop();
        let (cost, position) = popped.unwrap();
        proof {
            assert(f0.contains((cost, position)));
            assert(frontier@.len() == f0.len() - 1);
            assert forall|e: (u32, usize)| #[trigger] frontier@.contains(e) implies e.1 < n
                && dist@[e.1 as int] <= e.0 && e.0 < UNREACHABLE by {
                assert(f0.count(e) >= frontier@.count(e));
                assert(f0.contains(e));
            }
            assert forall|e: (u32, usize)| f0.contains(e) && e != (cost, position) implies frontier@.contains(e) by {}
        }
        proof {
            lemma_total_nonneg(dist@);
        }
        if cost > dist[position] {
            proof {
                assert forall|x: int|
                    0 <= x < n && #[trigger] dist@[x] < UNREACHABLE implies frontier@.contains(
                        (dist@[x], x as usize),
                    ) || node_relaxed(adj, dist@, x) by {
                    if f0.contains((dist@[x], x as usize)) {
                        assert((dist@[x], x as usize) != (cost, position));
                    }
                }
            }
            continue;
        }
        let ghost pu = choose|p: Seq<(int, int, int)>|
            #[trigger] is_walk(adj, s, position as int, p) && walk_weight(p) == cost;
        let nbrs = graph.neighbors(position);
        let mut j: usize = 0;
        while j < nbrs.len()
            invariant
                adj == graph@,
                graph.wf(),
                frontier.wf(),
                adjacency_closed(adj),
                n == adj.len(),
                dist@.len() == n,
                0 <= s < n,
                dist@[s] == 0,
                position < n,
                nbrs@ == adj[position as int],
                forall|t: int| 0 <= t < nbrs@.len() ==> (#[trigger] nbrs@[t]).0 < n,
                dist@[position as int] == cost,
                is_walk(adj, s, position as int, pu),
                walk_weight(pu) == cost,
                j <= nbrs@.len(),
                forall|e: (u32, usize)| #[trigger]
                    frontier@.contains(e) ==> e.1 < n && dist@[e.1 as int] <= e.0 && e.0 < UNREACHABLE,
                witnessed(adj, s, dist@),
                forall|x: int|
                    0 <= x < n && x != position && #[trigger] dist@[x] < UNREACHABLE ==> frontier@.contains(
                        (dist@[x], x as usize),
                    ) || node_relaxed(adj, dist@, x),
                forall|t: int|
                    0 <= t < j ==> dist@[(#[trigger] nbrs@[t]).0 as int] as int <= sat_add(
                        cost as int,
                        nbrs@[t].1 as int,
                    ),
                total(dist@) + frontier@.len() < m0,
            decreases nbrs@.len() - j,
        {
            let (neighbor, weight) = nbrs[j];
            let next_cost = cost.saturating_add(weight);
            if next_cost < dist[neighbor] {
                let ghost d0 = dist@;
                let ghost fr0 = frontier@;
                proof {
                    lemma_total_update(d0, neighbor as int, next_cost);
                }
                dist.set(neighbor, next_cost);
                frontier.push(next_cost, neighbor);
                proof {
                    let q = pu.push((position as int, neighbor as int, weight as int));
                    assert(q.drop_last() =~= pu);
                    assert(adj[position as int][j as int] == (neighbor, weight));
                    assert(has_edge(adj, position as int, neighbor as int, weight as int));
                    assert(is_walk(adj, s, neighbor as int, q));
                    assert(walk_weight(q) == next_cost);
                    assert forall|v: int| 0 <= v < dist@.len() && #[trigger] dist@[v] < UNREACHABLE implies exists|
                        p: Seq<(int, int, int)>,
                    | #[trigger] is_walk(adj, s, v, p) && walk_weight(p) == dist@[v] by {
                        if v == neighbor {
                            assert(is_walk(adj, s, v, q));
                        } else {
                            assert(d0[v] == dist@[v]);
                        }
                    }
                    assert forall|e: (u32, usize)| #[trigger] frontier@.contains(e) implies e.1 < n
                        && dist@[e.1 as int] <= e.0 && e.0 < UNREACHABLE by {
                        if e != (next_cost, neighbor) {
                            assert(fr0.contains(e));
                        }
                    }
                    assert forall|x: int|
                        0 <= x < n && x != position && #[trigger] dist@[x] < UNREACHABLE implies frontier@.contains(
                            (dist@[x], x as usize),
                        ) || node_relaxed(adj, dist@, x) by {
                        if x != neighbor {
                            assert(d0[x] == dist@[x]);
                            if fr0.contains((d0[x], x as usize)) {
                            } else {
                                assert(node_relaxed(adj, d0, x));
                                assert forall|t: int| 0 <= t < adj[x].len() implies dist@[(#[trigger] adj[x][t]).0 as int] as int
                                    <= sat_add(dist@[x] as int, adj[x][t].1 as int) by {
                                    assert(d0[adj[x][t].0 as int] >= dist@[adj[x][t].0 as int]);
                                }
                            }
                        } else {
                            assert(frontier@.contains((next_cost, neighbor)));
                        }
                    }
                }
            }
            j = j + 1;
        }
        proof {
            assert forall|t: int| 0 <= t < adj[position as int].len() implies dist@[(#[trigger] adj[position as int][t]).0 as int] as int
                <= sat_add(dist@[position as int] as int, adj[position as int][t].1 as int) by {
                assert(nbrs@[t] == adj[position as int][t]);
            }
            assert(node_relaxed(adj, dist@, position as int));
            lemma_total_nonneg(dist@);
        }
    }
    proof {
        assert forall|u: int, v: int, w: int|
            #[trigger] has_edge(adj, u, v, w) && dist@[u] < UNREACHABLE implies dist@[v] as int <= sat_add(
                dist@[u] as int,
                w,
            ) by {
            let j = choose|j: int| 0 <= j < adj[u].len() && (#[trigger] adj[u][j]).0 == v && adj[u][j].1 == w;
            assert(!frontier@.contains((dist@[u], u as usize)));
            assert(node_relaxed(adj, dist@, u));
        }
        lemma_is_distances(adj, s, dist@);
    }
}

/// Every source names one of the `n` nodes.
pub open spec fn sources_in_range(sources: Seq<usize>, n: int) -> bool {
    forall|i: int| 0 <= i < sources.len() ==> #[trigger] sources[i] < n
}

/// Builds the graph on nodes `0..n` from `edges` and returns one distance vector
/// per source, in the order of `sources`. One distance buffer and one frontier
/// serve every run; each run's distances are copied out before the next.
/// Fails when an edge or a source names a node not below `n`.
pub fn solve(n: usize, edges: &[InputEdge], sources: &[usize]) -> (r: Result<Vec<Vec<u32>>, GraphError>)
    ensures
        r is Ok <==> edges_in_range(edges@, n as int) && sources_in_range(sources@, n as int),
        r is Err ==> r == Err::<Vec<Vec<u32>>, GraphError>(GraphError::InvalidNodeIndex),
        r matches Ok(m) ==> {
            &&& m@.len() == sources@.len()
            &&& forall|i: int|
                0 <= i < m@.len() ==> #[trigger] m@[i]@ == distances(
                    adjacency_of(edges@, n as nat),
                    sources@[i] as int,
                ) && shortest_from(adjacency_of(edges@, n as nat), sources@[i] as int, m@[i]@)
        },
{
    let graph = match Graph::new(n, edges) {
        Ok(g) => g,
        Err(e) => {
            return Err(e);
        },
    };
    let k = sources.len();
    let mut i: usize = 0;
    while i < k
        invariant
            k == sources@.len(),
            i <= k,
            forall|t: int| 0 <= t < i ==> #[trigger] sources@[t] < n,
        decreases k - i,
    {
        if sources[i] >= n {
            return Err(GraphError::InvalidNodeIndex);
        }
        i = i + 1;
    }
    let ghost adj = graph@;
    let mut all_distances: Vec<Vec<u32>> = Vec::with_capacity(k);
    let mut reusable_dist: Vec<u32> = Vec::with_capacity(n);
    let mut t: usize = 0;
    while t < n
        invariant
            t <= n,
            reusable_dist@.len() == t,
        decreases n - t,
    {
        reusable_dist.push(UNREACHABLE);
        t = t + 1;
    }
    let mut reusable_frontier = Frontier::with_capacity(n);
    let mut i: usize = 0;
    while i < k
        invariant
            graph.wf(),
            adj == graph@,
            adj == adjacency_of(edges@, n as nat),
            k == sources@.len(),
            sources_in_range(sources@, n as int),
            i <= k,
            reusable_dist@.len() == n,
            reusable_frontier.wf(),
            all_distances@.len() == i,
            forall|t: int|
                0 <= t < i ==> #[trigger] all_distances@[t]@ == distances(adj, sources@[t] as int)
                    && shortest_from(adj, sources@[t] as int, all_distances@[t]@),
        decreases k - i,
    {
        let source = sources[i];
        dijkstra(&graph, source, &mut reusable_dist, &mut reusable_frontier);
        let copy = reusable_dist.clone();
        assert(copy@ =~= reusable_dist@);
        all_distances.push(copy);
        i = i + 1;
    }
    Ok(all_distances)
}

} // verus!
