use csr_dijkstra::{dijkstra, solve, Frontier, Graph, GraphError, UNREACHABLE};

fn sample_edges() -> Vec<(usize, usize, u32)> {
    vec![(0, 1, 4), (0, 2, 1), (2, 1, 1), (1, 3, 1), (2, 3, 5)]
}

fn run_once(n: usize, edges: &[(usize, usize, u32)], source: usize) -> Vec<u32> {
    let g = Graph::new(n, edges).unwrap();
    let mut dist = vec![0u32; n];
    let mut frontier = Frontier::new();
    dijkstra(&g, source, &mut dist, &mut frontier);
    assert!(frontier.is_empty());
    dist
}

#[test]
fn four_node_scenario() {
    assert_eq!(run_once(4, &sample_edges(), 0), vec![0, 2, 1, 3]);
}

#[test]
fn disconnected_node_is_unreachable() {
    let d = run_once(5, &sample_edges(), 0);
    assert_eq!(d, vec![0, 2, 1, 3, UNREACHABLE]);
}

#[test]
fn two_sources_matrix() {
    let m = solve(5, &sample_edges(), &[0, 2]).unwrap();
    assert_eq!(m.len(), 2);
    assert_eq!(m[0], vec![0, 2, 1, 3, UNREACHABLE]);
    // From 2: 2 -> 1 costs 1, then 1 -> 3 costs 1 more; node 0 has no incoming edge.
    assert_eq!(m[1], vec![UNREACHABLE, 1, 0, 2, UNREACHABLE]);
}

#[test]
fn source_distance_is_zero() {
    for s in 0..5 {
        assert_eq!(run_once(5, &sample_edges(), s)[s], 0);
    }
}

#[test]
fn unreachable_nodes_get_sentinel() {
    let d = run_once(5, &sample_edges(), 3);
    assert_eq!(d, vec![UNREACHABLE, UNREACHABLE, UNREACHABLE, 0, UNREACHABLE]);
}

#[test]
fn final_distances_are_relaxed() {
    let edges = sample_edges();
    for s in 0..5 {
        let d = run_once(5, &edges, s);
        for &(u, v, w) in &edges {
            if d[u] != UNREACHABLE {
                assert!(d[v] <= d[u].saturating_add(w));
            }
        }
    }
}

#[test]
fn repeated_runs_agree() {
    assert_eq!(run_once(5, &sample_edges(), 0), run_once(5, &sample_edges(), 0));
}

#[test]
fn reused_buffers_match_fresh_ones() {
    let g = Graph::new(5, &sample_edges()).unwrap();
    let mut dist = vec![UNREACHABLE; 5];
    let mut frontier = Frontier::new();
    dijkstra(&g, 0, &mut dist, &mut frontier);
    let first = dist.clone();
    frontier.push(7, 4);
    dijkstra(&g, 2, &mut dist, &mut frontier);
    assert_eq!(dist, run_once(5, &sample_edges(), 2));
    assert_eq!(first, vec![0, 2, 1, 3, UNREACHABLE]);
}

#[test]
fn edge_order_does_not_matter() {
    let mut edges = sample_edges();
    edges.reverse();
    edges.swap(0, 3);
    for s in 0..4 {
        assert_eq!(run_once(4, &edges, s), run_once(4, &sample_edges(), s));
    }
}

#[test]
fn parallel_edges_and_self_loops() {
    let edges = vec![(0, 1, 9), (0, 1, 2), (1, 1, 0), (1, 0, 3)];
    assert_eq!(run_once(2, &edges, 0), vec![0, 2]);
    assert_eq!(run_once(2, &edges, 1), vec![3, 0]);
}

#[test]
fn costs_saturate_instead_of_wrapping() {
    let edges = vec![(0, 1, u32::MAX - 1), (1, 2, 5), (0, 3, 1)];
    let d = run_once(4, &edges, 0);
    assert_eq!(d, vec![0, u32::MAX - 1, UNREACHABLE, 1]);
}

#[test]
fn invalid_edge_endpoint_is_rejected() {
    assert!(matches!(Graph::new(3, &[(0, 3, 1)]), Err(GraphError::InvalidNodeIndex)));
    assert!(matches!(Graph::new(3, &[(5, 0, 1)]), Err(GraphError::InvalidNodeIndex)));
    assert_eq!(solve(3, &[(0, 1, 1), (3, 0, 1)], &[0]), Err(GraphError::InvalidNodeIndex));
}

#[test]
fn invalid_source_is_rejected() {
    assert_eq!(solve(4, &sample_edges(), &[0, 4]), Err(GraphError::InvalidNodeIndex));
}

#[test]
fn empty_graph_and_no_sources() {
    let g = Graph::new(0, &[]).unwrap();
    assert_eq!(g.node_count(), 0);
    assert_eq!(solve(0, &[], &[]), Ok(vec![]));
    assert_eq!(solve(3, &sample_edges()[..0], &[]), Ok(vec![]));
}

#[test]
fn neighbors_keep_input_order() {
    let edges = vec![(1, 2, 7), (0, 1, 4), (1, 0, 3), (2, 2, 1), (1, 2, 5)];
    let g = Graph::new(4, &edges).unwrap();
    assert_eq!(g.node_count(), 4);
    assert_eq!(g.neighbors(0), &[(1, 4)]);
    assert_eq!(g.neighbors(1), &[(2, 7), (0, 3), (2, 5)]);
    assert_eq!(g.neighbors(2), &[(2, 1)]);
    assert!(g.neighbors(3).is_empty());
}

#[test]
fn frontier_pops_least_cost_then_node() {
    let mut f = Frontier::with_capacity(4);
    f.push(5, 1);
    f.push(2, 9);
    f.push(2, 3);
    f.push(8, 0);
    assert_eq!(f.len(), 4);
    assert_eq!(f.pop(), Some((2, 3)));
    assert_eq!(f.pop(), Some((2, 9)));
    assert_eq!(f.pop(), Some((5, 1)));
    assert_eq!(f.pop(), Some((8, 0)));
    assert_eq!(f.pop(), None);
    f.push(1, 1);
    f.clear();
    assert!(f.is_empty());
}

#[test]
fn frontier_drains_in_sorted_order() {
    let mut f = Frontier::new();
    let mut expected = Vec::new();
    for i in 0..200usize {
        let cost = ((i * 7919) % 61) as u32;
        let node = (i * 31) % 17;
        f.push(cost, node);
        expected.push((cost, node));
    }
    expected.sort();
    let mut got = Vec::new();
    while let Some(e) = f.pop() {
        got.push(e);
    }
    assert_eq!(got, expected);
}

fn bellman_ford(n: usize, edges: &[(usize, usize, u32)], s: usize) -> Vec<u32> {
    let mut d = vec![u32::MAX; n];
    d[s] = 0;
    for _ in 0..n {
        for &(u, v, w) in edges {
            if d[u] != u32::MAX {
                let c = d[u].saturating_add(w);
                if c < d[v] {
                    d[v] = c;
                }
            }
        }
    }
    d
}

#[test]
fn matches_bellman_ford_on_generated_graph() {
    let n = 40;
    let mut edges = Vec::new();
    for i in 0..150usize {
        edges.push((i % n, (i * 3 + 7) % n, (i % 10 + 1) as u32));
    }
    let sources: Vec<usize> = (0..n).step_by(3).collect();
    let m = solve(n, &edges, &sources).unwrap();
    for (row, &s) in m.iter().zip(sources.iter()) {
        assert_eq!(row, &bellman_ford(n, &edges, s));
    }
}
