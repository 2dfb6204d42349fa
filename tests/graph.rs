use mst::graph::{Edge, Graph};

fn ends(e: &Edge) -> (usize, usize, i64) {
    (e.u.0, e.v.0, e.weight)
}

/// Components by repeated relabelling, independent of the library's union-find.
fn component_labels(n: usize, edges: &[Edge]) -> Vec<usize> {
    let mut label: Vec<usize> = (0..n).collect();
    let mut changed = true;
    while changed {
        changed = false;
        for e in edges {
            let (a, b) = (label[e.u.0], label[e.v.0]);
            if a != b {
                let (keep, gone) = (a.min(b), a.max(b));
                for l in label.iter_mut() {
                    if *l == gone {
                        *l = keep;
                    }
                }
                changed = true;
            }
        }
    }
    label
}

fn count_components(n: usize, edges: &[Edge]) -> usize {
    let label = component_labels(n, edges);
    (0..n).filter(|&x| label[x] == x).count()
}

fn is_acyclic(n: usize, edges: &[Edge]) -> bool {
    let mut seen: Vec<Edge> = Vec::new();
    for e in edges {
        let label = component_labels(n, &seen);
        if label[e.u.0] == label[e.v.0] {
            return false;
        }
        seen.push(*e);
    }
    true
}

#[test]
fn test_kruskal_mst() {
    let mut graph = Graph::new();
    graph.add_edge(0, 1, 10);
    graph.add_edge(0, 2, 6);
    graph.add_edge(0, 3, 5);
    graph.add_edge(1, 3, 15);
    graph.add_edge(2, 3, 4);

    let (mst_edges, total_weight) = graph.kruskal_mst();

    assert_eq!(mst_edges.len(), 3);
    assert_eq!(total_weight, 19);
}

#[test]
fn test_disconnected_graph() {
    let mut graph = Graph::new();
    graph.add_edge(0, 1, 1);
    graph.add_edge(2, 3, 1);

    let (mst_edges, total_weight) = graph.kruskal_mst();

    assert_eq!(mst_edges.len(), 2);
    assert_eq!(total_weight, 2);
}

#[test]
fn known_example_reaches_every_node_at_weight_nineteen() {
    let mut graph = Graph::new();
    graph.add_edge(0, 1, 10);
    graph.add_edge(0, 2, 6);
    graph.add_edge(0, 3, 5);
    graph.add_edge(1, 3, 15);
    graph.add_edge(2, 3, 4);

    let (mst_edges, total_weight) = graph.kruskal_mst();
    let kept: Vec<(usize, usize, i64)> = mst_edges.iter().map(ends).collect();
    assert_eq!(kept, vec![(2, 3, 4), (0, 3, 5), (0, 1, 10)]);
    assert_eq!(total_weight, 19);
}

#[test]
fn disconnected_halves_stay_apart() {
    let mut graph = Graph::new();
    graph.add_edge(0, 1, 1);
    graph.add_edge(2, 3, 1);

    let (mst_edges, total_weight) = graph.kruskal_mst();
    assert_eq!(mst_edges.len(), 2);
    assert_eq!(total_weight, 2);
    let label = component_labels(4, &mst_edges);
    assert_eq!(label[0], label[1]);
    assert_eq!(label[2], label[3]);
    assert_ne!(label[0], label[2]);
}

#[test]
fn self_loop_is_never_kept() {
    let mut graph = Graph::new();
    graph.add_edge(1, 1, -100);
    graph.add_edge(0, 1, 3);

    let (mst_edges, total_weight) = graph.kruskal_mst();
    let kept: Vec<(usize, usize, i64)> = mst_edges.iter().map(ends).collect();
    assert_eq!(kept, vec![(0, 1, 3)]);
    assert_eq!(total_weight, 3);
}

#[test]
fn only_the_lightest_parallel_edge_is_kept() {
    let mut graph = Graph::new();
    graph.add_edge(0, 1, 9);
    graph.add_edge(1, 0, 2);
    graph.add_edge(0, 1, 5);

    let (mst_edges, total_weight) = graph.kruskal_mst();
    let kept: Vec<(usize, usize, i64)> = mst_edges.iter().map(ends).collect();
    assert_eq!(kept, vec![(1, 0, 2)]);
    assert_eq!(total_weight, 2);
}

#[test]
fn empty_graph_gives_empty_forest() {
    let mut graph = Graph::new();
    assert_eq!(graph.num_nodes(), 0);
    let (mst_edges, total_weight) = graph.kruskal_mst();
    assert!(mst_edges.is_empty());
    assert_eq!(total_weight, 0);
}

#[test]
fn node_count_covers_the_largest_endpoint() {
    let mut graph = Graph::new();
    graph.add_edge(0, 1, 1);
    assert_eq!(graph.num_nodes(), 2);
    graph.add_edge(5, 2, 1);
    assert_eq!(graph.num_nodes(), 6);
    graph.add_edge(3, 4, 1);
    assert_eq!(graph.num_nodes(), 6);
}

#[test]
fn sort_edges_orders_by_weight() {
    let mut graph = Graph::new();
    graph.add_edge(0, 1, 7);
    graph.add_edge(1, 2, -3);
    graph.add_edge(2, 3, 4);
    graph.add_edge(3, 0, 4);
    graph.add_edge(0, 2, 0);

    graph.sort_edges();
    let weights: Vec<i64> = graph.edges.iter().map(|e| e.weight).collect();
    assert_eq!(weights, vec![-3, 0, 4, 4, 7]);
}

#[test]
fn sorting_twice_keeps_the_weight_order() {
    let mut graph = Graph::new();
    graph.add_edge(0, 1, 3);
    graph.add_edge(1, 2, 1);
    graph.add_edge(2, 0, 3);
    graph.add_edge(2, 3, 2);

    graph.sort_edges();
    let first: Vec<i64> = graph.edges.iter().map(|e| e.weight).collect();
    graph.sort_edges();
    let second: Vec<i64> = graph.edges.iter().map(|e| e.weight).collect();
    assert_eq!(first, second);
    assert_eq!(first, vec![1, 2, 3, 3]);
}

#[test]
fn unsorted_scan_keeps_edges_in_given_order() {
    let mut graph = Graph::new();
    graph.add_edge(0, 1, 10);
    graph.add_edge(1, 2, 1);
    graph.add_edge(0, 2, 1);

    let (mst_edges, total_weight) = graph.kruskal_from_sorted_edges();
    let kept: Vec<(usize, usize, i64)> = mst_edges.iter().map(ends).collect();
    assert_eq!(kept, vec![(0, 1, 10), (1, 2, 1)]);
    assert_eq!(total_weight, 11);
}

#[test]
fn negative_weights_are_summed() {
    let mut graph = Graph::new();
    graph.add_edge(0, 1, -5);
    graph.add_edge(1, 2, -7);
    graph.add_edge(0, 2, 1);

    let (mst_edges, total_weight) = graph.kruskal_mst();
    assert_eq!(mst_edges.len(), 2);
    assert_eq!(total_weight, -12);
}

#[test]
fn extreme_weights_cancel_in_the_total() {
    let mut graph = Graph::new();
    graph.add_edge(0, 1, i64::MIN + 1);
    graph.add_edge(1, 2, i64::MAX);

    let (mst_edges, total_weight) = graph.kruskal_mst();
    assert_eq!(mst_edges.len(), 2);
    assert_eq!(total_weight, 0);
}

#[test]
fn isolated_node_forms_its_own_component() {
    let mut graph = Graph::new();
    graph.add_edge(0, 1, 2);
    graph.add_edge(1, 3, 2);
    graph.add_edge(0, 3, 1);

    let (mst_edges, total_weight) = graph.kruskal_mst();
    assert_eq!(graph.num_nodes(), 4);
    assert_eq!(mst_edges.len(), 2);
    assert_eq!(total_weight, 3);
    assert_eq!(mst_edges.len(), 4 - count_components(4, &graph.edges));
}

#[test]
fn forest_size_and_acyclicity_on_a_dense_graph() {
    let mut graph = Graph::new();
    let mut w: i64 = 17;
    for a in 0..7usize {
        for b in 0..7usize {
            if (a * 3 + b) % 4 != 0 {
                graph.add_edge(a, b, w % 11 - 3);
                w = w * 31 % 101;
            }
        }
    }
    let n = graph.num_nodes();
    let (mst_edges, total_weight) = graph.kruskal_mst();
    assert_eq!(mst_edges.len(), n - count_components(n, &graph.edges));
    assert!(is_acyclic(n, &mst_edges));
    assert!(mst_edges.iter().all(|e| e.u.0 != e.v.0));
    assert_eq!(total_weight, mst_edges.iter().map(|e| e.weight).sum::<i64>());
}

#[test]
fn scan_stops_once_the_tree_spans_every_node() {
    let mut graph = Graph::new();
    graph.add_edge(0, 1, 1);
    graph.add_edge(1, 2, 2);
    graph.add_edge(0, 2, 3);
    graph.add_edge(2, 0, 4);

    let (mst_edges, total_weight) = graph.kruskal_mst();
    assert_eq!(mst_edges.len(), 2);
    assert_eq!(total_weight, 3);
}

/// The lightest edge subset that is acyclic and connects what the whole graph connects,
/// found by trying every subset.
fn brute_force_minimum(n: usize, edges: &[Edge]) -> i64 {
    let target = count_components(n, edges);
    let mut best: Option<i64> = None;
    for mask in 0u32..(1u32 << edges.len()) {
        let chosen: Vec<Edge> = (0..edges.len()).filter(|i| mask & (1 << i) != 0).map(|i| edges[i]).collect();
        if is_acyclic(n, &chosen) && count_components(n, &chosen) == target {
            let w: i64 = chosen.iter().map(|e| e.weight).sum();
            best = Some(best.map_or(w, |b| b.min(w)));
        }
    }
    best.unwrap()
}

#[test]
fn forest_weight_matches_exhaustive_search() {
    let cases: Vec<Vec<(usize, usize, i64)>> = vec![
        vec![(0, 1, 10), (0, 2, 6), (0, 3, 5), (1, 3, 15), (2, 3, 4)],
        vec![(0, 1, 3), (1, 2, 3), (2, 0, 3), (3, 4, -2), (4, 5, 7), (3, 5, 1), (5, 5, -9)],
        vec![(0, 1, 4), (0, 1, 2), (1, 2, 8), (2, 3, -1), (3, 0, 6), (1, 3, 5), (4, 6, 2), (6, 7, 0)],
        vec![(2, 5, 1), (5, 7, 1), (7, 2, 1), (0, 7, 9), (1, 0, -4), (1, 2, 3), (6, 3, 2), (3, 4, 2)],
    ];
    for case in cases {
        let mut graph = Graph::new();
        for &(u, v, w) in &case {
            graph.add_edge(u, v, w);
        }
        let n = graph.num_nodes();
        let expected = brute_force_minimum(n, &graph.edges);
        let (mst_edges, total_weight) = graph.kruskal_mst();
        assert_eq!(total_weight, expected);
        assert!(is_acyclic(n, &mst_edges));
    }
}

#[test]
fn declared_nodes_without_edges_are_components_of_their_own() {
    let mut graph = Graph::with_nodes(5);
    assert_eq!(graph.num_nodes(), 5);
    graph.add_edge(0, 1, 8);
    assert_eq!(graph.num_nodes(), 5);
    let (mst_edges, total_weight) = graph.kruskal_mst();
    assert_eq!(mst_edges.len(), 5 - count_components(5, &graph.edges));
    assert_eq!(mst_edges.len(), 1);
    assert_eq!(total_weight, 8);
}
