use route_parser::graph::Graph;
use route_parser::model::{EdgeData, Neighbor, Node};

fn make_node(id: u64) -> Node {
    Node::new(id, 0, 0)
}

fn nb(osm_id: u64, node_index: usize, way_id: u64, length_mm: u64) -> Neighbor {
    Neighbor { osm_id, node_index, edge_data: EdgeData { way_id, length_mm } }
}

/// All nodes sit at one position, so every straight-line distance is zero.
fn flat_bounds(graph: &Graph) -> Vec<u64> {
    vec![0; graph.nodes().len()]
}

///    0
///   / \
///  1   2
///   \ /
///    3
/// Edges 0–1 and 1–3 are 5 m long, 0–2 and 2–3 are 6 m long.
fn build_diamond() -> Graph {
    let nodes = (0..4).map(make_node).collect::<Vec<_>>();
    let adj = vec![
        vec![nb(1, 1, 0, 5000), nb(2, 2, 0, 6000)],
        vec![nb(0, 0, 0, 5000), nb(3, 3, 0, 5000)],
        vec![nb(0, 0, 0, 6000), nb(3, 3, 0, 6000)],
        vec![nb(1, 1, 0, 5000), nb(2, 2, 0, 6000)],
    ];
    Graph::new(nodes, adj)
}

/// Routes from 0 to 5: 0–1–3–5 (6 m), 0–2–3–5 (6 m), 0–2–4–5 (8 m).
fn build_complex() -> Graph {
    let nodes = (0..6).map(make_node).collect::<Vec<_>>();
    let adj = vec![
        vec![nb(1, 1, 1, 2000), nb(2, 2, 1, 3000)],
        vec![nb(0, 0, 1, 2000), nb(3, 3, 1, 2000)],
        vec![nb(0, 0, 1, 3000), nb(3, 3, 1, 1000), nb(4, 4, 1, 4000)],
        vec![nb(1, 1, 1, 2000), nb(2, 2, 1, 1000), nb(5, 5, 1, 2000)],
        vec![nb(2, 2, 1, 4000), nb(5, 5, 1, 1000)],
        vec![nb(3, 3, 1, 2000), nb(4, 4, 1, 1000)],
    ];
    Graph::new(nodes, adj)
}

fn isolated_pair() -> Graph {
    Graph::new(vec![make_node(0), make_node(1)], vec![vec![], vec![]])
}

#[test]
fn returns_exactly_target_length() {
    let graph = build_diamond();
    // only [0,1,3] is 10 m long
    let paths = graph.bfs(0, 3, 5, 10_000, 0, &flat_bounds(&graph));
    assert_eq!(paths.len(), 1);
    assert_eq!(paths[0].0, vec![0, 1, 3]);
    assert_eq!(paths[0].1, 10_000);
}

#[test]
fn returns_within_tolerance() {
    let graph = build_diamond();
    // accept both 10 m and 12 m within 2 m
    let paths = graph.bfs(0, 3, 5, 11_000, 2_000, &flat_bounds(&graph));
    let mut results = paths.iter().map(|(p, _)| p.clone()).collect::<Vec<_>>();
    results.sort();
    assert_eq!(results, vec![vec![0, 1, 3], vec![0, 2, 3]]);
}

#[test]
fn within_tolerance_distances() {
    let graph = build_diamond();
    let paths = graph.bfs(0, 3, 5, 11_000, 2_000, &flat_bounds(&graph));
    assert_eq!(paths, vec![(vec![0, 1, 3], 10_000), (vec![0, 2, 3], 12_000)]);
}

#[test]
fn respects_k_limit() {
    let graph = build_diamond();
    // k = 1, even though two are in range, only the first is returned
    let paths = graph.bfs(0, 3, 1, 11_000, 2_000, &flat_bounds(&graph));
    assert_eq!(paths.len(), 1);
    assert_eq!(paths[0].0, vec![0, 1, 3]);
}

#[test]
fn no_paths_if_none_within_range() {
    let graph = build_diamond();
    let paths = graph.bfs(0, 3, 5, 11_000, 0, &flat_bounds(&graph));
    assert!(paths.is_empty());
}

#[test]
fn unreachable_returns_empty() {
    let graph = isolated_pair();
    let paths = graph.bfs(0, 1, 3, 10_000, 5_000, &flat_bounds(&graph));
    assert!(paths.is_empty());
}

#[test]
fn bfs_with_zero_k_returns_nothing() {
    let graph = build_diamond();
    assert!(graph.bfs(0, 3, 0, 10_000, 0, &flat_bounds(&graph)).is_empty());
}

#[test]
fn bfs_straight_line_bound_prunes() {
    let graph = build_diamond();
    // node 2 claims to lie 7 m from the goal by air: 6 + 7 > 11 + 1
    let bounds = vec![0, 0, 7_000, 0];
    let paths = graph.bfs(0, 3, 5, 11_000, 1_000, &bounds);
    assert_eq!(paths, vec![(vec![0, 1, 3], 10_000)]);
}

#[test]
fn test_bfs_k_constrained_complex() {
    let graph = build_complex();
    let paths = graph.bfs(0, 5, 3, 6_000, 1_000, &flat_bounds(&graph));
    assert_eq!(paths.len(), 2);
    let expected = vec![(vec![0, 1, 3, 5], 6_000), (vec![0, 2, 3, 5], 6_000)];
    assert_eq!(paths, expected);
}

#[test]
fn test_bfs_finds_exact_loop_on_complex_graph() {
    let nodes = vec![make_node(10), make_node(11), make_node(12), make_node(13), make_node(14)];
    let mut adj: Vec<Vec<Neighbor>> = vec![Vec::new(); 5];
    let mut add_edge = |u: usize, v: usize| {
        adj[u].push(nb(1, v, 1, 5000));
        adj[v].push(nb(0, u, 1, 5000));
    };
    // big 3-node cycle 1→2→3→1
    add_edge(1, 2);
    add_edge(2, 3);
    add_edge(3, 1);
    // small 2-node loop 1→4→1
    add_edge(1, 4);
    let graph = Graph::new(nodes, adj);

    let paths = graph.bfs(1, 1, 1, 15_000, 100, &flat_bounds(&graph));
    assert_eq!(paths.len(), 1, "expected exactly one matching loop");
    let (path, dist) = &paths[0];
    assert_eq!(path, &vec![1, 2, 3, 1], "wrong loop sequence");
    assert_eq!(*dist, 15_000, "wrong loop distance");
}

#[test]
fn sd_returns_exact_length() {
    let graph = build_diamond();
    let paths = graph.special_dijkstra(0, 3, 5, 10_000, 0, &flat_bounds(&graph));
    assert_eq!(paths.len(), 1);
    assert_eq!(paths[0].0, vec![0, 1, 3]);
    assert_eq!(paths[0].1, 10_000);
}

#[test]
fn sd_returns_within_tolerance() {
    let graph = build_diamond();
    let results = graph.special_dijkstra(0, 3, 5, 11_000, 2_000, &flat_bounds(&graph));
    let mut paths: Vec<Vec<usize>> = results.iter().map(|(p, _)| p.clone()).collect();
    paths.sort();
    assert_eq!(paths, vec![vec![0, 1, 3], vec![0, 2, 3]]);
}

#[test]
fn sd_respects_k_limit() {
    let graph = build_diamond();
    let paths = graph.special_dijkstra(0, 3, 1, 11_000, 2_000, &flat_bounds(&graph));
    assert_eq!(paths.len(), 1);
    assert_eq!(paths[0].0, vec![0, 1, 3]);
}

#[test]
fn sd_unreachable_returns_empty() {
    let graph = isolated_pair();
    let paths = graph.special_dijkstra(0, 1, 3, 10_000, 5_000, &flat_bounds(&graph));
    assert!(paths.is_empty());
}

#[test]
fn sd_k_constrained_complex() {
    let graph = build_complex();
    let results = graph.special_dijkstra(0, 5, 3, 6_000, 1_000, &flat_bounds(&graph));
    assert_eq!(results.len(), 2);
    let mut paths: Vec<Vec<usize>> = results.iter().map(|(p, _)| p.clone()).collect();
    paths.sort();
    assert_eq!(paths, vec![vec![0, 1, 3, 5], vec![0, 2, 3, 5]]);
    for &(_, d) in &results {
        assert_eq!(d, 6_000);
    }
}

#[test]
fn plain_search_same_node() {
    let graph = build_diamond();
    assert_eq!(graph.find_path(2, 2), Some(vec![2]));
}

#[test]
fn plain_search_disconnected() {
    let graph = isolated_pair();
    assert_eq!(graph.find_path(0, 1), None);
}

#[test]
fn plain_search_fewest_edges() {
    let graph = build_complex();
    assert_eq!(graph.find_path(0, 5), Some(vec![0, 1, 3, 5]));
    assert_eq!(graph.find_path(4, 1), Some(vec![4, 2, 0, 1]));
}

#[test]
fn get_paths_bfs_materializes_nodes() {
    let nodes = vec![Node::new(100, 1, 2), Node::new(101, 3, 4), Node::new(102, 5, 6)];
    let adj = vec![vec![nb(101, 1, 0, 700)], vec![nb(100, 0, 0, 700), nb(102, 2, 0, 300)], vec![nb(101, 1, 0, 300)]];
    let graph = Graph::new(nodes, adj);
    let paths = graph.get_paths_bfs(0, 2, 3, 1_000, 0, &vec![0, 0, 0]);
    assert_eq!(paths.len(), 1);
    assert_eq!(paths[0].distance, 1_000);
    let ids: Vec<u64> = paths[0].nodes.iter().map(|n| n.id()).collect();
    assert_eq!(ids, vec![100, 101, 102]);
    assert_eq!(paths[0].nodes[2].lat(), 5);
    let again = graph.get_paths_special_dijkstra(0, 2, 3, 1_000, 0, &vec![0, 0, 0]);
    assert_eq!(again.len(), 1);
    assert_ne!(again[0].id, paths[0].id);
}

#[test]
fn status_reports_full_run() {
    let graph = build_complex();
    let (found, finished) = graph.bfs_with_status(0, 5, 10, 7_000, 1_000, &flat_bounds(&graph));
    assert!(finished);
    // 6 m twice and 8 m once; the 8 m route is 0–2–4–5
    let mut paths: Vec<(Vec<usize>, u64)> = found.clone();
    paths.sort();
    assert_eq!(paths, vec![(vec![0, 1, 3, 5], 6_000), (vec![0, 2, 3, 5], 6_000), (vec![0, 2, 4, 5], 8_000)]);
    let (found2, finished2) = graph.special_dijkstra_with_status(0, 5, 10, 7_000, 1_000, &flat_bounds(&graph), 1_000);
    assert!(finished2);
    assert!(found2.len() >= 3);
    for (p, d) in &found2 {
        assert_eq!(p[0], 0);
        assert_eq!(*p.last().unwrap(), 5);
        assert!(*d >= 6_000 && *d <= 8_000);
    }
}

#[test]
fn closeness_first_cap_stops_early() {
    let graph = build_complex();
    let (found, finished) = graph.special_dijkstra_with_status(0, 5, 10, 7_000, 1_000, &flat_bounds(&graph), 2);
    assert!(!finished);
    assert!(found.is_empty());
}

#[test]
fn bfs_results_distinct_and_ordered() {
    let graph = build_complex();
    let found = graph.bfs(0, 5, 10, 7_000, 1_000, &flat_bounds(&graph));
    assert_eq!(found, vec![(vec![0, 1, 3, 5], 6_000), (vec![0, 2, 3, 5], 6_000), (vec![0, 2, 4, 5], 8_000)]);
}
