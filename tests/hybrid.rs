use route_parser::builder::GraphBuilder;
use route_parser::graph::Graph;
use route_parser::model::{EdgeData, Node};

/// The diamond 0–1–3 (5 m + 5 m) and 0–2–3 (6 m + 6 m), built edge by edge.
fn diamond() -> Graph {
    let mut b = GraphBuilder::new();
    for id in 0..4u64 {
        b.add_node(Node::new(id, 0, 0));
    }
    let e = |len: u64| EdgeData { way_id: 0, length_mm: len };
    b.add_edge_bidirectional(0, 1, e(5000)).unwrap();
    b.add_edge_bidirectional(1, 3, e(5000)).unwrap();
    b.add_edge_bidirectional(0, 2, e(6000)).unwrap();
    b.add_edge_bidirectional(2, 3, e(6000)).unwrap();
    b.build()
}

fn length_of(graph: &Graph, path: &[usize]) -> u64 {
    path.windows(2)
        .map(|w| {
            graph.adj()[w[0]].iter().find(|n| n.node_index == w[1]).expect("consecutive nodes are joined").edge_data.length_mm
        })
        .sum()
}

#[test]
fn reverse_pass_distances() {
    let graph = diamond();
    let (dist, parent) = graph.dijkstra(3, None);
    assert_eq!(dist, vec![Some(10_000), Some(5_000), Some(6_000), Some(0)]);
    assert_eq!(parent, vec![Some(1), Some(3), Some(3), None]);
}

#[test]
fn reverse_pass_cutoff_leaves_far_nodes() {
    let mut b = GraphBuilder::new();
    for id in 0..4u64 {
        b.add_node(Node::new(id, 0, 0));
    }
    let e = EdgeData { way_id: 0, length_mm: 1000 };
    b.add_edge_bidirectional(0, 1, e).unwrap();
    b.add_edge_bidirectional(1, 2, e).unwrap();
    b.add_edge_bidirectional(2, 3, e).unwrap();
    let graph = b.build();
    let (dist, _) = graph.dijkstra(0, Some(1000));
    assert_eq!(dist, vec![Some(0), Some(1000), Some(2000), None]);
}

#[test]
fn hybrid_routes_within_window() {
    let graph = diamond();
    let found = graph.find_paths_with_dfs(0, 3, 4, 11_000, 2_000).expect("start reaches goal");
    assert!(found.len() <= 4);
    assert!(!found.is_empty());
    for (path, d) in &found {
        assert_eq!(path[0], 0);
        assert_eq!(*path.last().unwrap(), 3);
        assert!(*d >= 9_000 && *d <= 13_000);
        assert_eq!(length_of(&graph, path), *d);
    }
}

#[test]
fn hybrid_exact_target() {
    let graph = diamond();
    let found = graph.find_paths_with_dfs(0, 3, 3, 12_000, 0).expect("start reaches goal");
    assert_eq!(found.len(), 3);
    for (path, d) in &found {
        assert_eq!(*d, 12_000);
        assert_eq!(path, &vec![0, 2, 3]);
    }
}

#[test]
fn hybrid_unreachable_start_gives_none() {
    let mut b = GraphBuilder::new();
    b.add_node(Node::new(0, 0, 0));
    b.add_node(Node::new(1, 0, 0));
    let graph = b.build();
    assert!(graph.find_paths_with_dfs(0, 1, 3, 10_000, 5_000).is_none());
    assert!(graph.get_paths_dfs(0, 1, 3, 10_000, 5_000).is_none());
}

#[test]
fn residuals_without_start_distance_give_none() {
    let graph = diamond();
    let dist = vec![None, Some(5_000), Some(6_000), Some(0)];
    let parent = vec![None, Some(3), Some(3), None];
    let mut rng = rand::rng();
    assert!(graph.paths_from_residuals(0, 3, 5, 10_000, 0, &dist, &parent, &mut rng).is_none());
}

#[test]
fn residuals_give_stitched_route() {
    let graph = diamond();
    let (dist, parent) = graph.dijkstra(3, None);
    let mut rng = rand::rng();
    let found = graph.paths_from_residuals(0, 3, 2, 10_000, 0, &dist, &parent, &mut rng).unwrap();
    assert_eq!(found, vec![(vec![0, 1, 3], 10_000), (vec![0, 1, 3], 10_000)]);
}

#[test]
fn get_paths_dfs_nodes() {
    let graph = diamond();
    let paths = graph.get_paths_dfs(0, 3, 1, 10_000, 0).unwrap();
    assert_eq!(paths.len(), 1);
    assert_eq!(paths[0].distance, 10_000);
    let ids: Vec<u64> = paths[0].nodes.iter().map(|n| n.id()).collect();
    assert_eq!(ids, vec![0, 1, 3]);
}
