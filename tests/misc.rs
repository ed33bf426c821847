use std::collections::HashMap;
use route_parser::benchmarking::make_grid_graph;
use route_parser::model::{Node, Path, Way};
use route_parser::parser::get_nodes_on_ways;

#[test]
fn grid_graph_shape() {
    let g = make_grid_graph(3);
    assert_eq!(g.nodes().len(), 9);
    assert_eq!(g.adj().len(), 9);
    // corner, edge and centre nodes
    assert_eq!(g.adj()[0].len(), 2);
    assert_eq!(g.adj()[1].len(), 3);
    assert_eq!(g.adj()[4].len(), 4);
    assert!(g.adj()[4].iter().all(|n| n.edge_data.length_mm == 1000));
}

#[test]
fn grid_graph_search() {
    let g = make_grid_graph(3);
    let bounds = vec![0; 9];
    let found = g.bfs(0, 8, 10, 4_000, 0, &bounds);
    // six shortest lattice routes from corner to corner
    assert_eq!(found.len(), 6);
    assert!(found.iter().all(|(p, d)| p.len() == 5 && *d == 4_000));
}

#[test]
fn resolve_way_nodes() {
    let mut nodes = HashMap::new();
    nodes.insert(1u64, Node::new(1, 10, 20));
    nodes.insert(3u64, Node::new(3, 30, 40));
    let ways = vec![Way::new(7, vec![1, 2, 3], vec![]), Way::new(8, vec![2], vec![])];
    let out = get_nodes_on_ways(nodes, &ways);
    assert_eq!(out.len(), 2);
    assert_eq!(out[0].id(), 7);
    assert_eq!(out[0].node_refs(), vec![1, 2, 3]);
    let ids: Vec<u64> = out[0].nodes().iter().map(|n| n.id()).collect();
    assert_eq!(ids, vec![1, 3]);
    assert_eq!(out[0].nodes()[1].lon(), 40);
    assert!(out[1].nodes().is_empty());
}

#[test]
fn path_new_keeps_fields_and_fresh_id() {
    let a = Path::new(vec![Node::new(5, 1, 1)], 42);
    let b = Path::new(vec![Node::new(5, 1, 1)], 42);
    assert_eq!(a.distance, 42);
    assert_eq!(a.nodes.len(), 1);
    assert_ne!(a.id, b.id);
}
