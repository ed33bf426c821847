use route_parser::builder::{BuildError, GraphBuilder};
use route_parser::model::{EdgeData, Node, Way};

/// Great-circle distance in millimetres, as the map layer computes it.
fn haversine_mm(a: &Node, b: &Node) -> u64 {
    let to_rad = |e7: i64| (e7 as f64 / 1e7).to_radians();
    let (p1, l1, p2, l2) = (to_rad(a.lat()), to_rad(a.lon()), to_rad(b.lat()), to_rad(b.lon()));
    let h = ((p2 - p1) / 2.0).sin().powi(2) + p1.cos() * p2.cos() * ((l2 - l1) / 2.0).sin().powi(2);
    let c = 2.0 * h.sqrt().atan2((1.0 - h).sqrt());
    (6_371_000.0 * c * 1000.0).floor() as u64
}

fn lengths(way: &Way) -> Vec<u64> {
    let nodes = way.nodes();
    (0..nodes.len().saturating_sub(1)).map(|i| haversine_mm(&nodes[i], &nodes[i + 1])).collect()
}

fn deg(e7: f64) -> i64 {
    (e7 * 1e7).round() as i64
}

#[test]
fn add_node() {
    let mut builder = GraphBuilder::new();
    let node1 = Node::new(1, deg(52.0), deg(13.0));
    let node2 = Node::new(2, deg(52.1), deg(13.1));
    let node3 = Node::new(3, deg(52.2), deg(13.2));

    builder.add_node(node1);
    builder.add_node(node2);
    builder.add_node(node3);

    let graph = builder.build();
    assert_eq!(graph.nodes().len(), 3);
    assert_eq!(graph.adj().len(), 3);
    assert_eq!(graph.adj()[0].len(), 0);
}

#[test]
fn add_node_again_returns_its_index() {
    let mut builder = GraphBuilder::new();
    assert_eq!(builder.add_node(Node::new(40, 0, 0)), 0);
    assert_eq!(builder.add_node(Node::new(7, 0, 0)), 1);
    assert_eq!(builder.add_node(Node::new(40, 5, 5)), 0);
    let graph = builder.build();
    assert_eq!(graph.nodes().len(), 2);
    assert_eq!(graph.nodes()[0].lat(), 0);
}

#[test]
fn add_edge_bidirectional() {
    let mut builder = GraphBuilder::new();
    let node1 = Node::new(1, deg(52.0), deg(13.0));
    let node2 = Node::new(2, deg(52.1), deg(13.1));

    builder.add_node(node1);
    builder.add_node(node2);

    let edge_data = EdgeData { way_id: 1, length_mm: 100_000 };

    assert_eq!(builder.add_edge_bidirectional(1, 2, edge_data), Ok(()));

    let graph = builder.build();
    assert_eq!(graph.adj()[0].len(), 1);
    assert_eq!(graph.adj()[1].len(), 1);
}

#[test]
fn add_edge_is_symmetric() {
    let mut builder = GraphBuilder::new();
    builder.add_node(Node::new(10, 0, 0));
    builder.add_node(Node::new(20, 0, 0));
    let e = EdgeData { way_id: 9, length_mm: 1234 };
    builder.add_edge_bidirectional(10, 20, e).unwrap();
    let graph = builder.build();
    let fwd = graph.adj()[0][0];
    let bwd = graph.adj()[1][0];
    assert_eq!((fwd.osm_id, fwd.node_index, fwd.edge_data), (20, 1, e));
    assert_eq!((bwd.osm_id, bwd.node_index, bwd.edge_data), (10, 0, e));
}

#[test]
fn add_edge_unknown_node_fails() {
    let mut builder = GraphBuilder::new();
    builder.add_node(Node::new(1, 0, 0));
    let e = EdgeData { way_id: 1, length_mm: 5 };
    assert_eq!(builder.add_edge_bidirectional(3, 1, e), Err(BuildError::UnknownNode(3)));
    assert_eq!(builder.add_edge_bidirectional(1, 4, e), Err(BuildError::UnknownNode(4)));
    let graph = builder.build();
    assert_eq!(graph.adj()[0].len(), 0);
}

#[test]
fn add_way() {
    let mut builder = GraphBuilder::new();
    let node1 = Node::new(1, deg(52.0), deg(13.0));
    let node2 = Node::new(2, deg(52.1), deg(13.1));
    let node3 = Node::new(3, deg(52.2), deg(13.2));

    let way = Way::new(1, vec![1, 2, 3], vec![node1.clone(), node2.clone(), node3.clone()]);

    builder.add_way(&way, &lengths(&way));

    let graph = builder.build();
    assert_eq!(graph.nodes().len(), 3);
    assert_eq!(graph.adj()[0].len(), 1);
    assert_eq!(graph.adj()[1].len(), 2);
    assert_eq!(graph.adj()[2].len(), 1);
    // the first neighbor of node 1 should be node 2 OSM ID

    assert_eq!(graph.adj()[0][0].osm_id, 2);
    assert_eq!(graph.adj()[1].len(), 2);
    assert_eq!(graph.adj()[1][0].osm_id, 1);
    assert_eq!(graph.adj()[1][1].osm_id, 3);
}

#[test]
fn add_way_lengths_and_way_id() {
    let mut builder = GraphBuilder::new();
    let a = Node::new(1, deg(52.0), deg(13.0));
    let b = Node::new(2, deg(52.0), deg(13.001));
    let way = Way::new(77, vec![1, 2], vec![a, b]);
    let ls = lengths(&way);
    // about 68.5 m between the two points
    assert!(ls[0] > 68_000 && ls[0] < 69_000);
    builder.add_way(&way, &ls);
    let graph = builder.build();
    assert_eq!(graph.adj()[0][0].edge_data, EdgeData { way_id: 77, length_mm: ls[0] });
    assert_eq!(graph.adj()[1][0].edge_data, EdgeData { way_id: 77, length_mm: ls[0] });
}

#[test]
fn add_way_with_one_node_adds_nothing() {
    let mut builder = GraphBuilder::new();
    let way = Way::new(5, vec![1], vec![Node::new(1, 0, 0)]);
    builder.add_way(&way, &vec![]);
    let graph = builder.build();
    assert_eq!(graph.nodes().len(), 0);
}

#[test]
fn add_two_ways() {
    let mut builder = GraphBuilder::new();
    let node1 = Node::new(1, deg(52.0), deg(13.0));
    let node2 = Node::new(2, deg(52.1), deg(13.1));
    let node3 = Node::new(3, deg(52.2), deg(13.2));

    let way = Way::new(1, vec![1, 2, 3], vec![node1.clone(), node2.clone(), node3.clone()]);

    let node4 = Node::new(4, deg(52.3), deg(13.3));
    let way2 = Way::new(2, vec![3, 4], vec![node3.clone(), node4.clone()]);

    builder.add_way(&way, &lengths(&way));
    builder.add_way(&way2, &lengths(&way2));
    let graph = builder.build();

    assert_eq!(graph.nodes().len(), 4);
    assert_eq!(graph.adj()[0].len(), 1);

    // node with OSM ID 3 should have 2 neighbors, 2 and 4
    assert_eq!(graph.adj()[2].len(), 2);
    assert_eq!(graph.adj()[2][0].osm_id, 2);
    assert_eq!(graph.adj()[2][1].osm_id, 4);
}

#[test]
fn add_multiple_ways() {
    let mut builder = GraphBuilder::new();
    let node1 = Node::new(1, deg(52.0), deg(13.0));
    let node2 = Node::new(2, deg(52.1), deg(13.1));
    let node3 = Node::new(3, deg(52.2), deg(13.2));

    let way = Way::new(1, vec![1, 2, 3], vec![node1.clone(), node2.clone(), node3.clone()]);

    let node4 = Node::new(4, deg(52.3), deg(13.3));
    let way2 = Way::new(2, vec![3, 4], vec![node3.clone(), node4.clone()]);

    let node5 = Node::new(5, deg(52.4), deg(13.4));
    let node6 = Node::new(6, deg(52.5), deg(13.5));
    let way3 = Way::new(3, vec![3, 5, 6], vec![node3.clone(), node5.clone(), node6.clone()]);

    builder.add_way(&way, &lengths(&way));
    builder.add_way(&way2, &lengths(&way2));
    builder.add_way(&way3, &lengths(&way3));
    let graph = builder.build();

    assert_eq!(graph.nodes().len(), 6);

    // node with OSM ID 3 should have 3 neighbors, 2,4 and 5
    assert_eq!(graph.adj()[2].len(), 3);
    assert_eq!(graph.adj()[2][0].osm_id, 2);
    assert_eq!(graph.adj()[2][1].osm_id, 4);
    assert_eq!(graph.adj()[2][2].osm_id, 5);
}
