use route_parser::graph::nearest_index;
use route_parser::model::Node;

/// Great-circle distance in millimetres from a point to a node.
fn haversine_mm(lat: f64, lon: f64, n: &Node) -> u64 {
    let (p1, l1) = (lat.to_radians(), lon.to_radians());
    let (p2, l2) = ((n.lat() as f64 / 1e7).to_radians(), (n.lon() as f64 / 1e7).to_radians());
    let h = ((p2 - p1) / 2.0).sin().powi(2) + p1.cos() * p2.cos() * ((l2 - l1) / 2.0).sin().powi(2);
    let c = 2.0 * h.sqrt().atan2((1.0 - h).sqrt());
    (6_371_000.0 * c * 1000.0).floor() as u64
}

fn three_nodes() -> Vec<Node> {
    vec![Node::new(0, 0, 0), Node::new(1, 0, 10_000_000), Node::new(2, 10_000_000, 0)]
}

fn snap(nodes: &[Node], lat: f64, lon: f64) -> usize {
    let ds: Vec<u64> = nodes.iter().map(|n| haversine_mm(lat, lon, n)).collect();
    nearest_index(&ds)
}

#[test]
fn nearest_to_origin() {
    let nodes = three_nodes();
    assert_eq!(snap(&nodes, 0.0, 0.0), 0);
    assert_eq!(snap(&nodes, 0.1, -0.1), 0);
}

#[test]
fn nearest_to_north() {
    let nodes = three_nodes();
    assert_eq!(snap(&nodes, 0.0, 0.9), 1);
    assert_eq!(snap(&nodes, 0.1, 0.9), 1);
}

#[test]
fn nearest_to_east() {
    let nodes = three_nodes();
    assert_eq!(snap(&nodes, 0.9, 0.1), 2);
    assert_eq!(snap(&nodes, 0.9, -0.1), 2);
}

#[test]
fn nearest_ties_pick_lowest_index() {
    assert_eq!(nearest_index(&vec![7, 3, 3, 9]), 1);
    assert_eq!(nearest_index(&vec![5]), 0);
    assert_eq!(nearest_index(&vec![4, 4, 4]), 0);
}

#[test]
fn snapping_is_idempotent() {
    let nodes = three_nodes();
    for &(lat, lon) in &[(0.1, -0.1), (0.0, 0.9), (0.9, 0.1)] {
        let i = snap(&nodes, lat, lon);
        let back = snap(&nodes, nodes[i].lat() as f64 / 1e7, nodes[i].lon() as f64 / 1e7);
        assert_eq!(back, i);
    }
}
