use graph_canvas::geometry::{Position, Size};
use graph_canvas::graph::{EdgeProperties, Graph, NodeProperties};

fn props() -> NodeProperties {
    NodeProperties { label: String::from("n") }
}

fn pos(x: i64, y: i64) -> Position {
    Position { x, y }
}

fn size(w: i64, h: i64) -> Size {
    Size { width: w, height: h }
}

fn center(g: &Graph, n: graph_canvas::graph::Node) -> Position {
    g.node_center(n).expect("valid handle")
}

fn distance(p: Position, q: Position) -> f64 {
    let dx = (q.x - p.x) as f64;
    let dy = (q.y - p.y) as f64;
    (dx * dx + dy * dy).sqrt()
}

#[test]
fn delta_measures_euclidean_distance_rounded_down() {
    // a 3-4-5 triangle in surface units
    let p = pos(0, 0);
    let q = pos(3_000, 4_000);
    assert_eq!(p.delta(q), 5_000);
    assert_eq!(q.delta(p), 5_000);
    assert_eq!(p.delta(p), 0);
    // a non-square distance rounds down: sqrt(2) * 1000 = 1414.2...
    assert_eq!(pos(0, 0).delta(pos(1_000, 1_000)), 1_414);
}

#[test]
fn settled_edge_moves_nothing() {
    let mut g = Graph::new();
    // centers at (25000, 25000) and (125000, 25000): distance 100000,
    // exactly the rest length of a weight-100 edge
    let a = g.add_node(pos(0, 0), size(50_000, 50_000), props());
    let b = g.add_node(pos(100_000, 0), size(50_000, 50_000), props());
    g.add_edge(a, b, EdgeProperties { weight: 100 });
    g.tick();
    assert_eq!(g.node_position(a), Some(pos(0, 0)));
    assert_eq!(g.node_position(b), Some(pos(100_000, 0)));
}

#[test]
fn edge_within_epsilon_of_rest_length_moves_nothing() {
    let mut g = Graph::new();
    // centers 100100 apart: distance error is exactly the 0.1-unit epsilon
    let a = g.add_node(pos(0, 0), size(0, 0), props());
    let b = g.add_node(pos(100_100, 0), size(0, 0), props());
    g.add_edge(a, b, EdgeProperties { weight: 100 });
    g.tick();
    assert_eq!(g.node_position(a), Some(pos(0, 0)));
    assert_eq!(g.node_position(b), Some(pos(100_100, 0)));
}

#[test]
fn long_edge_pulls_each_endpoint_exactly_the_clamp() {
    let mut g = Graph::new();
    // zero-sized nodes on the x axis, far beyond the rest length: the pull
    // is clamped to 5 units (5000 steps) per endpoint per tick
    let a = g.add_node(pos(0, 0), size(0, 0), props());
    let b = g.add_node(pos(10_000_000, 0), size(0, 0), props());
    g.add_edge(a, b, EdgeProperties { weight: 1 });
    g.tick();
    assert_eq!(g.node_position(a), Some(pos(5_000, 0)));
    assert_eq!(g.node_position(b), Some(pos(9_995_000, 0)));
}

#[test]
fn short_edge_pushes_endpoints_apart_within_the_clamp() {
    let mut g = Graph::new();
    // 10 units apart with a rest length of 100 units: pushed apart, each
    // end by the full 5-unit clamp
    let a = g.add_node(pos(0, 0), size(0, 0), props());
    let b = g.add_node(pos(10_000, 0), size(0, 0), props());
    g.add_edge(a, b, EdgeProperties { weight: 100 });
    g.tick();
    assert_eq!(g.node_position(a), Some(pos(-5_000, 0)));
    assert_eq!(g.node_position(b), Some(pos(15_000, 0)));
}

#[test]
fn displacement_never_exceeds_five_units_per_tick() {
    let mut g = Graph::new();
    let a = g.add_node(pos(0, 0), size(50_000, 50_000), props());
    let b = g.add_node(pos(200_000, 0), size(50_000, 50_000), props());
    let c = g.add_node(pos(0, 90_000), size(10_000, 10_000), props());
    g.add_edge(a, b, EdgeProperties { weight: 100 });
    g.add_edge(a, c, EdgeProperties { weight: 3 });
    g.add_edge(b, c, EdgeProperties { weight: 700 });
    for _ in 0..50 {
        let before = [center(&g, a), center(&g, b), center(&g, c)];
        g.tick();
        let after = [center(&g, a), center(&g, b), center(&g, c)];
        for k in 0..3 {
            // a node on two edges can be pulled once per edge per tick
            assert!(distance(before[k], after[k]) <= 2.0 * 5_000.0 + 1e-9);
        }
    }
}

#[test]
fn two_connected_nodes_converge_to_the_rest_length() {
    let mut g = Graph::new();
    // two nodes at (0, 0) and (200, 0) surface units, each 50x50,
    // connected with weight 100
    let a = g.add_node(pos(0, 0), size(50_000, 50_000), props());
    let b = g.add_node(pos(200_000, 0), size(50_000, 50_000), props());
    g.add_edge(a, b, EdgeProperties { weight: 100 });
    let mut last = distance(center(&g, a), center(&g, b));
    for _ in 0..60 {
        let before_a = center(&g, a);
        let before_b = center(&g, b);
        g.tick();
        let after_a = center(&g, a);
        let after_b = center(&g, b);
        // the clamp bounds every per-tick jump of a center by 5 units
        assert!(distance(before_a, after_a) <= 5_000.0 + 1e-9);
        assert!(distance(before_b, after_b) <= 5_000.0 + 1e-9);
        last = distance(after_a, after_b);
    }
    // converged to 100 units, within 0.2 units
    assert!((last - 100_000.0).abs() <= 200.0, "distance ended at {last}");
    // and it stays there
    g.tick();
    let settled = distance(center(&g, a), center(&g, b));
    assert!((settled - 100_000.0).abs() <= 200.0);
}

#[test]
fn node_without_edges_never_moves() {
    let mut g = Graph::new();
    let a = g.add_node(pos(7_000, 9_000), size(10_000, 10_000), props());
    let b = g.add_node(pos(100_000, 0), size(0, 0), props());
    let c = g.add_node(pos(300_000, 0), size(0, 0), props());
    g.add_edge(b, c, EdgeProperties { weight: 10 });
    for _ in 0..10 {
        g.tick();
    }
    assert_eq!(g.node_position(a), Some(pos(7_000, 9_000)));
}

#[test]
fn repulsion_pass_pushes_close_nodes_apart_when_enabled() {
    let mut g = Graph::new();
    let a = g.add_node(pos(0, 0), size(0, 0), props());
    let b = g.add_node(pos(10_000, 0), size(0, 0), props());
    // no edges: without the repulsion pass nothing moves
    g.tick();
    assert_eq!(g.node_position(a), Some(pos(0, 0)));
    assert_eq!(g.node_position(b), Some(pos(10_000, 0)));
    g.set_repulsion(true);
    g.tick();
    // ordered pair (a, b): both pushed apart by the clamp, then (b, a)
    // pushes both again
    assert_eq!(g.node_position(a), Some(pos(-10_000, 0)));
    assert_eq!(g.node_position(b), Some(pos(20_000, 0)));
}

#[test]
fn distant_nodes_are_not_repulsed() {
    let mut g = Graph::new();
    let a = g.add_node(pos(0, 0), size(0, 0), props());
    let b = g.add_node(pos(150_000, 0), size(0, 0), props());
    g.set_repulsion(true);
    g.tick();
    assert_eq!(g.node_position(a), Some(pos(0, 0)));
    assert_eq!(g.node_position(b), Some(pos(150_000, 0)));
}
