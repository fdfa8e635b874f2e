use graph_canvas::geometry::{Position, Size};
use graph_canvas::graph::{Graph, NodeProperties};

fn props() -> NodeProperties {
    NodeProperties { label: String::from("n") }
}

fn pos(x: i64, y: i64) -> Position {
    Position { x, y }
}

fn size(w: i64, h: i64) -> Size {
    Size { width: w, height: h }
}

#[test]
fn corners_of_the_box_hit_the_node() {
    let mut g = Graph::new();
    let n = g.add_node(pos(10_000, 20_000), size(30_000, 40_000), props());
    // exact top-left corner
    assert_eq!(g.first_node(pos(10_000, 20_000)), Some(n));
    // exact bottom-right corner: position + size
    assert_eq!(g.first_node(pos(40_000, 60_000)), Some(n));
}

#[test]
fn one_unit_outside_the_box_misses_the_node() {
    let mut g = Graph::new();
    let _n = g.add_node(pos(10_000, 20_000), size(30_000, 40_000), props());
    // one surface unit (1000 steps) outside either bound
    assert_eq!(g.first_node(pos(9_000, 20_000)), None);
    assert_eq!(g.first_node(pos(10_000, 19_000)), None);
    assert_eq!(g.first_node(pos(41_000, 60_000)), None);
    assert_eq!(g.first_node(pos(40_000, 61_000)), None);
    // even one step outside misses
    assert_eq!(g.first_node(pos(9_999, 20_000)), None);
    assert_eq!(g.first_node(pos(40_001, 60_000)), None);
}

#[test]
fn overlapping_nodes_yield_the_first_in_creation_order() {
    let mut g = Graph::new();
    let a = g.add_node(pos(0, 0), size(10_000, 10_000), props());
    let b = g.add_node(pos(5_000, 0), size(10_000, 10_000), props());
    // inside both boxes: the earlier handle wins
    assert_eq!(g.first_node(pos(6_000, 1_000)), Some(a));
    // inside b only
    assert_eq!(g.first_node(pos(12_000, 1_000)), Some(b));
    // inside neither
    assert_eq!(g.first_node(pos(50_000, 50_000)), None);
}
