use graph_canvas::geometry::{Position, Size};
use graph_canvas::graph::{EdgeProperties, Graph, NodeProperties};

fn props() -> NodeProperties {
    NodeProperties { label: String::from("n") }
}

fn pos(x: i64, y: i64) -> Position {
    Position { x, y }
}

fn size(w: i64, h: i64) -> Size {
    Size { width: w, height: h }
}

#[test]
fn hover_follows_the_pointer() {
    let mut g = Graph::new();
    let a = g.add_node(pos(0, 0), size(10_000, 10_000), props());
    let b = g.add_node(pos(50_000, 0), size(10_000, 10_000), props());
    g.mouse_move(pos(5_000, 5_000));
    assert_eq!(g.hover_target(), Some(a));
    // still inside a: the hover target is kept
    g.mouse_move(pos(9_000, 9_000));
    assert_eq!(g.hover_target(), Some(a));
    // over b: the hover target switches
    g.mouse_move(pos(55_000, 5_000));
    assert_eq!(g.hover_target(), Some(b));
    // over empty space: no hover target
    g.mouse_move(pos(200_000, 200_000));
    assert_eq!(g.hover_target(), None);
}

#[test]
fn pressing_without_hover_does_not_start_a_drag() {
    let mut g = Graph::new();
    let _a = g.add_node(pos(0, 0), size(10_000, 10_000), props());
    g.mouse_move(pos(100_000, 100_000));
    g.mouse_down();
    assert!(!g.is_dragging());
}

#[test]
fn drag_snaps_the_node_center_to_the_pointer() {
    let mut g = Graph::new();
    let n = g.add_node(pos(10_000, 10_000), size(20_000, 20_000), props());
    g.mouse_move(pos(15_000, 15_000));
    assert_eq!(g.hover_target(), Some(n));
    g.mouse_down();
    assert!(g.is_dragging());
    g.mouse_move(pos(80_000, 90_000));
    // the center lands exactly on the pointer
    assert_eq!(g.node_center(n), Some(pos(80_000, 90_000)));
    assert_eq!(g.node_position(n), Some(pos(70_000, 80_000)));
}

#[test]
fn tick_during_a_drag_does_not_move_the_dragged_node() {
    let mut g = Graph::new();
    let n = g.add_node(pos(10_000, 10_000), size(20_000, 20_000), props());
    let other = g.add_node(pos(300_000, 10_000), size(20_000, 20_000), props());
    g.add_edge(n, other, EdgeProperties { weight: 10 });
    g.mouse_move(pos(15_000, 15_000));
    g.mouse_down();
    g.mouse_move(pos(80_000, 90_000));
    let before_other = g.node_center(other).unwrap();
    g.tick();
    // the dragged node stays exactly where the pointer put it
    assert_eq!(g.node_center(n), Some(pos(80_000, 90_000)));
    // its far-away edge partner is still pulled
    assert_ne!(g.node_center(other), Some(before_other));
}

#[test]
fn releasing_the_button_ends_the_drag_but_keeps_the_hover() {
    let mut g = Graph::new();
    let n = g.add_node(pos(10_000, 10_000), size(20_000, 20_000), props());
    g.mouse_move(pos(15_000, 15_000));
    g.mouse_down();
    g.mouse_up();
    assert!(!g.is_dragging());
    assert_eq!(g.hover_target(), Some(n));
}

#[test]
fn leaving_the_surface_while_dragging_clears_hover_and_drag() {
    let mut g = Graph::new();
    let n = g.add_node(pos(10_000, 10_000), size(20_000, 20_000), props());
    g.mouse_move(pos(15_000, 15_000));
    g.mouse_down();
    g.mouse_move(pos(80_000, 90_000));
    assert!(g.is_dragging());
    g.mouse_out();
    assert!(!g.is_dragging());
    assert_eq!(g.hover_target(), None);
    // a later pointer move without a new press must not re-enter dragging
    g.mouse_move(pos(80_000, 90_000));
    assert!(!g.is_dragging());
    assert_eq!(g.hover_target(), Some(n));
    // and moving the pointer does not reposition the node
    let before = g.node_position(n).unwrap();
    g.mouse_move(pos(81_000, 91_000));
    assert!(!g.is_dragging());
    assert_eq!(g.node_position(n), Some(before));
}

#[test]
fn dragging_moves_only_the_dragged_node() {
    let mut g = Graph::new();
    let n = g.add_node(pos(10_000, 10_000), size(20_000, 20_000), props());
    let other = g.add_node(pos(200_000, 10_000), size(20_000, 20_000), props());
    g.mouse_move(pos(15_000, 15_000));
    g.mouse_down();
    g.mouse_move(pos(50_000, 60_000));
    assert_eq!(g.node_center(n), Some(pos(50_000, 60_000)));
    assert_eq!(g.node_position(other), Some(pos(200_000, 10_000)));
}
