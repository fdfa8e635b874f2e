use graph_canvas::geometry::{Position, Size};
use graph_canvas::graph::{EdgeProperties, Error, Graph, NodeProperties};

fn props(label: &str) -> NodeProperties {
    NodeProperties { label: String::from(label) }
}

fn pos(x: i64, y: i64) -> Position {
    Position { x, y }
}

fn size(w: i64, h: i64) -> Size {
    Size { width: w, height: h }
}

#[test]
fn new_graph_is_empty() {
    let g = Graph::new();
    assert_eq!(g.node_count(), 0);
    assert_eq!(g.edge_count(), 0);
    assert!(g.hover_target().is_none());
    assert!(!g.is_dragging());
    assert!(!g.repulsion_enabled());
}

#[test]
fn handles_count_up_and_stay_distinct() {
    let mut g = Graph::new();
    let a = g.add_node(pos(0, 0), size(1000, 1000), props("a"));
    let b = g.add_node(pos(5000, 0), size(1000, 1000), props("b"));
    let c = g.add_node(pos(9000, 0), size(1000, 1000), props("c"));
    assert_ne!(a, b);
    assert_ne!(b, c);
    assert_ne!(a, c);
    assert_eq!(g.node_count(), 3);
    assert_eq!(g.node_position(a), Some(pos(0, 0)));
    assert_eq!(g.node_position(c), Some(pos(9000, 0)));
    assert_eq!(g.node_size(b), Some(size(1000, 1000)));
}

#[test]
fn duplicate_edge_keeps_first_weight() {
    let mut g = Graph::new();
    let a = g.add_node(pos(0, 0), size(1000, 1000), props("a"));
    let b = g.add_node(pos(5000, 0), size(1000, 1000), props("b"));
    g.add_edge(a, b, EdgeProperties { weight: 7 });
    assert_eq!(g.edge_count(), 1);
    g.add_edge(a, b, EdgeProperties { weight: 9 });
    assert_eq!(g.edge_count(), 1);
    assert_eq!(g.edge_weight(a, b), Some(7));
}

#[test]
fn duplicate_edge_reversed_order_is_rejected_too() {
    let mut g = Graph::new();
    let a = g.add_node(pos(0, 0), size(1000, 1000), props("a"));
    let b = g.add_node(pos(5000, 0), size(1000, 1000), props("b"));
    g.add_edge(b, a, EdgeProperties { weight: 11 });
    g.add_edge(a, b, EdgeProperties { weight: 13 });
    assert_eq!(g.edge_count(), 1);
    assert_eq!(g.edge_weight(a, b), Some(11));
    assert_eq!(g.edge_weight(b, a), Some(11));
}

#[test]
fn self_loop_is_a_no_op() {
    let mut g = Graph::new();
    let a = g.add_node(pos(0, 0), size(1000, 1000), props("a"));
    let _b = g.add_node(pos(5000, 0), size(1000, 1000), props("b"));
    g.add_edge(a, a, EdgeProperties { weight: 7 });
    assert_eq!(g.node_count(), 2);
    assert_eq!(g.edge_count(), 0);
    assert_eq!(g.edge_weight(a, a), None);
}

#[test]
fn missing_edge_has_no_weight() {
    let mut g = Graph::new();
    let a = g.add_node(pos(0, 0), size(1000, 1000), props("a"));
    let b = g.add_node(pos(5000, 0), size(1000, 1000), props("b"));
    assert_eq!(g.edge_weight(a, b), None);
}

#[test]
fn removal_requests_leave_the_model_unchanged() {
    let mut g = Graph::new();
    let a = g.add_node(pos(0, 0), size(1000, 1000), props("a"));
    let b = g.add_node(pos(5000, 0), size(1000, 1000), props("b"));
    g.add_edge(a, b, EdgeProperties { weight: 7 });
    g.remove_node(a);
    g.remove_edge(graph_canvas::graph::Edge {});
    assert_eq!(g.node_count(), 2);
    assert_eq!(g.edge_count(), 1);
    assert_eq!(g.edge_weight(a, b), Some(7));
}

#[test]
fn node_properties_are_stored() {
    let mut g = Graph::new();
    let a = g.add_node(pos(0, 0), size(1000, 1000), props("hello"));
    let stored = g.node_properties(a).expect("valid handle");
    assert_eq!(stored.label, "hello");
}

#[test]
fn error_variants_distinguish_web_text_from_missing_context() {
    let web = Error::Web(String::from("boom"));
    let ctx = Error::MissingContext;
    assert!(matches!(web, Error::Web(ref s) if s == "boom"));
    assert!(matches!(ctx, Error::MissingContext));
    assert_ne!(web, ctx);
}

#[test]
fn adjust_mouse_position_subtracts_the_surface_offset() {
    let g = Graph::new();
    let adjusted = g.adjust_mouse_position(pos(10_500, 20_250), pos(500, 250));
    assert_eq!(adjusted, pos(10_000, 20_000));
}
