use graph_canvas::geometry::{Position, Size};
use graph_canvas::graph::{EdgeProperties, Graph, NodeProperties};
use graph_canvas::render::DrawOp;

fn props() -> NodeProperties {
    NodeProperties { label: String::from("n") }
}

fn pos(x: i64, y: i64) -> Position {
    Position { x, y }
}

fn size(w: i64, h: i64) -> Size {
    Size { width: w, height: h }
}

#[test]
fn an_empty_graph_draws_only_the_clear() {
    let g = Graph::new();
    assert_eq!(g.draw(), vec![DrawOp::Clear]);
}

#[test]
fn edges_are_drawn_before_nodes_with_thin_outlines() {
    let mut g = Graph::new();
    let a = g.add_node(pos(0, 0), size(50_000, 50_000), props());
    let b = g.add_node(pos(100_000, 0), size(50_000, 50_000), props());
    g.add_edge(a, b, EdgeProperties { weight: 100 });
    let ops = g.draw();
    assert_eq!(
        ops,
        vec![
            DrawOp::Clear,
            DrawOp::Line { from: pos(25_000, 25_000), to: pos(125_000, 25_000) },
            DrawOp::FillRect { position: pos(0, 0), size: size(50_000, 50_000) },
            DrawOp::StrokeRect {
                position: pos(0, 0),
                size: size(50_000, 50_000),
                line_width: 1_000,
            },
            DrawOp::FillRect { position: pos(100_000, 0), size: size(50_000, 50_000) },
            DrawOp::StrokeRect {
                position: pos(100_000, 0),
                size: size(50_000, 50_000),
                line_width: 1_000,
            },
        ]
    );
}

#[test]
fn the_hover_target_gets_the_wide_outline() {
    let mut g = Graph::new();
    let _a = g.add_node(pos(0, 0), size(50_000, 50_000), props());
    let _b = g.add_node(pos(100_000, 0), size(50_000, 50_000), props());
    g.mouse_move(pos(10_000, 10_000));
    let ops = g.draw();
    assert_eq!(
        ops,
        vec![
            DrawOp::Clear,
            DrawOp::FillRect { position: pos(0, 0), size: size(50_000, 50_000) },
            DrawOp::StrokeRect {
                position: pos(0, 0),
                size: size(50_000, 50_000),
                line_width: 5_000,
            },
            DrawOp::FillRect { position: pos(100_000, 0), size: size(50_000, 50_000) },
            DrawOp::StrokeRect {
                position: pos(100_000, 0),
                size: size(50_000, 50_000),
                line_width: 1_000,
            },
        ]
    );
}
