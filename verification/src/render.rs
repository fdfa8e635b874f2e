//! Projection of the model into an ordered sequence of draw operations.
//!
//! The projector is read-only: it turns the current node and edge state
//! plus the hover target into draw operations for an injected drawing
//! capability. Edges come before nodes so node fills occlude edge lines
//! passing under them.

use crate::geometry::{Position, Size, SCALE};
use crate::graph::{center_of, EdgeState, Graph, NodeState};
use vstd::prelude::*;

verus! {

/// One drawing instruction for the host's surface, in coordinate steps.
#[derive(Clone, Copy, Debug, PartialEq, Eq, Structural)]
pub enum DrawOp {
    /// Clear the whole surface.
    Clear,
    /// Stroke a straight line between two points.
    Line { from: Position, to: Position },
    /// Fill an axis-aligned rectangle.
    FillRect { position: Position, size: Size },
    /// Outline an axis-aligned rectangle with the given stroke width.
    StrokeRect { position: Position, size: Size, line_width: i64 },
}

/// Outline stroke width of a node, in coordinate steps: five surface
/// units for the hover target, one for every other node.
pub open spec fn outline_width(hovering: Option<int>, idx: int) -> int {
    if hovering == Some(idx) {
        5 * SCALE as int
    } else {
        SCALE as int
    }
}

/// The line drawn for one edge: from center to center.
pub open spec fn edge_op(nodes: Seq<NodeState>, e: EdgeState) -> DrawOp {
    DrawOp::Line { from: center_of(nodes[e.a as int]), to: center_of(nodes[e.b as int]) }
}

/// The `k`-th node operation: nodes are drawn two operations each, a fill
/// of the bounding box followed by its outline.
pub open spec fn node_op(nodes: Seq<NodeState>, hovering: Option<int>, k: int) -> DrawOp {
    let i = k / 2;
    if k % 2 == 0 {
        DrawOp::FillRect { position: nodes[i].position, size: nodes[i].size }
    } else {
        DrawOp::StrokeRect {
            position: nodes[i].position,
            size: nodes[i].size,
            line_width: outline_width(hovering, i) as i64,
        }
    }
}

/// The ordered draw sequence of one frame: a clear, then every edge as a
/// line between its endpoint centers, then every node as a filled
/// rectangle with an outline. The edge-before-node order is a layering
/// contract, not an accident.
pub open spec fn draw_ops(g: Graph) -> Seq<DrawOp> {
    seq![DrawOp::Clear] + Seq::new(
        g.edges_spec().len(),
        |i: int| edge_op(g.nodes_spec(), g.edges_spec()[i]),
    ) + Seq::new(
        (g.nodes_spec().len() * 2) as nat,
        |k: int| node_op(g.nodes_spec(), g.hovering_id(), k),
    )
}

} // verus!
