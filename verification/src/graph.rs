//! The graph model: nodes and edges with stable handles, one-step layout
//! relaxation toward per-edge rest distances, and the pointer-driven
//! hover/drag state machine.

use crate::geometry::{
    abs_i, dist, half, half_trunc, in_coord_bound, in_input_bound, lemma_single_move_bounded,
    moved_position, size_ok, step_toward, Position, Size, MAX_MOVE, POS_LIMIT, SCALE,
};
use crate::render::{draw_ops, edge_op, node_op, DrawOp};
use vstd::prelude::*;

verus! {

/// An edge is considered settled when the center distance is within this
/// many coordinate steps (0.1 surface units) of its rest length.
pub const SETTLE_EPSILON: i64 = 100;

/// Radius, in coordinate steps (100 surface units), under which the
/// optional repulsion pass pushes two nodes apart.
pub const REPULSE_RADIUS: i64 = 100_000;

/// Largest accepted edge weight (rest length in surface units); the bound
/// keeps the rest length in coordinate steps inside the machine's integer
/// range.
pub const MAX_WEIGHT: u64 = 9_000_000_000_000_000;

/// A failure reported by the host around the engine: an error text from
/// the embedding environment, or a drawing surface without a usable
/// context. The engine itself never fails; the type is part of the public
/// surface so hosts can report setup problems uniformly.
#[derive(Debug, PartialEq, Eq)]
pub enum Error {
    Web(String),
    MissingContext,
}

/// A stable handle to a node: handles count up from zero in creation order
/// and are never reused.
#[derive(Clone, Copy, Debug, PartialEq, Eq, Hash, PartialOrd, Ord, Structural)]
pub struct Node {
    id: usize,
}

impl Node {
    /// The handle's index in creation order.
    pub closed spec fn spec_id(self) -> int {
        self.id as int
    }
}

/// The caller-supplied payload of a node.
pub struct NodeProperties {
    pub label: String,
}

/// The caller-supplied payload of an edge; the weight is the rest length
/// of the edge in surface units.
#[derive(Clone, Copy, Debug, PartialEq, Eq, Structural)]
pub struct EdgeProperties {
    pub weight: usize,
}

/// A request token for edge removal (removal is not supported; see
/// `Graph::remove_edge`).
pub struct Edge {}

/// The geometric state of one node: top-left position and extent.
#[derive(Clone, Copy, Debug, PartialEq, Eq, Structural)]
pub struct NodeState {
    pub position: Position,
    pub size: Size,
}

/// One stored edge: the canonical pair (lesser handle index first) and the
/// caller's payload.
#[derive(Clone, Copy, Debug, PartialEq, Eq, Structural)]
pub struct EdgeState {
    pub a: usize,
    pub b: usize,
    pub properties: EdgeProperties,
}

/// A node's geometry is within the stored ranges.
pub open spec fn node_ok(n: NodeState) -> bool {
    &&& -POS_LIMIT <= n.position.x <= POS_LIMIT
    &&& -POS_LIMIT <= n.position.y <= POS_LIMIT
    &&& size_ok(n.size)
}

/// The center of a node's bounding box.
pub open spec fn center_of(n: NodeState) -> Position {
    Position {
        x: (n.position.x + n.size.width / 2) as i64,
        y: (n.position.y + n.size.height / 2) as i64,
    }
}

/// The point lies inside the node's bounding box, both bounds inclusive.
pub open spec fn contains_point(n: NodeState, p: Position) -> bool {
    &&& p.x >= n.position.x
    &&& p.y >= n.position.y
    &&& p.x <= n.position.x + n.size.width
    &&& p.y <= n.position.y + n.size.height
}

/// The top-left position that puts the center of a box of size `size` at
/// `p`.
pub open spec fn centered_position(size: Size, p: Position) -> Position {
    Position { x: (p.x - size.width / 2) as i64, y: (p.y - size.height / 2) as i64 }
}

/// The node with its center snapped to `p`.
pub open spec fn recentered(n: NodeState, p: Position) -> NodeState {
    NodeState { position: centered_position(n.size, p), size: n.size }
}

impl NodeState {
    /// Whether this node's bounding box contains the point, both bounds
    /// inclusive.
    pub fn contains(&self, position: Position) -> (r: bool)
        requires
            node_ok(*self),
        ensures
            r == contains_point(*self, position),
    {
        position.x >= self.position.x && position.y >= self.position.y && position.x
            <= self.position.x + self.size.width && position.y <= self.position.y
            + self.size.height
    }

    /// The center of the bounding box.
    pub fn center(&self) -> (c: Position)
        requires
            node_ok(*self),
        ensures
            c == center_of(*self),
            in_coord_bound(c),
    {
        let hw: i64 = (self.size.width as u64 / 2) as i64;
        let hh: i64 = (self.size.height as u64 / 2) as i64;
        Position { x: self.position.x + hw, y: self.position.y + hh }
    }

    /// Snap the center of the box to `position` (used while dragging).
    pub fn set_centered(&mut self, position: Position)
        requires
            node_ok(*old(self)),
            in_input_bound(position),
        ensures
            *final(self) == recentered(*old(self), position),
            node_ok(*final(self)),
            center_of(*final(self)) == position,
    {
        let hw: i64 = (self.size.width as u64 / 2) as i64;
        let hh: i64 = (self.size.height as u64 / 2) as i64;
        self.position = Position { x: position.x - hw, y: position.y - hh };
    }

    /// Move `amount` steps toward (positive) or away from (negative) the
    /// point `position`, clamped to `MAX_MOVE` steps and kept inside the
    /// stored coordinate range.
    pub fn move_to(&mut self, amount: i64, position: Position)
        requires
            node_ok(*old(self)),
            in_coord_bound(position),
        ensures
            final(self).size == old(self).size,
            final(self).position == moved_position(old(self).position, position, amount as int),
            node_ok(*final(self)),
    {
        let s: (i64, i64) = step_toward(self.position, position, amount);
        let nx: i64 = self.position.x + s.0;
        let ny: i64 = self.position.y + s.1;
        self.position.x = if nx > POS_LIMIT {
            POS_LIMIT
        } else if nx < -POS_LIMIT {
            -POS_LIMIT
        } else {
            nx
        };
        self.position.y = if ny > POS_LIMIT {
            POS_LIMIT
        } else if ny < -POS_LIMIT {
            -POS_LIMIT
        } else {
            ny
        };
    }
}

/// The identifier inside an optional handle.
pub open spec fn hov_id(h: Option<Node>) -> Option<int> {
    match h {
        Some(n) => Some(n.spec_id()),
        None => None,
    }
}

/// A node is exempt from layout movement exactly when a drag is in
/// progress and the node is the drag target.
pub open spec fn exempt(hovering: Option<int>, dragging: bool, idx: int) -> bool {
    dragging && match hovering {
        Some(h) => h == idx,
        None => false,
    }
}

/// The rest length of an edge in coordinate steps.
pub open spec fn edge_rest(e: EdgeState) -> int {
    e.properties.weight as int * SCALE as int
}

/// One relaxation step of a single edge: if the center distance is not
/// settled, each endpoint is pulled or pushed by half the distance error
/// toward the other endpoint's center (the second endpoint aims at the
/// first endpoint's already-updated center), skipping a dragged endpoint.
pub open spec fn relax_edge(
    nodes: Seq<NodeState>,
    hovering: Option<int>,
    dragging: bool,
    e: EdgeState,
) -> Seq<NodeState> {
    let na = nodes[e.a as int];
    let nb = nodes[e.b as int];
    let delta: int = dist(center_of(na), center_of(nb)) - edge_rest(e);
    if abs_i(delta) <= SETTLE_EPSILON as int {
        nodes
    } else {
        let amount: int = half_trunc(delta);
        let nodes1 = if exempt(hovering, dragging, e.a as int) {
            nodes
        } else {
            nodes.update(
                e.a as int,
                NodeState {
                    position: moved_position(na.position, center_of(nb), amount),
                    size: na.size,
                },
            )
        };
        if exempt(hovering, dragging, e.b as int) {
            nodes1
        } else {
            nodes1.update(
                e.b as int,
                NodeState {
                    position: moved_position(nb.position, center_of(nodes1[e.a as int]), amount),
                    size: nb.size,
                },
            )
        }
    }
}

/// The node states after relaxing the first `i` edges in order.
pub open spec fn relax_upto(
    nodes: Seq<NodeState>,
    hovering: Option<int>,
    dragging: bool,
    edges: Seq<EdgeState>,
    i: int,
) -> Seq<NodeState>
    decreases i,
{
    if i <= 0 {
        nodes
    } else {
        relax_edge(relax_upto(nodes, hovering, dragging, edges, i - 1), hovering, dragging, edges[i - 1])
    }
}

/// One repulsion step for the ordered pair `(i, j)`: if the two centers
/// are closer than `REPULSE_RADIUS`, both nodes are pushed apart with the
/// same clamping and drag exemption as edge relaxation.
pub open spec fn repulse_pair(
    nodes: Seq<NodeState>,
    hovering: Option<int>,
    dragging: bool,
    i: int,
    j: int,
) -> Seq<NodeState> {
    if i == j {
        nodes
    } else {
        let ni = nodes[i];
        let nj = nodes[j];
        let distance: int = dist(center_of(ni), center_of(nj));
        if distance < REPULSE_RADIUS as int {
            let amount: int = half_trunc(-(REPULSE_RADIUS as int) - distance);
            let nodes1 = if exempt(hovering, dragging, i) {
                nodes
            } else {
                nodes.update(
                    i,
                    NodeState {
                        position: moved_position(ni.position, center_of(nj), amount),
                        size: ni.size,
                    },
                )
            };
            if exempt(hovering, dragging, j) {
                nodes1
            } else {
                nodes1.update(
                    j,
                    NodeState {
                        position: moved_position(nj.position, center_of(nodes1[i]), amount),
                        size: nj.size,
                    },
                )
            }
        } else {
            nodes
        }
    }
}

/// The node states after node `i` has been repulsed against partners
/// `0..j`.
pub open spec fn repulse_row(
    nodes: Seq<NodeState>,
    hovering: Option<int>,
    dragging: bool,
    i: int,
    j: int,
) -> Seq<NodeState>
    decreases j,
{
    if j <= 0 {
        nodes
    } else {
        repulse_pair(repulse_row(nodes, hovering, dragging, i, j - 1), hovering, dragging, i, j - 1)
    }
}

/// The node states after the first `i` nodes have each been repulsed
/// against all `n` partners.
pub open spec fn repulse_upto(
    nodes: Seq<NodeState>,
    hovering: Option<int>,
    dragging: bool,
    n: int,
    i: int,
) -> Seq<NodeState>
    decreases i,
{
    if i <= 0 {
        nodes
    } else {
        repulse_row(repulse_upto(nodes, hovering, dragging, n, i - 1), hovering, dragging, i - 1, n)
    }
}

/// The full repulsion pass over every ordered pair of distinct nodes.
pub open spec fn repulsed_nodes(
    nodes: Seq<NodeState>,
    hovering: Option<int>,
    dragging: bool,
) -> Seq<NodeState> {
    repulse_upto(nodes, hovering, dragging, nodes.len() as int, nodes.len() as int)
}

/// The node states after the edge relaxation pass of one tick.
pub open spec fn relaxed_nodes(g: Graph) -> Seq<NodeState> {
    relax_upto(
        g.nodes_spec(),
        g.hovering_id(),
        g.dragging_spec(),
        g.edges_spec(),
        g.edges_spec().len() as int,
    )
}

/// The node states after one full tick: the edge pass, then the repulsion
/// pass when it is enabled.
pub open spec fn ticked_nodes(g: Graph) -> Seq<NodeState> {
    let relaxed = relaxed_nodes(g);
    if g.repulsion_spec() {
        repulsed_nodes(relaxed, g.hovering_id(), g.dragging_spec())
    } else {
        relaxed
    }
}

/// The index of the first node (in creation order, starting at `i`) whose
/// bounding box contains `p`.
pub open spec fn first_hit_from(nodes: Seq<NodeState>, p: Position, i: int) -> Option<int>
    decreases nodes.len() - i,
{
    if !(0 <= i < nodes.len()) {
        None
    } else if contains_point(nodes[i], p) {
        Some(i)
    } else {
        first_hit_from(nodes, p, i + 1)
    }
}

/// The index of the first node whose bounding box contains `p`.
pub open spec fn first_hit(nodes: Seq<NodeState>, p: Position) -> Option<int> {
    first_hit_from(nodes, p, 0)
}

/// The lesser of the two handle indices.
pub open spec fn canon_lo(x: int, y: int) -> int {
    if x < y {
        x
    } else {
        y
    }
}

/// The greater of the two handle indices.
pub open spec fn canon_hi(x: int, y: int) -> int {
    if x < y {
        y
    } else {
        x
    }
}

/// An edge for the unordered pair `{x, y}` is stored.
pub open spec fn edge_present(edges: Seq<EdgeState>, x: int, y: int) -> bool {
    exists|k: int|
        0 <= k < edges.len() && (#[trigger] edges[k]).a as int == canon_lo(x, y) && edges[k].b as int
            == canon_hi(x, y)
}

/// A stored edge is canonical, references existing nodes, and carries an
/// in-range weight.
pub open spec fn edge_ok(e: EdgeState, n_nodes: int) -> bool {
    &&& (e.a as int) < (e.b as int)
    &&& (e.b as int) < n_nodes
    &&& e.properties.weight as int <= MAX_WEIGHT as int
}

/// The hover target still contains the pointer position.
pub open spec fn hover_still(g: Graph, p: Position) -> bool {
    match g.hovering_id() {
        Some(h) => contains_point(g.nodes_spec()[h], p),
        None => false,
    }
}

/// Per-node well-formedness carries over to an equal sequence.
proof fn lemma_nodes_ok_transfer(s1: Seq<NodeState>, s2: Seq<NodeState>)
    requires
        forall|i: int| 0 <= i < s1.len() ==> node_ok(#[trigger] s1[i]),
        s2 == s1,
    ensures
        forall|i: int| 0 <= i < s2.len() ==> node_ok(#[trigger] s2[i]),
{
    assert forall|i: int| 0 <= i < s2.len() implies node_ok(#[trigger] s2[i]) by {
        assert(node_ok(s1[i]));
    }
}

/// Per-edge well-formedness carries over to an equal sequence and a node
/// count that did not shrink.
proof fn lemma_edges_ok_transfer(s1: Seq<EdgeState>, s2: Seq<EdgeState>, n1: int, n2: int)
    requires
        forall|i: int| 0 <= i < s1.len() ==> edge_ok(#[trigger] s1[i], n1),
        s2 == s1,
        n2 >= n1,
    ensures
        forall|i: int| 0 <= i < s2.len() ==> edge_ok(#[trigger] s2[i], n2),
{
    assert forall|i: int| 0 <= i < s2.len() implies edge_ok(#[trigger] s2[i], n2) by {
        assert(edge_ok(s1[i], n1));
    }
}

/// Pair uniqueness carries over to an equal sequence.
proof fn lemma_pairs_unique_transfer(s1: Seq<EdgeState>, s2: Seq<EdgeState>)
    requires
        forall|i: int, j: int|
            0 <= i < j < s1.len() ==> !((#[trigger] s1[i]).a == (#[trigger] s1[j]).a && s1[i].b
                == s1[j].b),
        s2 == s1,
    ensures
        forall|i: int, j: int|
            0 <= i < j < s2.len() ==> !((#[trigger] s2[i]).a == (#[trigger] s2[j]).a && s2[i].b
                == s2[j].b),
{
    assert forall|i: int, j: int|
        0 <= i < j < s2.len() implies !((#[trigger] s2[i]).a == (#[trigger] s2[j]).a && s2[i].b
        == s2[j].b) by {
        assert(!(s1[i].a == s1[j].a && s1[i].b == s1[j].b));
    }
}

/// The graph model. Nodes live in an arena indexed by their handle; edges
/// are stored once, under the canonical order of their pair; hover and
/// drag state reference nodes by handle only.
pub struct Graph {
    nodes: Vec<NodeState>,
    properties: Vec<NodeProperties>,
    edges: Vec<EdgeState>,
    hovering: Option<Node>,
    dragging: bool,
    repulsion: bool,
}

impl Graph {
    /// The geometric states of all nodes, in creation order.
    pub closed spec fn nodes_spec(&self) -> Seq<NodeState> {
        self.nodes@
    }

    /// The caller payloads of all nodes, in creation order.
    pub closed spec fn props_spec(&self) -> Seq<NodeProperties> {
        self.properties@
    }

    /// The stored edges, in insertion order.
    pub closed spec fn edges_spec(&self) -> Seq<EdgeState> {
        self.edges@
    }

    /// The handle index of the current hover target, if any.
    pub closed spec fn hovering_id(&self) -> Option<int> {
        hov_id(self.hovering)
    }

    /// Whether a drag is in progress.
    pub closed spec fn dragging_spec(&self) -> bool {
        self.dragging
    }

    /// Whether the pairwise repulsion pass runs during a tick.
    pub closed spec fn repulsion_spec(&self) -> bool {
        self.repulsion
    }

    /// Well-formedness: the arenas line up, every node is in range, every
    /// edge is canonical and unique for its pair, and hover/drag state
    /// references an existing node (dragging requires a hover target).
    pub open spec fn wf(&self) -> bool {
        &&& self.nodes_spec().len() == self.props_spec().len()
        &&& (forall|i: int|
            0 <= i < self.nodes_spec().len() ==> node_ok(#[trigger] self.nodes_spec()[i]))
        &&& (forall|i: int|
            0 <= i < self.edges_spec().len() ==> edge_ok(
                #[trigger] self.edges_spec()[i],
                self.nodes_spec().len() as int,
            ))
        &&& (forall|i: int, j: int|
            0 <= i < j < self.edges_spec().len() ==> !((#[trigger] self.edges_spec()[i]).a == (
            #[trigger] self.edges_spec()[j]).a && self.edges_spec()[i].b == self.edges_spec()[j].b))
        &&& (match self.hovering_id() {
            Some(h) => 0 <= h < self.nodes_spec().len() as int,
            None => true,
        })
        &&& (self.dragging_spec() ==> self.hovering_id() is Some)
    }

    /// A fresh, empty model: no nodes, no edges, no hover, no drag, and
    /// the repulsion pass switched off.
    pub fn new() -> (g: Graph)
        ensures
            g.wf(),
            g.nodes_spec().len() == 0,
            g.props_spec().len() == 0,
            g.edges_spec().len() == 0,
            g.hovering_id() is None,
            !g.dragging_spec(),
            !g.repulsion_spec(),
    {
        Graph {
            nodes: Vec::new(),
            properties: Vec::new(),
            edges: Vec::new(),
            hovering: None,
            dragging: false,
            repulsion: false,
        }
    }

    /// Store a new node and return its handle, the next index in creation
    /// order. Creation never fails for in-range geometry.
    pub fn add_node(&mut self, position: Position, size: Size, node: NodeProperties) -> (handle:
        Node)
        requires
            old(self).wf(),
            in_input_bound(position),
            size_ok(size),
        ensures
            final(self).wf(),
            handle.spec_id() == old(self).nodes_spec().len(),
            final(self).nodes_spec() == old(self).nodes_spec().push(NodeState { position, size }),
            final(self).props_spec() == old(self).props_spec().push(node),
            final(self).edges_spec() == old(self).edges_spec(),
            final(self).hovering_id() == old(self).hovering_id(),
            final(self).dragging_spec() == old(self).dragging_spec(),
            final(self).repulsion_spec() == old(self).repulsion_spec(),
    {
        let handle = Node { id: self.nodes.len() };
        self.nodes.push(NodeState { position, size });
        self.properties.push(node);
        proof {
            assert forall|i: int| 0 <= i < self.nodes_spec().len() implies node_ok(
                #[trigger] self.nodes_spec()[i],
            ) by {
                if i < old(self).nodes_spec().len() {
                    assert(node_ok(old(self).nodes_spec()[i]));
                } else {
                    assert(self.nodes_spec()[i] == (NodeState { position, size }));
                }
            }
            lemma_edges_ok_transfer(
                old(self).edges_spec(),
                self.edges_spec(),
                old(self).nodes_spec().len() as int,
                self.nodes_spec().len() as int,
            );
            lemma_pairs_unique_transfer(old(self).edges_spec(), self.edges_spec());
        }
        handle
    }

    /// Removal is not supported by this engine: handles stay stable for
    /// the model's lifetime, and a removal request leaves the model
    /// unchanged.
    pub fn remove_node(&mut self, node: Node)
        ensures
            *final(self) == *old(self),
    {
        let _ = node;
    }

    /// Store an edge between two existing nodes with the pair in canonical
    /// order. A self-loop is rejected; a pair that already has an edge
    /// keeps its first edge (the first insertion is sticky); both
    /// rejections leave the model unchanged.
    pub fn add_edge(&mut self, a: Node, b: Node, edge: EdgeProperties)
        requires
            old(self).wf(),
            0 <= a.spec_id() < old(self).nodes_spec().len(),
            0 <= b.spec_id() < old(self).nodes_spec().len(),
            edge.weight as int <= MAX_WEIGHT as int,
        ensures
            final(self).wf(),
            final(self).nodes_spec() == old(self).nodes_spec(),
            final(self).props_spec() == old(self).props_spec(),
            final(self).hovering_id() == old(self).hovering_id(),
            final(self).dragging_spec() == old(self).dragging_spec(),
            final(self).repulsion_spec() == old(self).repulsion_spec(),
            a.spec_id() == b.spec_id() ==> final(self).edges_spec() == old(self).edges_spec(),
            a.spec_id() != b.spec_id() && edge_present(
                old(self).edges_spec(),
                a.spec_id(),
                b.spec_id(),
            ) ==> final(self).edges_spec() == old(self).edges_spec(),
            a.spec_id() != b.spec_id() && !edge_present(
                old(self).edges_spec(),
                a.spec_id(),
                b.spec_id(),
            ) ==> final(self).edges_spec() == old(self).edges_spec().push(
                EdgeState {
                    a: canon_lo(a.spec_id(), b.spec_id()) as usize,
                    b: canon_hi(a.spec_id(), b.spec_id()) as usize,
                    properties: edge,
                },
            ),
    {
        if a.id == b.id {
            return ;
        }
        let lo: usize = if a.id < b.id {
            a.id
        } else {
            b.id
        };
        let hi: usize = if a.id < b.id {
            b.id
        } else {
            a.id
        };
        let n: usize = self.edges.len();
        let mut k: usize = 0;
        while k < n
            invariant
                k <= n,
                n == self.edges@.len(),
                *self == *old(self),
                old(self).wf(),
                0 <= a.spec_id() < old(self).nodes_spec().len(),
                0 <= b.spec_id() < old(self).nodes_spec().len(),
                a.spec_id() != b.spec_id(),
                lo as int == canon_lo(a.spec_id(), b.spec_id()),
                hi as int == canon_hi(a.spec_id(), b.spec_id()),
                forall|j: int|
                    0 <= j < k ==> !((#[trigger] self.edges@[j]).a == lo && self.edges@[j].b == hi),
            decreases n - k,
        {
            if self.edges[k].a == lo && self.edges[k].b == hi {
                proof {
                    assert(self.edges_spec()[k as int].a as int == canon_lo(
                        a.spec_id(),
                        b.spec_id(),
                    ) && self.edges_spec()[k as int].b as int == canon_hi(
                        a.spec_id(),
                        b.spec_id(),
                    ));
                    assert(edge_present(self.edges_spec(), a.spec_id(), b.spec_id()));
                    lemma_nodes_ok_transfer(old(self).nodes_spec(), self.nodes_spec());
                    lemma_edges_ok_transfer(
                        old(self).edges_spec(),
                        self.edges_spec(),
                        old(self).nodes_spec().len() as int,
                        self.nodes_spec().len() as int,
                    );
                    lemma_pairs_unique_transfer(old(self).edges_spec(), self.edges_spec());
                }
                return ;
            }
            k += 1;
        }
        proof {
            assert(!edge_present(self.edges_spec(), a.spec_id(), b.spec_id())) by {
                if edge_present(self.edges_spec(), a.spec_id(), b.spec_id()) {
                    let kk = choose|kk: int|
                        0 <= kk < self.edges_spec().len() && (#[trigger] self.edges_spec()[kk]).a
                            as int == canon_lo(a.spec_id(), b.spec_id())
                            && self.edges_spec()[kk].b as int == canon_hi(
                            a.spec_id(),
                            b.spec_id(),
                        );
                    assert(!(self.edges@[kk].a == lo && self.edges@[kk].b == hi));
                }
            }
        }
        let ghost pre_edges = self.edges@;
        self.edges.push(EdgeState { a: lo, b: hi, properties: edge });
        proof {
            lemma_nodes_ok_transfer(old(self).nodes_spec(), self.nodes_spec());
            assert forall|x: int| 0 <= x < self.edges_spec().len() implies edge_ok(
                #[trigger] self.edges_spec()[x],
                self.nodes_spec().len() as int,
            ) by {
                if x < pre_edges.len() {
                    assert(edge_ok(old(self).edges_spec()[x], old(self).nodes_spec().len() as int));
                }
            }
            assert forall|x: int, y: int|
                0 <= x < y < self.edges_spec().len() implies !((#[trigger] self.edges_spec()[x]).a
                == (#[trigger] self.edges_spec()[y]).a && self.edges_spec()[x].b
                == self.edges_spec()[y].b) by {
                if y < pre_edges.len() {
                    assert(!(old(self).edges_spec()[x].a == old(self).edges_spec()[y].a && old(
                        self,
                    ).edges_spec()[x].b == old(self).edges_spec()[y].b));
                } else {
                    assert(!(pre_edges[x].a == lo && pre_edges[x].b == hi));
                }
            }
        }
    }

    /// Removal is not supported by this engine: a removal request leaves
    /// the model unchanged.
    pub fn remove_edge(&mut self, edge: Edge)
        ensures
            *final(self) == *old(self),
    {
        let _ = edge;
    }

    /// Whether the node at `idx` is exempt from layout movement.
    fn is_exempt(&self, idx: usize) -> (r: bool)
        ensures
            r == exempt(self.hovering_id(), self.dragging_spec(), idx as int),
    {
        self.dragging && match self.hovering {
            Some(n) => n.id == idx,
            None => false,
        }
    }

    /// One edge relaxation pass: every stored edge pulls or pushes its
    /// endpoints by half its distance error, clamped and drag-exempt.
    fn walk_edges(&mut self)
        requires
            old(self).wf(),
        ensures
            final(self).wf(),
            final(self).nodes_spec() == relaxed_nodes(*old(self)),
            final(self).edges_spec() == old(self).edges_spec(),
            final(self).props_spec() == old(self).props_spec(),
            final(self).hovering_id() == old(self).hovering_id(),
            final(self).dragging_spec() == old(self).dragging_spec(),
            final(self).repulsion_spec() == old(self).repulsion_spec(),
    {
        let n: usize = self.edges.len();
        let mut i: usize = 0;
        while i < n
            invariant
                i <= n,
                self.wf(),
                n == self.edges@.len(),
                self.edges@ == old(self).edges@,
                self.properties@ == old(self).properties@,
                self.hovering == old(self).hovering,
                self.dragging == old(self).dragging,
                self.repulsion == old(self).repulsion,
                old(self).wf(),
                self.nodes@ == relax_upto(
                    old(self).nodes@,
                    old(self).hovering_id(),
                    old(self).dragging_spec(),
                    old(self).edges@,
                    i as int,
                ),
            decreases n - i,
        {
            let ghost prev_self = *self;
            let ghost prev = self.nodes@;
            let e: EdgeState = self.edges[i];
            proof {
                assert(edge_ok(self.edges_spec()[i as int], self.nodes_spec().len() as int));
                assert(node_ok(self.nodes_spec()[e.a as int]));
                assert(node_ok(self.nodes_spec()[e.b as int]));
            }
            let ca: Position = self.nodes[e.a].center();
            let cb: Position = self.nodes[e.b].center();
            let distance: i64 = ca.delta(cb);
            let rest: i64 = ((e.properties.weight as u64) * 1000) as i64;
            let delta: i64 = distance - rest;
            let mag: i64 = if delta < 0 {
                -delta
            } else {
                delta
            };
            if mag > SETTLE_EPSILON {
                let amount: i64 = half(delta);
                if !self.is_exempt(e.a) {
                    self.nodes[e.a].move_to(amount, cb);
                }
                let ca2: Position = self.nodes[e.a].center();
                if !self.is_exempt(e.b) {
                    self.nodes[e.b].move_to(amount, ca2);
                }
            }
            proof {
                assert(self.nodes@.len() == prev.len());
                assert(node_ok(self.nodes@[e.a as int]));
                assert(node_ok(self.nodes@[e.b as int]));
                assert forall|k: int| 0 <= k < self.nodes@.len() implies node_ok(
                    #[trigger] self.nodes@[k],
                ) by {
                    if k != e.a as int && k != e.b as int {
                        assert(self.nodes@[k] == prev[k]);
                        assert(node_ok(prev_self.nodes_spec()[k]));
                    }
                }
                lemma_edges_ok_transfer(
                    prev_self.edges_spec(),
                    self.edges_spec(),
                    prev_self.nodes_spec().len() as int,
                    self.nodes_spec().len() as int,
                );
                lemma_pairs_unique_transfer(prev_self.edges_spec(), self.edges_spec());
                assert(self.nodes@ == relax_edge(
                    prev,
                    old(self).hovering_id(),
                    old(self).dragging_spec(),
                    e,
                ));
                assert(relax_upto(
                    old(self).nodes@,
                    old(self).hovering_id(),
                    old(self).dragging_spec(),
                    old(self).edges@,
                    i as int + 1,
                ) == relax_edge(prev, old(self).hovering_id(), old(self).dragging_spec(), e));
            }
            i += 1;
        }
    }

    /// One repulsion pass: every ordered pair of distinct nodes whose
    /// centers are closer than `REPULSE_RADIUS` is pushed apart, clamped
    /// and drag-exempt like edge relaxation.
    fn walk_all_nodes(&mut self)
        requires
            old(self).wf(),
        ensures
            final(self).wf(),
            final(self).nodes_spec() == repulsed_nodes(
                old(self).nodes_spec(),
                old(self).hovering_id(),
                old(self).dragging_spec(),
            ),
            final(self).edges_spec() == old(self).edges_spec(),
            final(self).props_spec() == old(self).props_spec(),
            final(self).hovering_id() == old(self).hovering_id(),
            final(self).dragging_spec() == old(self).dragging_spec(),
            final(self).repulsion_spec() == old(self).repulsion_spec(),
    {
        let n: usize = self.nodes.len();
        let mut i: usize = 0;
        while i < n
            invariant
                i <= n,
                self.wf(),
                n == old(self).nodes@.len(),
                self.nodes@.len() == n,
                self.edges@ == old(self).edges@,
                self.properties@ == old(self).properties@,
                self.hovering == old(self).hovering,
                self.dragging == old(self).dragging,
                self.repulsion == old(self).repulsion,
                old(self).wf(),
                self.nodes@ == repulse_upto(
                    old(self).nodes@,
                    old(self).hovering_id(),
                    old(self).dragging_spec(),
                    n as int,
                    i as int,
                ),
            decreases n - i,
        {
            let ghost row_start = self.nodes@;
            let mut j: usize = 0;
            while j < n
                invariant
                    j <= n,
                    i < n,
                    self.wf(),
                    self.nodes@.len() == n,
                    self.edges@ == old(self).edges@,
                    self.properties@ == old(self).properties@,
                    self.hovering == old(self).hovering,
                    self.dragging == old(self).dragging,
                    self.repulsion == old(self).repulsion,
                    old(self).wf(),
                    self.nodes@ == repulse_row(
                        row_start,
                        old(self).hovering_id(),
                        old(self).dragging_spec(),
                        i as int,
                        j as int,
                    ),
                decreases n - j,
            {
                let ghost prev_self = *self;
                let ghost prev = self.nodes@;
                if i != j {
                    proof {
                        assert(node_ok(self.nodes_spec()[i as int]));
                        assert(node_ok(self.nodes_spec()[j as int]));
                    }
                    let ci: Position = self.nodes[i].center();
                    let cj: Position = self.nodes[j].center();
                    let distance: i64 = ci.delta(cj);
                    if distance < REPULSE_RADIUS {
                        let amount: i64 = half(-REPULSE_RADIUS - distance);
                        if !self.is_exempt(i) {
                            self.nodes[i].move_to(amount, cj);
                        }
                        let ci2: Position = self.nodes[i].center();
                        if !self.is_exempt(j) {
                            self.nodes[j].move_to(amount, ci2);
                        }
                    }
                }
                proof {
                    assert(self.nodes@.len() == prev.len());
                    assert(node_ok(self.nodes@[i as int]));
                    assert(node_ok(self.nodes@[j as int]));
                    assert forall|k: int| 0 <= k < self.nodes@.len() implies node_ok(
                        #[trigger] self.nodes@[k],
                    ) by {
                        if k != i as int && k != j as int {
                            assert(self.nodes@[k] == prev[k]);
                            assert(node_ok(prev_self.nodes_spec()[k]));
                        }
                    }
                    lemma_edges_ok_transfer(
                        prev_self.edges_spec(),
                        self.edges_spec(),
                        prev_self.nodes_spec().len() as int,
                        self.nodes_spec().len() as int,
                    );
                    lemma_pairs_unique_transfer(prev_self.edges_spec(), self.edges_spec());
                    assert(self.nodes@ == repulse_pair(
                        prev,
                        old(self).hovering_id(),
                        old(self).dragging_spec(),
                        i as int,
                        j as int,
                    ));
                    assert(repulse_row(
                        row_start,
                        old(self).hovering_id(),
                        old(self).dragging_spec(),
                        i as int,
                        j as int + 1,
                    ) == repulse_pair(
                        prev,
                        old(self).hovering_id(),
                        old(self).dragging_spec(),
                        i as int,
                        j as int,
                    ));
                }
                j += 1;
            }
            proof {
                assert(repulse_upto(
                    old(self).nodes@,
                    old(self).hovering_id(),
                    old(self).dragging_spec(),
                    n as int,
                    i as int + 1,
                ) == repulse_row(
                    row_start,
                    old(self).hovering_id(),
                    old(self).dragging_spec(),
                    i as int,
                    n as int,
                ));
            }
            i += 1;
        }
    }

    /// One tick of the layout engine: relax every edge once, then run the
    /// repulsion pass when it is enabled. Nodes without edges never move
    /// under the edge pass, and a dragged node never moves at all.
    pub fn tick(&mut self)
        requires
            old(self).wf(),
        ensures
            final(self).wf(),
            final(self).nodes_spec() == ticked_nodes(*old(self)),
            final(self).edges_spec() == old(self).edges_spec(),
            final(self).props_spec() == old(self).props_spec(),
            final(self).hovering_id() == old(self).hovering_id(),
            final(self).dragging_spec() == old(self).dragging_spec(),
            final(self).repulsion_spec() == old(self).repulsion_spec(),
    {
        self.walk_edges();
        if self.repulsion {
            self.walk_all_nodes();
        }
    }

    /// Route a pointer movement, already translated into surface-local
    /// coordinates. While dragging, the drag target's center snaps exactly
    /// to the pointer. Otherwise the hover target is kept while it still
    /// contains the pointer, and is re-searched (first node in creation
    /// order) when it does not or when there is none.
    pub fn mouse_move(&mut self, position: Position)
        requires
            old(self).wf(),
            in_input_bound(position),
        ensures
            final(self).wf(),
            final(self).dragging_spec() == old(self).dragging_spec(),
            final(self).edges_spec() == old(self).edges_spec(),
            final(self).props_spec() == old(self).props_spec(),
            final(self).repulsion_spec() == old(self).repulsion_spec(),
            old(self).dragging_spec() ==> {
                let h = old(self).hovering_id()->0;
                &&& final(self).hovering_id() == old(self).hovering_id()
                &&& final(self).nodes_spec() == old(self).nodes_spec().update(
                    h,
                    recentered(old(self).nodes_spec()[h], position),
                )
                &&& center_of(final(self).nodes_spec()[h]) == position
            },
            !old(self).dragging_spec() ==> final(self).nodes_spec() == old(self).nodes_spec(),
            !old(self).dragging_spec() && hover_still(*old(self), position)
                ==> final(self).hovering_id() == old(self).hovering_id(),
            !old(self).dragging_spec() && !hover_still(*old(self), position)
                ==> final(self).hovering_id() == first_hit(old(self).nodes_spec(), position),
    {
        let hov: Option<Node> = self.hovering;
        match hov {
            Some(sel) => {
                proof {
                    assert(0 <= sel.spec_id() < self.nodes_spec().len());
                    assert(node_ok(self.nodes_spec()[sel.spec_id()]));
                }
                if self.dragging {
                    self.nodes[sel.id].set_centered(position);
                    proof {
                        assert forall|k: int| 0 <= k < self.nodes_spec().len() implies node_ok(
                            #[trigger] self.nodes_spec()[k],
                        ) by {
                            if k != sel.spec_id() {
                                assert(self.nodes_spec()[k] == old(self).nodes_spec()[k]);
                            }
                            assert(node_ok(old(self).nodes_spec()[k]));
                        }
                        lemma_edges_ok_transfer(
                            old(self).edges_spec(),
                            self.edges_spec(),
                            old(self).nodes_spec().len() as int,
                            self.nodes_spec().len() as int,
                        );
                        lemma_pairs_unique_transfer(old(self).edges_spec(), self.edges_spec());
                    }
                } else {
                    if !self.nodes[sel.id].contains(position) {
                        self.hovering = None;
                    }
                }
            },
            None => {},
        }
        if self.hovering.is_none() {
            let found: Option<Node> = self.first_node(position);
            self.hovering = found;
        }
        proof {
            if !old(self).dragging_spec() {
                lemma_nodes_ok_transfer(old(self).nodes_spec(), self.nodes_spec());
                lemma_edges_ok_transfer(
                    old(self).edges_spec(),
                    self.edges_spec(),
                    old(self).nodes_spec().len() as int,
                    self.nodes_spec().len() as int,
                );
                lemma_pairs_unique_transfer(old(self).edges_spec(), self.edges_spec());
            }
        }
    }

    /// A pointer-button press starts a drag exactly when a node is
    /// hovered; without a hover target it changes nothing.
    pub fn mouse_down(&mut self)
        requires
            old(self).wf(),
        ensures
            final(self).wf(),
            final(self).dragging_spec() == (old(self).hovering_id() is Some),
            final(self).hovering_id() == old(self).hovering_id(),
            final(self).nodes_spec() == old(self).nodes_spec(),
            final(self).props_spec() == old(self).props_spec(),
            final(self).edges_spec() == old(self).edges_spec(),
            final(self).repulsion_spec() == old(self).repulsion_spec(),
    {
        self.dragging = self.hovering.is_some();
        proof {
            lemma_nodes_ok_transfer(old(self).nodes_spec(), self.nodes_spec());
            lemma_edges_ok_transfer(
                old(self).edges_spec(),
                self.edges_spec(),
                old(self).nodes_spec().len() as int,
                self.nodes_spec().len() as int,
            );
            lemma_pairs_unique_transfer(old(self).edges_spec(), self.edges_spec());
        }
    }

    /// A pointer-button release always ends the drag and preserves the
    /// hover target.
    pub fn mouse_up(&mut self)
        requires
            old(self).wf(),
        ensures
            final(self).wf(),
            !final(self).dragging_spec(),
            final(self).hovering_id() == old(self).hovering_id(),
            final(self).nodes_spec() == old(self).nodes_spec(),
            final(self).props_spec() == old(self).props_spec(),
            final(self).edges_spec() == old(self).edges_spec(),
            final(self).repulsion_spec() == old(self).repulsion_spec(),
    {
        self.dragging = false;
        proof {
            lemma_nodes_ok_transfer(old(self).nodes_spec(), self.nodes_spec());
            lemma_edges_ok_transfer(
                old(self).edges_spec(),
                self.edges_spec(),
                old(self).nodes_spec().len() as int,
                self.nodes_spec().len() as int,
            );
            lemma_pairs_unique_transfer(old(self).edges_spec(), self.edges_spec());
        }
    }

    /// The pointer left the surface: hover and drag are both cleared, so a
    /// drag can never stay stuck after the pointer is gone.
    pub fn mouse_out(&mut self)
        requires
            old(self).wf(),
        ensures
            final(self).wf(),
            !final(self).dragging_spec(),
            final(self).hovering_id() is None,
            final(self).nodes_spec() == old(self).nodes_spec(),
            final(self).props_spec() == old(self).props_spec(),
            final(self).edges_spec() == old(self).edges_spec(),
            final(self).repulsion_spec() == old(self).repulsion_spec(),
    {
        self.dragging = false;
        self.hovering = None;
        proof {
            lemma_nodes_ok_transfer(old(self).nodes_spec(), self.nodes_spec());
            lemma_edges_ok_transfer(
                old(self).edges_spec(),
                self.edges_spec(),
                old(self).nodes_spec().len() as int,
                self.nodes_spec().len() as int,
            );
            lemma_pairs_unique_transfer(old(self).edges_spec(), self.edges_spec());
        }
    }

    /// The first node in creation order whose bounding box contains the
    /// position, if any.
    pub fn first_node(&self, position: Position) -> (r: Option<Node>)
        requires
            self.wf(),
        ensures
            hov_id(r) == first_hit(self.nodes_spec(), position),
            r matches Some(node) ==> 0 <= node.spec_id() < self.nodes_spec().len()
                && contains_point(self.nodes_spec()[node.spec_id()], position),
    {
        let n: usize = self.nodes.len();
        let mut i: usize = 0;
        while i < n
            invariant
                i <= n,
                self.wf(),
                n == self.nodes@.len(),
                first_hit(self.nodes@, position) == first_hit_from(self.nodes@, position, i as int),
            decreases n - i,
        {
            proof {
                assert(node_ok(self.nodes_spec()[i as int]));
            }
            if self.nodes[i].contains(position) {
                proof {
                    assert(first_hit_from(self.nodes@, position, i as int) == Some(i as int));
                }
                return Some(Node { id: i });
            }
            proof {
                assert(first_hit_from(self.nodes@, position, i as int) == first_hit_from(
                    self.nodes@,
                    position,
                    i as int + 1,
                ));
            }
            i += 1;
        }
        None
    }

    /// Translate raw pointer coordinates into surface-local coordinates by
    /// subtracting the surface's screen-space offset.
    pub fn adjust_mouse_position(&self, position: Position, offset: Position) -> (r: Position)
        requires
            in_coord_bound(position),
            in_coord_bound(offset),
        ensures
            r.x == position.x - offset.x,
            r.y == position.y - offset.y,
    {
        Position { x: position.x - offset.x, y: position.y - offset.y }
    }

    /// Switch the pairwise repulsion pass on or off (off in a fresh
    /// model).
    pub fn set_repulsion(&mut self, enabled: bool)
        requires
            old(self).wf(),
        ensures
            final(self).wf(),
            final(self).repulsion_spec() == enabled,
            final(self).nodes_spec() == old(self).nodes_spec(),
            final(self).props_spec() == old(self).props_spec(),
            final(self).edges_spec() == old(self).edges_spec(),
            final(self).hovering_id() == old(self).hovering_id(),
            final(self).dragging_spec() == old(self).dragging_spec(),
    {
        self.repulsion = enabled;
        proof {
            lemma_nodes_ok_transfer(old(self).nodes_spec(), self.nodes_spec());
            lemma_edges_ok_transfer(
                old(self).edges_spec(),
                self.edges_spec(),
                old(self).nodes_spec().len() as int,
                self.nodes_spec().len() as int,
            );
            lemma_pairs_unique_transfer(old(self).edges_spec(), self.edges_spec());
        }
    }

    /// How many nodes the model holds.
    pub fn node_count(&self) -> (n: usize)
        ensures
            n as int == self.nodes_spec().len(),
    {
        self.nodes.len()
    }

    /// How many edges the model holds.
    pub fn edge_count(&self) -> (n: usize)
        ensures
            n as int == self.edges_spec().len(),
    {
        self.edges.len()
    }

    /// The stored top-left position of a node, if the handle is valid.
    pub fn node_position(&self, node: Node) -> (r: Option<Position>)
        ensures
            node.spec_id() < self.nodes_spec().len() ==> r == Some(
                self.nodes_spec()[node.spec_id()].position,
            ),
            node.spec_id() >= self.nodes_spec().len() ==> r is None,
    {
        if node.id < self.nodes.len() {
            Some(self.nodes[node.id].position)
        } else {
            None
        }
    }

    /// The stored size of a node, if the handle is valid.
    pub fn node_size(&self, node: Node) -> (r: Option<Size>)
        ensures
            node.spec_id() < self.nodes_spec().len() ==> r == Some(
                self.nodes_spec()[node.spec_id()].size,
            ),
            node.spec_id() >= self.nodes_spec().len() ==> r is None,
    {
        if node.id < self.nodes.len() {
            Some(self.nodes[node.id].size)
        } else {
            None
        }
    }

    /// The center of a node's bounding box, if the handle is valid.
    pub fn node_center(&self, node: Node) -> (r: Option<Position>)
        requires
            self.wf(),
        ensures
            node.spec_id() < self.nodes_spec().len() ==> r == Some(
                center_of(self.nodes_spec()[node.spec_id()]),
            ),
            node.spec_id() >= self.nodes_spec().len() ==> r is None,
    {
        if node.id < self.nodes.len() {
            Some(self.nodes[node.id].center())
        } else {
            None
        }
    }

    /// The caller payload of a node, if the handle is valid.
    pub fn node_properties(&self, node: Node) -> (r: Option<&NodeProperties>)
        requires
            self.wf(),
        ensures
            node.spec_id() < self.nodes_spec().len() ==> r is Some && *r->0 == self.props_spec()[node.spec_id()],
            node.spec_id() >= self.nodes_spec().len() ==> r is None,
    {
        if node.id < self.properties.len() {
            Some(&self.properties[node.id])
        } else {
            None
        }
    }

    /// The current hover target, if any.
    pub fn hover_target(&self) -> (r: Option<Node>)
        ensures
            hov_id(r) == self.hovering_id(),
    {
        self.hovering
    }

    /// Whether a drag is in progress.
    pub fn is_dragging(&self) -> (r: bool)
        ensures
            r == self.dragging_spec(),
    {
        self.dragging
    }

    /// Whether the repulsion pass is enabled.
    pub fn repulsion_enabled(&self) -> (r: bool)
        ensures
            r == self.repulsion_spec(),
    {
        self.repulsion
    }

    /// Project the current model into the ordered draw sequence of one
    /// frame: a clear, every edge as a center-to-center line, then every
    /// node as a filled rectangle with an outline (a wide one for the
    /// hover target). Edges are emitted before nodes so node fills occlude
    /// edge lines.
    pub fn draw(&self) -> (ops: Vec<DrawOp>)
        requires
            self.wf(),
        ensures
            ops@ == draw_ops(*self),
    {
        let mut ops: Vec<DrawOp> = Vec::new();
        ops.push(DrawOp::Clear);
        let ne: usize = self.edges.len();
        let mut i: usize = 0;
        while i < ne
            invariant
                i <= ne,
                self.wf(),
                ne == self.edges@.len(),
                ops@ =~= seq![DrawOp::Clear] + Seq::new(
                    i as nat,
                    |k: int| edge_op(self.nodes_spec(), self.edges_spec()[k]),
                ),
            decreases ne - i,
        {
            let e: EdgeState = self.edges[i];
            proof {
                assert(edge_ok(self.edges_spec()[i as int], self.nodes_spec().len() as int));
                assert(node_ok(self.nodes_spec()[e.a as int]));
                assert(node_ok(self.nodes_spec()[e.b as int]));
            }
            let from: Position = self.nodes[e.a].center();
            let to: Position = self.nodes[e.b].center();
            ops.push(DrawOp::Line { from, to });
            proof {
                assert(ops@ =~= seq![DrawOp::Clear] + Seq::new(
                    (i + 1) as nat,
                    |k: int| edge_op(self.nodes_spec(), self.edges_spec()[k]),
                ));
            }
            i += 1;
        }
        let nn: usize = self.nodes.len();
        let mut j: usize = 0;
        while j < nn
            invariant
                j <= nn,
                self.wf(),
                nn == self.nodes@.len(),
                ne == self.edges@.len(),
                ops@ =~= seq![DrawOp::Clear] + Seq::new(
                    ne as nat,
                    |k: int| edge_op(self.nodes_spec(), self.edges_spec()[k]),
                ) + Seq::new(
                    (j * 2) as nat,
                    |k: int| node_op(self.nodes_spec(), self.hovering_id(), k),
                ),
            decreases nn - j,
        {
            let nstate: NodeState = self.nodes[j];
            ops.push(DrawOp::FillRect { position: nstate.position, size: nstate.size });
            let hovered: bool = match self.hovering {
                Some(x) => x.id == j,
                None => false,
            };
            let width: i64 = if hovered {
                5 * SCALE
            } else {
                SCALE
            };
            ops.push(
                DrawOp::StrokeRect {
                    position: nstate.position,
                    size: nstate.size,
                    line_width: width,
                },
            );
            proof {
                assert(ops@ =~= seq![DrawOp::Clear] + Seq::new(
                    ne as nat,
                    |k: int| edge_op(self.nodes_spec(), self.edges_spec()[k]),
                ) + Seq::new(
                    ((j + 1) * 2) as nat,
                    |k: int| node_op(self.nodes_spec(), self.hovering_id(), k),
                ));
            }
            j += 1;
        }
        proof {
            assert(ops@ =~= draw_ops(*self));
        }
        ops
    }

    /// The weight of the stored edge for the unordered pair, if present.
    pub fn edge_weight(&self, a: Node, b: Node) -> (r: Option<usize>)
        requires
            self.wf(),
        ensures
            r is Some <==> edge_present(self.edges_spec(), a.spec_id(), b.spec_id()),
            r is Some ==> exists|k: int|
                0 <= k < self.edges_spec().len() && (#[trigger] self.edges_spec()[k]).a as int
                    == canon_lo(a.spec_id(), b.spec_id()) && self.edges_spec()[k].b as int
                    == canon_hi(a.spec_id(), b.spec_id()) && self.edges_spec()[k].properties.weight
                    == r->0,
    {
        let lo: usize = if a.id < b.id {
            a.id
        } else {
            b.id
        };
        let hi: usize = if a.id < b.id {
            b.id
        } else {
            a.id
        };
        let n: usize = self.edges.len();
        let mut k: usize = 0;
        while k < n
            invariant
                k <= n,
                n == self.edges@.len(),
                lo as int == canon_lo(a.spec_id(), b.spec_id()),
                hi as int == canon_hi(a.spec_id(), b.spec_id()),
                forall|j: int|
                    0 <= j < k ==> !((#[trigger] self.edges@[j]).a == lo && self.edges@[j].b == hi),
            decreases n - k,
        {
            if self.edges[k].a == lo && self.edges[k].b == hi {
                proof {
                    assert((self.edges_spec()[k as int]).a as int == canon_lo(
                        a.spec_id(),
                        b.spec_id(),
                    ) && self.edges_spec()[k as int].b as int == canon_hi(
                        a.spec_id(),
                        b.spec_id(),
                    ));
                }
                return Some(self.edges[k].properties.weight);
            }
            k += 1;
        }
        None
    }
}

/// The edge's center distance is within the settle epsilon of its rest
/// length, so relaxation considers it done.
pub open spec fn edge_settled(nodes: Seq<NodeState>, e: EdgeState) -> bool {
    abs_i(dist(center_of(nodes[e.a as int]), center_of(nodes[e.b as int])) - edge_rest(e))
        <= SETTLE_EPSILON as int
}

/// For all edges: when the centers' distance is already within the settle
/// epsilon of the rest length, one relaxation step of that edge leaves
/// every node exactly in place.
pub proof fn lemma_settled_edge_unmoved(
    nodes: Seq<NodeState>,
    hovering: Option<int>,
    dragging: bool,
    e: EdgeState,
)
    requires
        edge_settled(nodes, e),
    ensures
        relax_edge(nodes, hovering, dragging, e) == nodes,
{
}

/// A graph whose every edge is settled is a fixed point of the edge
/// relaxation pass: the whole pass moves nothing.
pub proof fn lemma_settled_graph_fixed(
    nodes: Seq<NodeState>,
    hovering: Option<int>,
    dragging: bool,
    edges: Seq<EdgeState>,
    i: int,
)
    requires
        forall|k: int| 0 <= k < edges.len() ==> edge_settled(nodes, #[trigger] edges[k]),
        i <= edges.len(),
    ensures
        relax_upto(nodes, hovering, dragging, edges, i) == nodes,
    decreases i,
{
    if i > 0 {
        lemma_settled_graph_fixed(nodes, hovering, dragging, edges, i - 1);
        lemma_settled_edge_unmoved(nodes, hovering, dragging, edges[i - 1]);
    }
}

/// For all relaxation steps, the displacement one edge step applies to
/// any single node is at most `MAX_MOVE` steps (5 surface units) per
/// component and in Euclidean magnitude, for any input distance/target
/// delta.
pub proof fn lemma_relax_edge_displacement_bounded(
    nodes: Seq<NodeState>,
    hovering: Option<int>,
    dragging: bool,
    e: EdgeState,
    k: int,
)
    requires
        (e.a as int) < (e.b as int),
        (e.b as int) < nodes.len(),
        0 <= k < nodes.len(),
        node_ok(nodes[k]),
    ensures
        ({
            let p = nodes[k].position;
            let q = relax_edge(nodes, hovering, dragging, e)[k].position;
            &&& abs_i(q.x - p.x) <= MAX_MOVE as int
            &&& abs_i(q.y - p.y) <= MAX_MOVE as int
            &&& (q.x - p.x) * (q.x - p.x) + (q.y - p.y) * (q.y - p.y) <= (MAX_MOVE * MAX_MOVE) as int
        }),
{
    let na = nodes[e.a as int];
    let nb = nodes[e.b as int];
    let delta = dist(center_of(na), center_of(nb)) - edge_rest(e);
    let amount = half_trunc(delta);
    let nodes1 = if exempt(hovering, dragging, e.a as int) {
        nodes
    } else {
        nodes.update(
            e.a as int,
            NodeState { position: moved_position(na.position, center_of(nb), amount), size: na.size },
        )
    };
    if k == e.a as int {
        lemma_single_move_bounded(nodes[k].position, center_of(nb), amount);
    } else if k == e.b as int {
        lemma_single_move_bounded(nodes[k].position, center_of(nodes1[e.a as int]), amount);
    }
}

/// The repulsion pass obeys the same clamp: one pair step displaces any
/// single node by at most `MAX_MOVE` steps per component and in Euclidean
/// magnitude.
pub proof fn lemma_repulse_pair_displacement_bounded(
    nodes: Seq<NodeState>,
    hovering: Option<int>,
    dragging: bool,
    i: int,
    j: int,
    k: int,
)
    requires
        0 <= i < nodes.len(),
        0 <= j < nodes.len(),
        0 <= k < nodes.len(),
        node_ok(nodes[k]),
    ensures
        ({
            let p = nodes[k].position;
            let q = repulse_pair(nodes, hovering, dragging, i, j)[k].position;
            &&& abs_i(q.x - p.x) <= MAX_MOVE as int
            &&& abs_i(q.y - p.y) <= MAX_MOVE as int
            &&& (q.x - p.x) * (q.x - p.x) + (q.y - p.y) * (q.y - p.y) <= (MAX_MOVE * MAX_MOVE) as int
        }),
{
    if i != j {
        let ni = nodes[i];
        let nj = nodes[j];
        let amount = half_trunc(-(REPULSE_RADIUS as int) - dist(center_of(ni), center_of(nj)));
        let nodes1 = if exempt(hovering, dragging, i) {
            nodes
        } else {
            nodes.update(
                i,
                NodeState {
                    position: moved_position(ni.position, center_of(nj), amount),
                    size: ni.size,
                },
            )
        };
        if k == i {
            lemma_single_move_bounded(nodes[k].position, center_of(nj), amount);
        } else if k == j {
            lemma_single_move_bounded(nodes[k].position, center_of(nodes1[i]), amount);
        }
    }
}

/// While a drag is in progress, one edge relaxation step never moves the
/// dragged node and never changes the number of nodes.
pub proof fn lemma_relax_edge_preserves_dragged(nodes: Seq<NodeState>, h: int, e: EdgeState)
    requires
        (e.a as int) < nodes.len(),
        (e.b as int) < nodes.len(),
    ensures
        relax_edge(nodes, Some(h), true, e).len() == nodes.len(),
        0 <= h < nodes.len() ==> relax_edge(nodes, Some(h), true, e)[h] == nodes[h],
{
}

/// While a drag is in progress, the whole edge relaxation pass never
/// moves the dragged node.
pub proof fn lemma_relax_upto_preserves_dragged(
    nodes: Seq<NodeState>,
    h: int,
    edges: Seq<EdgeState>,
    i: int,
)
    requires
        i <= edges.len(),
        forall|k: int|
            0 <= k < edges.len() ==> ((#[trigger] edges[k]).a as int) < nodes.len() && ((
            edges[k]).b as int) < nodes.len(),
    ensures
        relax_upto(nodes, Some(h), true, edges, i).len() == nodes.len(),
        0 <= h < nodes.len() ==> relax_upto(nodes, Some(h), true, edges, i)[h] == nodes[h],
    decreases i,
{
    if i > 0 {
        lemma_relax_upto_preserves_dragged(nodes, h, edges, i - 1);
        lemma_relax_edge_preserves_dragged(
            relax_upto(nodes, Some(h), true, edges, i - 1),
            h,
            edges[i - 1],
        );
    }
}

/// While a drag is in progress, one repulsion step never moves the
/// dragged node and never changes the number of nodes.
pub proof fn lemma_repulse_pair_preserves_dragged(nodes: Seq<NodeState>, h: int, i: int, j: int)
    requires
        0 <= i < nodes.len(),
        0 <= j < nodes.len(),
    ensures
        repulse_pair(nodes, Some(h), true, i, j).len() == nodes.len(),
        0 <= h < nodes.len() ==> repulse_pair(nodes, Some(h), true, i, j)[h] == nodes[h],
{
}

/// While a drag is in progress, one row of the repulsion pass never moves
/// the dragged node.
pub proof fn lemma_repulse_row_preserves_dragged(nodes: Seq<NodeState>, h: int, i: int, j: int)
    requires
        0 <= i < nodes.len(),
        j <= nodes.len(),
    ensures
        repulse_row(nodes, Some(h), true, i, j).len() == nodes.len(),
        0 <= h < nodes.len() ==> repulse_row(nodes, Some(h), true, i, j)[h] == nodes[h],
    decreases j,
{
    if j > 0 {
        lemma_repulse_row_preserves_dragged(nodes, h, i, j - 1);
        lemma_repulse_pair_preserves_dragged(
            repulse_row(nodes, Some(h), true, i, j - 1),
            h,
            i,
            j - 1,
        );
    }
}

/// While a drag is in progress, the whole repulsion pass never moves the
/// dragged node.
pub proof fn lemma_repulse_upto_preserves_dragged(nodes: Seq<NodeState>, h: int, n: int, i: int)
    requires
        n == nodes.len(),
        i <= n,
    ensures
        repulse_upto(nodes, Some(h), true, n, i).len() == nodes.len(),
        0 <= h < nodes.len() ==> repulse_upto(nodes, Some(h), true, n, i)[h] == nodes[h],
    decreases i,
{
    if i > 0 {
        lemma_repulse_upto_preserves_dragged(nodes, h, n, i - 1);
        lemma_repulse_row_preserves_dragged(
            repulse_upto(nodes, Some(h), true, n, i - 1),
            h,
            i - 1,
            n,
        );
    }
}

/// While a drag is in progress, a whole tick (edge pass and, when
/// enabled, repulsion pass) leaves the dragged node exactly where the
/// pointer put it.
pub proof fn lemma_tick_fixes_dragged_node(g: Graph)
    requires
        g.wf(),
        g.dragging_spec(),
    ensures
        ticked_nodes(g).len() == g.nodes_spec().len(),
        ticked_nodes(g)[g.hovering_id()->0] == g.nodes_spec()[g.hovering_id()->0],
{
    let h = g.hovering_id()->0;
    assert(g.hovering_id() == Some(h));
    assert forall|k: int|
        0 <= k < g.edges_spec().len() implies ((#[trigger] g.edges_spec()[k]).a as int)
        < g.nodes_spec().len() && ((g.edges_spec()[k]).b as int) < g.nodes_spec().len() by {
        assert(edge_ok(g.edges_spec()[k], g.nodes_spec().len() as int));
    }
    lemma_relax_upto_preserves_dragged(
        g.nodes_spec(),
        h,
        g.edges_spec(),
        g.edges_spec().len() as int,
    );
    if g.repulsion_spec() {
        lemma_repulse_upto_preserves_dragged(
            relaxed_nodes(g),
            h,
            relaxed_nodes(g).len() as int,
            relaxed_nodes(g).len() as int,
        );
    }
}

/// After an edge for the canonical pair of `{x, y}` is stored, the pair
/// is present, so by `add_edge`'s contract a second add of the same
/// unordered pair leaves the edge store unchanged and the first weight in
/// effect.
pub proof fn lemma_edge_present_after_add(edges: Seq<EdgeState>, e: EdgeState, x: int, y: int)
    requires
        e.a as int == canon_lo(x, y),
        e.b as int == canon_hi(x, y),
    ensures
        edge_present(edges.push(e), x, y),
{
    assert(edges.push(e)[edges.len() as int] == e);
}

} // verus!
