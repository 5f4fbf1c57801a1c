//! The exact part of the force-directed layout.
//!
//! A layout gives every node a rectangle and every edge the segment between
//! the middles of its endpoints' rectangles. It comes about in three phases:
//! the nodes are placed along a diagonal; forces that push all nodes apart
//! and pull the source of every edge towards its target move them, step by
//! step, until the largest force falls below a threshold or the budget of
//! steps is used up; and the segments are derived from where the rectangles
//! have come to lie.
//!
//! The forces are real-valued, and the arithmetic on them is the caller's.
//! What is decided in whole numbers is decided here: where the rectangles
//! start ([`initial_layout`]), which nodes push and pull a given node
//! ([`force_terms`]), whether another step follows ([`first_action`],
//! [`next_action`]), and which two rectangles a segment joins
//! ([`layout_edges`]).

use crate::types::{ids_below, EdgeData, Graph, GraphView, NodeId};
use vstd::prelude::*;

verus! {

/// Width of every node's rectangle.
pub const NODE_WIDTH: u64 = 64;

/// Height of every node's rectangle.
pub const NODE_HEIGHT: u64 = 100;

/// Distance, along each axis, between the origins of two rectangles that
/// follow each other in the initial placement.
pub const PLACEMENT_STRIDE: u64 = 150;

/// The budget of refinement steps, unless the caller says otherwise: at
/// most this many steps are run.
pub const MAX_ITERATIONS: usize = 50000;

/// A point of the grid on which the initial placement lies.
#[derive(Debug, Clone, Copy, PartialEq, Eq, Structural)]
pub struct Point {
    pub x: u128,
    pub y: u128,
}

/// An axis-aligned box on the grid: origin and size.
#[derive(Debug, Clone, Copy, PartialEq, Eq, Structural)]
pub struct Rect {
    pub origin: Point,
    pub width: u64,
    pub height: u64,
}

/// A straight segment from `p0` to `p1`.
#[derive(Debug, Clone, Copy, PartialEq, Eq, Structural)]
pub struct Line {
    pub p0: Point,
    pub p1: Point,
}

impl Rect {
    /// The middle of the box, exact where width and height are even.
    pub open spec fn spec_center(&self) -> Point {
        Point {
            x: (self.origin.x + self.width / 2) as u128,
            y: (self.origin.y + self.height / 2) as u128,
        }
    }

    /// The box has room for its own middle in the coordinate type.
    pub open spec fn in_range(&self) -> bool {
        &&& self.origin.x + self.width / 2 <= u128::MAX
        &&& self.origin.y + self.height / 2 <= u128::MAX
    }

    #[verifier::when_used_as_spec(spec_center)]
    pub fn center(&self) -> (c: Point)
        requires
            self.in_range(),
        ensures
            c == self.spec_center(),
    {
        Point {
            x: self.origin.x + (self.width / 2) as u128,
            y: self.origin.y + (self.height / 2) as u128,
        }
    }
}

/// The rectangle that the node at place `k` of the enumeration starts in:
/// origin `(150 k, 150 k)`, size 64 by 100.
pub open spec fn initial_rect(k: nat) -> Rect {
    Rect {
        origin: Point { x: (PLACEMENT_STRIDE * k) as u128, y: (PLACEMENT_STRIDE * k) as u128 },
        width: NODE_WIDTH,
        height: NODE_HEIGHT,
    }
}

/// The segment of `edge`, from the middle of its source's rectangle to the
/// middle of its target's.
pub open spec fn segment(rects: Seq<Rect>, edge: EdgeData) -> Line {
    Line { p0: rects[edge.from as int].center(), p1: rects[edge.to as int].center() }
}

/// The segments of all edges, indexed by edge id.
pub open spec fn segments(rects: Seq<Rect>, edges: Seq<EdgeData>) -> Seq<Line> {
    Seq::new(edges.len(), |e: int| segment(rects, edges[e]))
}

/// A layout on the grid: rectangles indexed by node id and segments
/// indexed by edge id. This is what a layout is before forces move it.
#[derive(Debug)]
pub struct Placement {
    pub rects: Vec<Rect>,
    pub lines: Vec<Line>,
}

impl Placement {
    /// Every node id of `graph` has exactly one rectangle and every edge id
    /// exactly one segment, and each segment joins the middles of the
    /// rectangles of its edge's endpoints as they are now.
    pub open spec fn covers(&self, graph: GraphView) -> bool {
        &&& self.rects@.len() == graph.nodes.len()
        &&& self.lines@ == segments(self.rects@, graph.edges)
    }
}

/// Places the nodes of `graph` along the diagonal, in the order of their
/// ids, and joins them by the segments of the edges.
pub fn initial_layout(graph: &Graph) -> (layout: Placement)
    requires
        graph@.endpoints_present(),
    ensures
        layout.covers(graph@),
        forall|k: int| 0 <= k < layout.rects@.len() ==> layout.rects@[k] == initial_rect(k as nat),
{
    let mut layout = Placement { rects: Vec::new(), lines: Vec::new() };
    let ids = graph.nodes();
    let mut k: usize = ids.start;
    while k < ids.end
        invariant
            k <= ids.end,
            layout.rects@.len() == k,
            layout.lines@.len() == 0,
            forall|j: int| 0 <= j < k ==> layout.rects@[j] == initial_rect(j as nat),
        decreases ids.end - k,
    {
        let offset: u128 = (PLACEMENT_STRIDE as u128) * (k as u128);
        layout.rects.push(
            Rect {
                origin: Point { x: offset, y: offset },
                width: NODE_WIDTH,
                height: NODE_HEIGHT,
            },
        );
        k += 1;
    }
    layout_edges(graph, &mut layout);
    layout
}

/// Derives the segment of every edge anew from the rectangles as they are.
/// The rectangles are left alone.
pub fn layout_edges(graph: &Graph, layout: &mut Placement)
    requires
        graph@.endpoints_present(),
        old(layout).rects@.len() == graph@.nodes.len(),
        forall|k: int| 0 <= k < old(layout).rects@.len() ==> old(layout).rects@[k].in_range(),
    ensures
        final(layout).rects@ == old(layout).rects@,
        final(layout).covers(graph@),
{
    let mut lines: Vec<Line> = Vec::new();
    let ids = graph.edges();
    let mut e: usize = ids.start;
    while e < ids.end
        invariant
            graph@.endpoints_present(),
            ids.end == graph@.edges.len(),
            e <= ids.end,
            layout.rects@.len() == graph@.nodes.len(),
            forall|k: int| 0 <= k < layout.rects@.len() ==> layout.rects@[k].in_range(),
            lines@.len() == e,
            forall|j: int| 0 <= j < e ==> lines@[j] == segment(layout.rects@, graph@.edges[j]),
        decreases ids.end - e,
    {
        if let Some(edge) = graph.edge_data(e) {
            assert(graph@.has_node(graph@.edges[e as int].from));
            let p0 = layout.rects[edge.from].center();
            let p1 = layout.rects[edge.to].center();
            lines.push(Line { p0, p1 });
        }
        e += 1;
    }
    layout.lines = lines;
    assert(layout.lines@ =~= segments(layout.rects@, graph@.edges));
}

/// The nodes whose positions enter the net force on one node.
#[derive(Debug)]
pub struct ForceTerms {
    /// The nodes that push the node away: one repulsive term each.
    pub repulsive: Vec<NodeId>,
    /// The nodes that pull the node closer: one attractive term each, so a
    /// node that several edges lead to is listed once per edge.
    pub attractive: Vec<NodeId>,
}

/// The test that an id is not `node`.
pub open spec fn differs_from(node: NodeId) -> spec_fn(NodeId) -> bool {
    |other: NodeId| other != node
}

/// All ids below `count` but `node`, in ascending order.
pub open spec fn others(count: nat, node: NodeId) -> Seq<NodeId> {
    ids_below(count).filter(differs_from(node))
}

/// Says which terms make up the net force on `node_id`: a repulsive term
/// for every other node of the graph, and an attractive term for the target
/// of every edge that leaves `node_id`. Edges that enter it add nothing.
pub fn force_terms(graph: &Graph, node_id: NodeId) -> (terms: ForceTerms)
    requires
        graph@.has_node(node_id),
    ensures
        terms.repulsive@ == others(graph@.nodes.len(), node_id),
        terms.attractive@ == graph@.neighbors(node_id),
{
    let ids = graph.nodes();
    let ghost all = ids_below(graph@.nodes.len());
    let ghost apart = differs_from(node_id);
    let mut repulsive: Vec<NodeId> = Vec::new();
    let mut other: usize = ids.start;
    while other < ids.end
        invariant
            ids.end == graph@.nodes.len(),
            other <= ids.end,
            all == ids_below(graph@.nodes.len()),
            apart == differs_from(node_id),
            repulsive@ == all.take(other as int).filter(apart),
        decreases ids.end - other,
    {
        proof {
            all.lemma_take_succ_push(other as int);
            all.take(other as int).lemma_filter_push(other, apart);
        }
        if other != node_id {
            repulsive.push(other);
        }
        other += 1;
    }
    assert(all.take(other as int) =~= all);
    let attractive = match graph.node_neighbors(node_id) {
        Some(targets) => targets,
        None => Vec::new(),
    };
    ForceTerms { repulsive, attractive }
}

/// What the layout does next.
#[derive(Debug, Clone, Copy, PartialEq, Eq, Structural)]
pub enum Action {
    /// Run refinement step `step`: take the net force on every node from
    /// the positions as they are, then move every node by its force, cooled
    /// for this step, and report whether the largest force was below the
    /// threshold.
    Refine { step: usize },
    /// Derive the segments from the rectangles as they are, and return.
    Project,
}

/// The first action: step 1 where there is a node to move and the budget
/// allows a step. Steps are numbered from 1 to `max_iterations`.
pub open spec fn opening_action(node_count: nat, max_iterations: nat) -> Action {
    if node_count > 0 && 1 <= max_iterations {
        Action::Refine { step: 1 }
    } else {
        Action::Project
    }
}

/// The action after step `step`, whose largest force was below the
/// threshold if `converged`: the next step while the layout has not settled
/// and the budget is not used up, which it is after step `max_iterations`.
pub open spec fn following_action(step: nat, max_iterations: nat, converged: bool) -> Action {
    if !converged && step < max_iterations {
        Action::Refine { step: (step + 1) as usize }
    } else {
        Action::Project
    }
}

/// The action after the steps that gave `verdicts`, one verdict on
/// convergence per step, in order. Once the layout projects it stays there.
pub open spec fn action_after(node_count: nat, max_iterations: usize, verdicts: Seq<bool>) -> Action
    decreases verdicts.len(),
{
    if verdicts.len() == 0 {
        opening_action(node_count, max_iterations as nat)
    } else {
        match action_after(node_count, max_iterations, verdicts.drop_last()) {
            Action::Refine { step } => following_action(step as nat, max_iterations as nat, verdicts.last()),
            Action::Project => Action::Project,
        }
    }
}

/// Opens the refinement of a graph with `node_count` nodes. A graph without
/// nodes is projected at once.
pub fn first_action(node_count: usize, max_iterations: usize) -> (action: Action)
    ensures
        action == opening_action(node_count as nat, max_iterations as nat),
{
    if node_count > 0 && 1 <= max_iterations {
        Action::Refine { step: 1 }
    } else {
        Action::Project
    }
}

/// Decides what follows step `step`.
pub fn next_action(step: usize, max_iterations: usize, converged: bool) -> (action: Action)
    ensures
        action == following_action(step as nat, max_iterations as nat, converged),
{
    if !converged && step < max_iterations {
        Action::Refine { step: step + 1 }
    } else {
        Action::Project
    }
}

/// Refinement ends within the budget: while the layout still refines, the
/// step it is about to run is one more than the number of steps run, is at
/// most `max_iterations`, and no step so far has converged. So after
/// `max_iterations` steps at the latest the layout projects; and it does
/// run that many where no step converges and there is a node to move.
pub proof fn lemma_refinement_ends(node_count: nat, max_iterations: usize, verdicts: Seq<bool>)
    ensures
        action_after(node_count, max_iterations, verdicts) matches Action::Refine { step } ==> {
            &&& step == verdicts.len() + 1
            &&& step <= max_iterations
            &&& node_count > 0
            &&& forall|i: int| 0 <= i < verdicts.len() ==> !verdicts[i]
        },
        verdicts.len() >= max_iterations ==> action_after(node_count, max_iterations, verdicts)
            == Action::Project,
        node_count > 0 && verdicts.len() < max_iterations && (forall|i: int|
            0 <= i < verdicts.len() ==> !verdicts[i]) ==> action_after(
            node_count,
            max_iterations,
            verdicts,
        ) == (Action::Refine { step: (verdicts.len() + 1) as usize }),
    decreases verdicts.len(),
{
    if verdicts.len() > 0 {
        let earlier = verdicts.drop_last();
        lemma_refinement_ends(node_count, max_iterations, earlier);
        if let Action::Refine { step } = action_after(node_count, max_iterations, verdicts) {
            assert(action_after(node_count, max_iterations, earlier) is Refine);
            assert(!verdicts.last());
            assert forall|i: int| 0 <= i < verdicts.len() implies !verdicts[i] by {
                if i < earlier.len() {
                    assert(earlier[i] == verdicts[i]);
                }
            }
        }
    }
}

/// A node alone in its graph is pushed by nothing and pulled towards
/// nothing but itself. Without edges it has no force term at all, so its
/// net force is the empty sum.
pub proof fn lemma_single_node_terms(graph: GraphView)
    requires
        graph.shaped(),
        graph.endpoints_present(),
        graph.nodes.len() == 1,
    ensures
        others(1, 0) == Seq::<NodeId>::empty(),
        forall|i: int| 0 <= i < graph.neighbors(0).len() ==> graph.neighbors(0)[i] == 0,
        graph.edges.len() == 0 ==> graph.neighbors(0) == Seq::<NodeId>::empty(),
{
    let all = ids_below(1);
    let apart = differs_from(0);
    let none = Seq::<NodeId>::empty();
    assert(all =~= none.push(0));
    none.lemma_filter_push(0, apart);
    none.lemma_filter_len(apart);
    assert(all.filter(apart) =~= none);
    assert forall|i: int| 0 <= i < graph.neighbors(0).len() implies graph.neighbors(0)[i] == 0 by {
        assert(graph.has_edge(graph.outgoing[0][i]));
        assert(graph.has_node(graph.edges[graph.outgoing[0][i] as int].to));
    }
    if graph.edges.len() == 0 {
        lemma_no_edges_no_attraction(graph, 0);
    }
}

/// In a graph without edges no node is pulled anywhere: every net force is
/// made of repulsive terms alone.
pub proof fn lemma_no_edges_no_attraction(graph: GraphView, node: NodeId)
    requires
        graph.shaped(),
        graph.has_node(node),
        graph.edges.len() == 0,
    ensures
        graph.neighbors(node) == Seq::<NodeId>::empty(),
{
    let list = graph.outgoing[node as int];
    if list.len() > 0 {
        assert(graph.has_edge(graph.outgoing[node as int][0]));
    }
    assert(graph.neighbors(node) =~= Seq::<NodeId>::empty());
}

} // verus!
