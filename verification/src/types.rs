//! The graph store: nodes and edges held in arenas and named by integer
//! handles, with forward and reverse adjacency lists.

use std::ops::Range;
use std::path::PathBuf;
use vstd::prelude::*;

verus! {

/// `std::path::PathBuf`, carried through the store as an opaque value.
#[verifier::external_type_specification]
#[verifier::external_body]
pub struct ExPathBuf(PathBuf);

/// `From<T> for T` of the standard library: converting a value into its
/// own type hands the value back unchanged. With this, a lookup by a plain
/// id is known to look up that id.
pub assume_specification<T>[ <T as core::convert::From<T>>::from ](t: T) -> (same: T)
    ensures
        same == t,
;

/// Handle of a node: its position in the order of insertion.
pub type NodeId = usize;

/// Handle of an edge: its position in the order of insertion.
pub type EdgeId = usize;

/// How the source of an edge relates to its target.
#[derive(Debug, Clone, Copy, PartialEq, Eq, Structural)]
pub enum Relation {
    /// The source is the parent of the target.
    IsParentOf,
}

/// A directed edge.
#[derive(Debug)]
pub struct EdgeData {
    pub from: NodeId,
    pub to: NodeId,
    pub relation: Relation,
}

/// What a node stands for.
#[derive(Debug)]
pub enum NodeContents {
    Folder { display_name: String, path: PathBuf },
    File { display_name: String, path: PathBuf },
    Item { display_name: String, moniker: Option<String> },
}

/// The payload of a node.
#[derive(Debug)]
pub struct NodeData {
    pub contents: NodeContents,
}

/// The ids below `count`, in ascending order: the ids that a store with
/// `count` nodes or edges has handed out.
pub open spec fn ids_below(count: nat) -> Seq<usize> {
    Seq::new(count, |i: int| i as usize)
}

/// One of the two adjacency indices: the forward index lists, for each
/// node, the edges that leave it; the reverse index those that enter it.
#[derive(Debug, Clone, Copy, PartialEq, Eq, Structural)]
pub enum Direction {
    Outgoing,
    Incoming,
}

impl EdgeData {
    /// The endpoint by which the index of `direction` files this edge: the
    /// source for the forward index, the target for the reverse one.
    pub open spec fn spec_end(&self, direction: Direction) -> NodeId {
        match direction {
            Direction::Outgoing => self.from,
            Direction::Incoming => self.to,
        }
    }

    #[verifier::when_used_as_spec(spec_end)]
    pub fn end(&self, direction: Direction) -> (node: NodeId)
        ensures
            node == self.spec_end(direction),
    {
        match direction {
            Direction::Outgoing => self.from,
            Direction::Incoming => self.to,
        }
    }
}

/// The four tables of a graph store as mathematical sequences. Nodes and
/// edges are indexed by their ids; `outgoing[n]` and `incoming[n]` are the
/// adjacency lists of node `n`.
pub struct GraphView {
    pub nodes: Seq<NodeData>,
    pub edges: Seq<EdgeData>,
    pub outgoing: Seq<Seq<EdgeId>>,
    pub incoming: Seq<Seq<EdgeId>>,
}

impl GraphView {
    /// The store that holds nothing.
    pub open spec fn empty() -> GraphView {
        GraphView {
            nodes: Seq::empty(),
            edges: Seq::empty(),
            outgoing: Seq::empty(),
            incoming: Seq::empty(),
        }
    }

    /// `id` is the id of a node: it was handed out when a node was added.
    pub open spec fn has_node(self, id: NodeId) -> bool {
        id < self.nodes.len()
    }

    /// `id` is the id of an edge: it was handed out when an edge was added.
    pub open spec fn has_edge(self, id: EdgeId) -> bool {
        id < self.edges.len()
    }

    /// The adjacency lists of one index.
    pub open spec fn lists(self, direction: Direction) -> Seq<Seq<EdgeId>> {
        match direction {
            Direction::Outgoing => self.outgoing,
            Direction::Incoming => self.incoming,
        }
    }

    /// What holds of every store, whatever was written into its edge
    /// records: each index has one list per node, and the lists hold ids of
    /// edges.
    pub open spec fn shaped(self) -> bool {
        &&& self.outgoing.len() == self.nodes.len()
        &&& self.incoming.len() == self.nodes.len()
        &&& forall|n: int, i: int|
            0 <= n < self.outgoing.len() && 0 <= i < self.outgoing[n].len() ==> self.has_edge(
                #[trigger] self.outgoing[n][i],
            )
        &&& forall|n: int, i: int|
            0 <= n < self.incoming.len() && 0 <= i < self.incoming[n].len() ==> self.has_edge(
                #[trigger] self.incoming[n][i],
            )
    }

    /// Referential integrity: both endpoints of every edge are nodes of
    /// this store.
    pub open spec fn endpoints_present(self) -> bool {
        forall|e: int|
            0 <= e < self.edges.len() ==> self.has_node((#[trigger] self.edges[e]).from)
                && self.has_node(self.edges[e].to)
    }

    /// The list of node `n` in an index holds ids of edges whose endpoint
    /// on the side of that index is `n`, none of them twice.
    pub open spec fn list_consistent(self, direction: Direction, n: int) -> bool {
        let list = self.lists(direction)[n];
        &&& forall|i: int|
            0 <= i < list.len() ==> self.has_edge(#[trigger] list[i])
                && self.edges[list[i] as int].end(direction) == n
        &&& list.no_duplicates()
    }

    /// Edge `e` stands in the list of its endpoint on the side of an
    /// index, where that endpoint is a node.
    pub open spec fn edge_listed(self, direction: Direction, e: int) -> bool {
        self.has_node(self.edges[e].end(direction)) ==> self.lists(
            direction,
        )[self.edges[e].end(direction) as int].contains(e as EdgeId)
    }

    /// An index agrees with the edge table: it has one list per node, each
    /// list holds what leaves (or enters) its node and nothing twice, and
    /// every edge is in the list of its source (or target). So each edge id
    /// stands exactly once in the outgoing list of its source and exactly
    /// once in the incoming list of its target.
    pub open spec fn index_consistent(self, direction: Direction) -> bool {
        &&& self.lists(direction).len() == self.nodes.len()
        &&& forall|n: int|
            0 <= n < self.lists(direction).len() ==> #[trigger] self.list_consistent(direction, n)
        &&& forall|e: int| 0 <= e < self.edges.len() ==> #[trigger] self.edge_listed(direction, e)
    }

    /// The invariant of a store: referential integrity, and both adjacency
    /// indices consistent with the edge table.
    pub open spec fn wf(self) -> bool {
        &&& self.endpoints_present()
        &&& self.index_consistent(Direction::Outgoing)
        &&& self.index_consistent(Direction::Incoming)
    }

    /// `self` holds every node and edge of `before` under the same id.
    pub open spec fn extends(self, before: GraphView) -> bool {
        &&& before.nodes.len() <= self.nodes.len()
        &&& before.edges.len() <= self.edges.len()
        &&& self.nodes.take(before.nodes.len() as int) == before.nodes
        &&& self.edges.take(before.edges.len() as int) == before.edges
    }

    /// The store after one more node.
    pub open spec fn with_node(self, node: NodeData) -> GraphView {
        GraphView {
            nodes: self.nodes.push(node),
            edges: self.edges,
            outgoing: self.outgoing.push(Seq::empty()),
            incoming: self.incoming.push(Seq::empty()),
        }
    }

    /// The store after one more edge, whose id goes to the end of the
    /// outgoing list of its source and of the incoming list of its target.
    pub open spec fn with_edge(self, edge: EdgeData) -> GraphView {
        let id = self.edges.len() as EdgeId;
        GraphView {
            nodes: self.nodes,
            edges: self.edges.push(edge),
            outgoing: self.outgoing.update(
                edge.from as int,
                self.outgoing[edge.from as int].push(id),
            ),
            incoming: self.incoming.update(edge.to as int, self.incoming[edge.to as int].push(id)),
        }
    }

    /// The store with the payload of node `id` replaced.
    pub open spec fn replace_node(self, id: NodeId, node: NodeData) -> GraphView {
        GraphView { nodes: self.nodes.update(id as int, node), ..self }
    }

    /// The store with the record of edge `id` replaced; the adjacency
    /// lists are left as they are.
    pub open spec fn replace_edge(self, id: EdgeId, edge: EdgeData) -> GraphView {
        GraphView { edges: self.edges.update(id as int, edge), ..self }
    }

    /// `found` is what a lookup of node `id` yields.
    pub open spec fn is_node_at(self, id: NodeId, found: Option<&NodeData>) -> bool {
        match found {
            Some(node) => self.has_node(id) && *node == self.nodes[id as int],
            None => !self.has_node(id),
        }
    }

    /// `found` is what a lookup of edge `id` yields.
    pub open spec fn is_edge_at(self, id: EdgeId, found: Option<&EdgeData>) -> bool {
        match found {
            Some(edge) => self.has_edge(id) && *edge == self.edges[id as int],
            None => !self.has_edge(id),
        }
    }

    /// `found` is the adjacency list of node `id` in the index of
    /// `direction`, or nothing where no node has that id.
    pub open spec fn is_list_at(
        self,
        direction: Direction,
        id: NodeId,
        found: Option<&[EdgeId]>,
    ) -> bool {
        match found {
            Some(list) => self.has_node(id) && list@ == self.lists(direction)[id as int],
            None => !self.has_node(id),
        }
    }

    /// The function from an edge id to the target of that edge.
    pub open spec fn target_of(self) -> spec_fn(EdgeId) -> NodeId {
        |e: EdgeId| self.edges[e as int].to
    }

    /// The test that the edge with a given id is an `IsParentOf` edge.
    pub open spec fn is_parental(self) -> spec_fn(EdgeId) -> bool {
        |e: EdgeId| self.edges[e as int].relation == Relation::IsParentOf
    }

    /// The targets of the edges that leave `id`, in list order.
    pub open spec fn neighbors(self, id: NodeId) -> Seq<NodeId> {
        self.outgoing[id as int].map_values(self.target_of())
    }

    /// The targets of the edges that leave `id` and say that `id` is the
    /// parent, in list order.
    pub open spec fn children(self, id: NodeId) -> Seq<NodeId> {
        self.outgoing[id as int].filter(self.is_parental()).map_values(self.target_of())
    }
}

/// The graph store. It owns its nodes and edges and hands out their ids,
/// which count up from zero and are never reused.
#[derive(Debug)]
pub struct Graph {
    /// All nodes, each at the index that is its id.
    nodes: Vec<NodeData>,
    /// All edges, each at the index that is its id.
    edges: Vec<EdgeData>,
    /// For each node, the edges that have it as their source.
    nodes_to_outgoing_edges: Vec<Vec<EdgeId>>,
    /// For each node, the edges that have it as their target.
    nodes_to_incoming_edges: Vec<Vec<EdgeId>>,
}

impl View for Graph {
    type V = GraphView;

    closed spec fn view(&self) -> GraphView {
        tables(
            self.nodes@,
            self.edges@,
            self.nodes_to_outgoing_edges@,
            self.nodes_to_incoming_edges@,
        )
    }
}

/// The view of a store with the given fields.
spec fn tables(
    nodes: Seq<NodeData>,
    edges: Seq<EdgeData>,
    outgoing: Seq<Vec<EdgeId>>,
    incoming: Seq<Vec<EdgeId>>,
) -> GraphView {
    GraphView {
        nodes,
        edges,
        outgoing: outgoing.map_values(|l: Vec<EdgeId>| l@),
        incoming: incoming.map_values(|l: Vec<EdgeId>| l@),
    }
}

impl Default for Graph {
    fn default() -> (graph: Graph)
        ensures
            graph@ == GraphView::empty(),
            graph.wf(),
    {
        let graph = Graph {
            nodes: Vec::new(),
            edges: Vec::new(),
            nodes_to_outgoing_edges: Vec::new(),
            nodes_to_incoming_edges: Vec::new(),
        };
        assert(graph@.outgoing =~= Seq::empty());
        assert(graph@.incoming =~= Seq::empty());
        graph
    }
}

impl Graph {
    /// Every store is shaped, whoever made it and whatever was written
    /// through the references it handed out.
    #[verifier::type_invariant]
    pub open spec fn shaped(&self) -> bool {
        self@.shaped()
    }

    /// The invariant of the store, stated on its view.
    pub open spec fn wf(&self) -> bool {
        self@.wf()
    }

    /// Stores `node` and returns its id, the number of nodes stored before.
    pub fn add_node(&mut self, node: NodeData) -> (id: NodeId)
        ensures
            id == old(self)@.nodes.len(),
            final(self)@ == old(self)@.with_node(node),
            old(self).wf() ==> final(self).wf(),
    {
        proof {
            use_type_invariant(&*self);
        }
        // The tables are taken out together and put back together, so that
        // the store is at no time seen with one of them ahead of the others.
        let mut taken = Graph::default();
        core::mem::swap(self, &mut taken);
        let Graph { mut nodes, edges, mut nodes_to_outgoing_edges, mut nodes_to_incoming_edges } =
            taken;
        let id = nodes.len();
        nodes.push(node);
        nodes_to_outgoing_edges.push(Vec::new());
        nodes_to_incoming_edges.push(Vec::new());
        proof {
            let before = old(self)@;
            let after = tables(nodes@, edges@, nodes_to_outgoing_edges@, nodes_to_incoming_edges@);
            assert(after.outgoing =~= before.outgoing.push(Seq::empty()));
            assert(after.incoming =~= before.incoming.push(Seq::empty()));
            assert(after == before.with_node(node));
            lemma_with_node_shaped(before, node);
            if before.wf() {
                lemma_with_node_wf(before, node);
            }
        }
        *self = Graph { nodes, edges, nodes_to_outgoing_edges, nodes_to_incoming_edges };
        id
    }

    /// Stores `edge` and returns its id, the number of edges stored before.
    /// The id is appended to the outgoing list of `edge.from` and to the
    /// incoming list of `edge.to`.
    pub fn add_edge(&mut self, edge: EdgeData) -> (id: EdgeId)
        requires
            old(self)@.has_node(edge.from),
            old(self)@.has_node(edge.to),
        ensures
            id == old(self)@.edges.len(),
            final(self)@ == old(self)@.with_edge(edge),
            old(self).wf() ==> final(self).wf(),
    {
        proof {
            use_type_invariant(&*self);
        }
        // As in `add_node`: out together, back together.
        let mut taken = Graph::default();
        core::mem::swap(self, &mut taken);
        let Graph { nodes, mut edges, mut nodes_to_outgoing_edges, mut nodes_to_incoming_edges } =
            taken;
        let id = edges.len();
        let from = edge.from;
        let to = edge.to;
        edges.push(edge);
        nodes_to_outgoing_edges[from].push(id);
        nodes_to_incoming_edges[to].push(id);
        proof {
            let before = old(self)@;
            let after = tables(nodes@, edges@, nodes_to_outgoing_edges@, nodes_to_incoming_edges@);
            assert(edges.len() == before.edges.len() + 1);
            assert(after.outgoing =~= before.with_edge(edge).outgoing);
            assert(after.incoming =~= before.with_edge(edge).incoming);
            assert(after == before.with_edge(edge));
            lemma_with_edge_shaped(before, edge);
            if before.wf() {
                lemma_with_edge_wf(before, edge);
            }
        }
        *self = Graph { nodes, edges, nodes_to_outgoing_edges, nodes_to_incoming_edges };
        id
    }

    /// Looks a node up by anything that converts into an id. An id that
    /// was never handed out yields `None`.
    pub fn node<N: Into<NodeId>>(&self, id: N) -> (found: Option<&NodeData>)
        ensures
            exists|key: NodeId| #[trigger]
                call_ensures(<N as Into<NodeId>>::into, (id,), key) && self@.is_node_at(
                    key,
                    found,
                ),
    {
        let key: NodeId = id.into();
        let found = self.node_data(key);
        assert(call_ensures(<N as Into<NodeId>>::into, (id,), key) && self@.is_node_at(
            key,
            found,
        ));
        found
    }

    /// Looks a node up for change by anything that converts into an id.
    /// Whatever the caller writes replaces the payload.
    pub fn node_mut<N: Into<NodeId>>(&mut self, id: N) -> (found: Option<&mut NodeData>)
        ensures
            found is None ==> final(self)@ == old(self)@,
            exists|key: NodeId| #[trigger]
                call_ensures(<N as Into<NodeId>>::into, (id,), key) && (found is Some <==> old(
                    self,
                )@.has_node(key)) && (found is Some ==> *found.unwrap() == old(
                    self,
                )@.nodes[key as int] && final(self)@ == old(self)@.replace_node(
                    key,
                    *final(found.unwrap()),
                )),
    {
        let key: NodeId = id.into();
        self.node_data_mut(key)
    }

    /// Looks an edge up by anything that converts into an id. An id that
    /// was never handed out yields `None`.
    pub fn edge<E: Into<EdgeId>>(&self, id: E) -> (found: Option<&EdgeData>)
        ensures
            exists|key: EdgeId| #[trigger]
                call_ensures(<E as Into<EdgeId>>::into, (id,), key) && self@.is_edge_at(
                    key,
                    found,
                ),
    {
        let key: EdgeId = id.into();
        let found = self.edge_data(key);
        assert(call_ensures(<E as Into<EdgeId>>::into, (id,), key) && self@.is_edge_at(
            key,
            found,
        ));
        found
    }

    /// Looks an edge up for change by anything that converts into an id.
    /// Whatever the caller writes replaces the record; the adjacency lists
    /// are not touched, so the invariant survives only a change that keeps
    /// both endpoints.
    pub fn edge_mut<E: Into<EdgeId>>(&mut self, id: E) -> (found: Option<&mut EdgeData>)
        ensures
            found is None ==> final(self)@ == old(self)@,
            exists|key: EdgeId| #[trigger]
                call_ensures(<E as Into<EdgeId>>::into, (id,), key) && (found is Some <==> old(
                    self,
                )@.has_edge(key)) && (found is Some ==> *found.unwrap() == old(
                    self,
                )@.edges[key as int] && final(self)@ == old(self)@.replace_edge(
                    key,
                    *final(found.unwrap()),
                )),
    {
        let key: EdgeId = id.into();
        self.edge_data_mut(key)
    }

    /// The ids of the edges that leave node `id`, in the order in which
    /// they were added, or `None` where no node has that id.
    pub fn node_outgoing_edges(&self, id: NodeId) -> (found: Option<&[EdgeId]>)
        ensures
            self@.is_list_at(Direction::Outgoing, id, found),
    {
        proof {
            use_type_invariant(self);
        }
        if id < self.nodes_to_outgoing_edges.len() {
            Some(self.nodes_to_outgoing_edges[id].as_slice())
        } else {
            None
        }
    }

    /// The ids of the edges that enter node `id`, in the order in which
    /// they were added, or `None` where no node has that id.
    pub fn node_incoming_edges(&self, id: NodeId) -> (found: Option<&[EdgeId]>)
        ensures
            self@.is_list_at(Direction::Incoming, id, found),
    {
        proof {
            use_type_invariant(self);
        }
        if id < self.nodes_to_incoming_edges.len() {
            Some(self.nodes_to_incoming_edges[id].as_slice())
        } else {
            None
        }
    }

    /// The nodes that the outgoing edges of `id` lead to, one per edge and
    /// in the order of the edges, or `None` where no node has that id.
    pub fn node_neighbors(&self, id: NodeId) -> (found: Option<Vec<NodeId>>)
        ensures
            found is Some <==> self@.has_node(id),
            found is Some ==> found.unwrap()@ == self@.neighbors(id),
    {
        proof {
            use_type_invariant(self);
        }
        if id >= self.nodes_to_outgoing_edges.len() {
            return None;
        }
        let list = &self.nodes_to_outgoing_edges[id];
        let ghost target = self@.target_of();
        let mut targets: Vec<NodeId> = Vec::new();
        let mut i: usize = 0;
        while i < list.len()
            invariant
                self@.shaped(),
                id < self@.outgoing.len(),
                list@ == self@.outgoing[id as int],
                target == self@.target_of(),
                i <= list.len(),
                targets@ == list@.take(i as int).map_values(target),
            decreases list.len() - i,
        {
            let edge_id = list[i];
            assert(self@.has_edge(self@.outgoing[id as int][i as int]));
            proof {
                list@.lemma_take_succ_push(i as int);
                list@.take(i as int).lemma_push_map_commute(target, edge_id);
            }
            targets.push(self.edges[edge_id].to);
            i += 1;
        }
        assert(list@.take(i as int) =~= list@);
        Some(targets)
    }

    /// The children of `id`: the nodes that its outgoing `IsParentOf` edges
    /// lead to, in the order of the edges, or `None` where no node has that
    /// id.
    pub fn node_children(&self, id: NodeId) -> (found: Option<Vec<NodeId>>)
        ensures
            found is Some <==> self@.has_node(id),
            found is Some ==> found.unwrap()@ == self@.children(id),
    {
        proof {
            use_type_invariant(self);
        }
        if id >= self.nodes_to_outgoing_edges.len() {
            return None;
        }
        let list = &self.nodes_to_outgoing_edges[id];
        let ghost parental = self@.is_parental();
        let ghost target = self@.target_of();
        let mut targets: Vec<NodeId> = Vec::new();
        let mut i: usize = 0;
        while i < list.len()
            invariant
                self@.shaped(),
                id < self@.outgoing.len(),
                list@ == self@.outgoing[id as int],
                parental == self@.is_parental(),
                target == self@.target_of(),
                i <= list.len(),
                targets@ == list@.take(i as int).filter(parental).map_values(target),
            decreases list.len() - i,
        {
            let edge_id = list[i];
            assert(self@.has_edge(self@.outgoing[id as int][i as int]));
            proof {
                list@.lemma_take_succ_push(i as int);
                list@.take(i as int).lemma_filter_push(edge_id, parental);
                list@.take(i as int).filter(parental).lemma_push_map_commute(target, edge_id);
            }
            if self.edges[edge_id].relation == Relation::IsParentOf {
                targets.push(self.edges[edge_id].to);
            }
            i += 1;
        }
        assert(list@.take(i as int) =~= list@);
        Some(targets)
    }

    /// The payload of node `id`, or `None` where no node has that id.
    pub fn node_data(&self, id: NodeId) -> (found: Option<&NodeData>)
        ensures
            self@.is_node_at(id, found),
    {
        if id < self.nodes.len() {
            Some(&self.nodes[id])
        } else {
            None
        }
    }

    /// The payload of node `id` for change, or `None` where no node has
    /// that id. Whatever the caller writes replaces the payload; the rest of
    /// the store stays as it was.
    pub fn node_data_mut(&mut self, id: NodeId) -> (found: Option<&mut NodeData>)
        ensures
            found is Some <==> old(self)@.has_node(id),
            found is None ==> final(self)@ == old(self)@,
            found is Some ==> *found.unwrap() == old(self)@.nodes[id as int] && final(self)@
                == old(self)@.replace_node(id, *final(found.unwrap())),
    {
        proof {
            use_type_invariant(&*self);
        }
        if id < self.nodes.len() {
            Some(&mut self.nodes[id])
        } else {
            None
        }
    }

    /// The record of edge `id`, or `None` where no edge has that id.
    pub fn edge_data(&self, id: EdgeId) -> (found: Option<&EdgeData>)
        ensures
            self@.is_edge_at(id, found),
    {
        if id < self.edges.len() {
            Some(&self.edges[id])
        } else {
            None
        }
    }

    /// The record of edge `id` for change, or `None` where no edge has that
    /// id. Whatever the caller writes replaces the record; the adjacency
    /// lists are not touched, so the invariant survives only a change that
    /// keeps both endpoints.
    pub fn edge_data_mut(&mut self, id: EdgeId) -> (found: Option<&mut EdgeData>)
        ensures
            found is Some <==> old(self)@.has_edge(id),
            found is None ==> final(self)@ == old(self)@,
            found is Some ==> *found.unwrap() == old(self)@.edges[id as int] && final(self)@
                == old(self)@.replace_edge(id, *final(found.unwrap())),
    {
        proof {
            use_type_invariant(&*self);
        }
        if id < self.edges.len() {
            Some(&mut self.edges[id])
        } else {
            None
        }
    }

    /// Checks the invariant: that the endpoints of every edge are nodes and
    /// that both adjacency indices agree with the edge table. A store that
    /// was filled by `add_node` and `add_edge` alone passes; one whose edge
    /// records were rewritten may not.
    pub fn is_well_formed(&self) -> (ok: bool)
        ensures
            ok == self.wf(),
    {
        self.endpoints_are_nodes() && self.index_agrees(Direction::Outgoing) && self.index_agrees(
            Direction::Incoming,
        )
    }

    /// Checks referential integrity: that both endpoints of every edge
    /// are nodes.
    pub fn endpoints_are_nodes(&self) -> (ok: bool)
        ensures
            ok == self@.endpoints_present(),
    {
        let mut e: usize = 0;
        while e < self.edges.len()
            invariant
                e <= self.edges.len(),
                forall|k: int|
                    0 <= k < e ==> self@.has_node((#[trigger] self@.edges[k]).from)
                        && self@.has_node(self@.edges[k].to),
            decreases self.edges.len() - e,
        {
            if self.edges[e].from >= self.nodes.len() || self.edges[e].to >= self.nodes.len() {
                assert(!(self@.has_node(self@.edges[e as int].from) && self@.has_node(
                    self@.edges[e as int].to,
                )));
                return false;
            }
            e += 1;
        }
        true
    }

    /// The adjacency lists of one index.
    fn lists_of(&self, direction: Direction) -> (lists: &Vec<Vec<EdgeId>>)
        ensures
            lists@.map_values(|l: Vec<EdgeId>| l@) == self@.lists(direction),
    {
        match direction {
            Direction::Outgoing => &self.nodes_to_outgoing_edges,
            Direction::Incoming => &self.nodes_to_incoming_edges,
        }
    }

    /// Whether one index agrees with the edge table.
    fn index_agrees(&self, direction: Direction) -> (ok: bool)
        ensures
            ok == self@.index_consistent(direction),
    {
        proof {
            use_type_invariant(self);
        }
        let lists = self.lists_of(direction);
        let mut n: usize = 0;
        while n < lists.len()
            invariant
                self@.shaped(),
                lists@.map_values(|l: Vec<EdgeId>| l@) == self@.lists(direction),
                n <= lists.len(),
                forall|m: int| 0 <= m < n ==> self@.list_consistent(direction, m),
            decreases lists.len() - n,
        {
            if !self.list_agrees(direction, n) {
                return false;
            }
            n += 1;
        }
        let mut e: usize = 0;
        while e < self.edges.len()
            invariant
                self@.shaped(),
                e <= self.edges.len(),
                forall|m: int|
                    0 <= m < self@.lists(direction).len() ==> self@.list_consistent(direction, m),
                forall|k: int| 0 <= k < e ==> self@.edge_listed(direction, k),
            decreases self.edges.len() - e,
        {
            if !self.is_listed(direction, e) {
                return false;
            }
            e += 1;
        }
        true
    }

    /// Whether the list of node `n` in one index holds edges filed under
    /// `n` and none of them twice.
    fn list_agrees(&self, direction: Direction, n: NodeId) -> (ok: bool)
        requires
            n < self@.lists(direction).len(),
        ensures
            ok == self@.list_consistent(direction, n as int),
    {
        proof {
            use_type_invariant(self);
        }
        let lists = self.lists_of(direction);
        let list = &lists[n];
        let ghost seen = self@.lists(direction)[n as int];
        assert(seen == list@);
        let mut i: usize = 0;
        while i < list.len()
            invariant
                self@.shaped(),
                n < self@.lists(direction).len(),
                seen == self@.lists(direction)[n as int],
                seen == list@,
                i <= list.len(),
                forall|k: int|
                    0 <= k < i ==> self@.has_edge(#[trigger] seen[k])
                        && self@.edges[seen[k] as int].end(direction) == n,
                forall|k: int, l: int| 0 <= k < l < i ==> seen[k] != seen[l],
            decreases list.len() - i,
        {
            let id = list[i];
            assert(self@.has_edge(seen[i as int])) by {
                match direction {
                    Direction::Outgoing => {
                        assert(self@.has_edge(self@.outgoing[n as int][i as int]));
                    },
                    Direction::Incoming => {
                        assert(self@.has_edge(self@.incoming[n as int][i as int]));
                    },
                }
            }
            if self.edges[id].end(direction) != n {
                assert(!(self@.has_edge(seen[i as int]) && self@.edges[seen[i as int] as int].end(
                    direction,
                ) == n));
                return false;
            }
            let mut j: usize = 0;
            while j < i
                invariant
                    seen == self@.lists(direction)[n as int],
                    seen == list@,
                    i < list.len(),
                    id == seen[i as int],
                    j <= i,
                    forall|k: int| 0 <= k < j ==> seen[k] != id,
                decreases i - j,
            {
                if list[j] == id {
                    assert(seen[j as int] == seen[i as int]);
                    return false;
                }
                j += 1;
            }
            i += 1;
        }
        true
    }

    /// Whether edge `e` stands in the list of the node that one index
    /// files it under, if that node exists.
    fn is_listed(&self, direction: Direction, e: EdgeId) -> (ok: bool)
        requires
            e < self@.edges.len(),
        ensures
            ok == self@.edge_listed(direction, e as int),
    {
        proof {
            use_type_invariant(self);
        }
        let at = self.edges[e].end(direction);
        if at >= self.nodes.len() {
            return true;
        }
        let lists = self.lists_of(direction);
        let list = &lists[at];
        let ghost seen = self@.lists(direction)[at as int];
        assert(seen == list@);
        let mut i: usize = 0;
        while i < list.len()
            invariant
                e < self@.edges.len(),
                at == self@.edges[e as int].end(direction),
                self@.has_node(at),
                seen == self@.lists(direction)[at as int],
                seen == list@,
                i <= list.len(),
                forall|k: int| 0 <= k < i ==> seen[k] != e,
            decreases list.len() - i,
        {
            if list[i] == e {
                assert(seen[i as int] == e);
                return true;
            }
            i += 1;
        }
        false
    }

    /// The ids of all nodes: every number below the count of nodes, in
    /// ascending order.
    pub fn nodes(&self) -> (ids: Range<NodeId>)
        ensures
            ids.start == 0,
            ids.end == self@.nodes.len(),
    {
        0..self.nodes.len()
    }

    /// The ids of all edges: every number below the count of edges, in
    /// ascending order.
    pub fn edges(&self) -> (ids: Range<EdgeId>)
        ensures
            ids.start == 0,
            ids.end == self@.edges.len(),
    {
        0..self.edges.len()
    }
}

/// What the invariant says of each list: the outgoing list of a node
/// holds exactly the edges that leave it, and its incoming list exactly the
/// edges that enter it.
pub proof fn lemma_listed_iff(g: GraphView, direction: Direction, n: NodeId, e: EdgeId)
    requires
        g.wf(),
        g.has_node(n),
    ensures
        g.lists(direction)[n as int].contains(e) <==> g.has_edge(e) && g.edges[e as int].end(
            direction,
        ) == n,
{
    let list = g.lists(direction)[n as int];
    assert(g.index_consistent(direction));
    assert(g.list_consistent(direction, n as int));
    if list.contains(e) {
        let i = choose|i: int| 0 <= i < list.len() && list[i] == e;
        assert(g.has_edge(list[i]));
    }
    if g.has_edge(e) && g.edges[e as int].end(direction) == n {
        assert(g.edge_listed(direction, e as int));
    }
}

/// A store with one node more is shaped.
pub proof fn lemma_with_node_shaped(g: GraphView, node: NodeData)
    requires
        g.shaped(),
    ensures
        g.with_node(node).shaped(),
{
    let h = g.with_node(node);
    assert forall|n: int, i: int|
        0 <= n < h.outgoing.len() && 0 <= i < h.outgoing[n].len() implies h.has_edge(
        #[trigger] h.outgoing[n][i],
    ) by {
        assert(g.has_edge(g.outgoing[n][i]));
    }
    assert forall|n: int, i: int|
        0 <= n < h.incoming.len() && 0 <= i < h.incoming[n].len() implies h.has_edge(
        #[trigger] h.incoming[n][i],
    ) by {
        assert(g.has_edge(g.incoming[n][i]));
    }
}

/// A store with one edge more is shaped.
pub proof fn lemma_with_edge_shaped(g: GraphView, edge: EdgeData)
    requires
        g.shaped(),
        g.has_node(edge.from),
        g.has_node(edge.to),
        g.edges.len() < usize::MAX,
    ensures
        g.with_edge(edge).shaped(),
{
    let h = g.with_edge(edge);
    assert forall|n: int, i: int|
        0 <= n < h.outgoing.len() && 0 <= i < h.outgoing[n].len() implies h.has_edge(
        #[trigger] h.outgoing[n][i],
    ) by {
        if n == edge.from && i == g.outgoing[n].len() {
        } else {
            assert(g.has_edge(g.outgoing[n][i]));
        }
    }
    assert forall|n: int, i: int|
        0 <= n < h.incoming.len() && 0 <= i < h.incoming[n].len() implies h.has_edge(
        #[trigger] h.incoming[n][i],
    ) by {
        if n == edge.to && i == g.incoming[n].len() {
        } else {
            assert(g.has_edge(g.incoming[n][i]));
        }
    }
}

/// Adding a node keeps the invariant.
pub proof fn lemma_with_node_wf(g: GraphView, node: NodeData)
    requires
        g.wf(),
    ensures
        g.with_node(node).wf(),
{
    let h = g.with_node(node);
    assert forall|e: int| 0 <= e < h.edges.len() implies h.has_node(
        (#[trigger] h.edges[e]).from,
    ) && h.has_node(h.edges[e].to) by {
        assert(g.has_node(g.edges[e].from));
    }
    lemma_with_node_index(g, node, Direction::Outgoing);
    lemma_with_node_index(g, node, Direction::Incoming);
}

/// Adding a node keeps an index consistent.
proof fn lemma_with_node_index(g: GraphView, node: NodeData, direction: Direction)
    requires
        g.endpoints_present(),
        g.index_consistent(direction),
    ensures
        g.with_node(node).index_consistent(direction),
{
    let h = g.with_node(node);
    let before = g.lists(direction);
    let after = h.lists(direction);
    assert(after == before.push(Seq::empty()));
    assert forall|n: int| 0 <= n < after.len() implies #[trigger] h.list_consistent(
        direction,
        n,
    ) by {
        if n < before.len() {
            assert(g.list_consistent(direction, n));
        }
    }
    assert forall|e: int| 0 <= e < h.edges.len() implies #[trigger] h.edge_listed(direction, e) by {
        assert(g.edge_listed(direction, e));
        assert(g.has_node(g.edges[e].from) && g.has_node(g.edges[e].to));
    }
}

/// Adding an edge between two nodes of the store keeps the invariant.
pub proof fn lemma_with_edge_wf(g: GraphView, edge: EdgeData)
    requires
        g.wf(),
        g.has_node(edge.from),
        g.has_node(edge.to),
        g.edges.len() < usize::MAX,
    ensures
        g.with_edge(edge).wf(),
{
    let h = g.with_edge(edge);
    assert forall|e: int| 0 <= e < h.edges.len() implies h.has_node(
        (#[trigger] h.edges[e]).from,
    ) && h.has_node(h.edges[e].to) by {
        if e < g.edges.len() {
            assert(g.has_node(g.edges[e].from));
        }
    }
    lemma_with_edge_index(g, edge, Direction::Outgoing);
    lemma_with_edge_index(g, edge, Direction::Incoming);
}

/// Adding an edge between two nodes of the store keeps an index
/// consistent.
proof fn lemma_with_edge_index(g: GraphView, edge: EdgeData, direction: Direction)
    requires
        g.index_consistent(direction),
        g.has_node(edge.from),
        g.has_node(edge.to),
        g.edges.len() < usize::MAX,
    ensures
        g.with_edge(edge).index_consistent(direction),
{
    let h = g.with_edge(edge);
    let id = g.edges.len() as EdgeId;
    let at = edge.end(direction) as int;
    let before = g.lists(direction);
    let after = h.lists(direction);
    assert(after == before.update(at, before[at].push(id)));
    assert forall|n: int| 0 <= n < after.len() implies #[trigger] h.list_consistent(
        direction,
        n,
    ) by {
        assert(g.list_consistent(direction, n));
        if n == at {
            assert forall|i: int, j: int|
                0 <= i < after[n].len() && 0 <= j < after[n].len() && i != j implies after[n][i]
                != after[n][j] by {
                if i < before[n].len() {
                    assert(g.has_edge(before[n][i]));
                }
                if j < before[n].len() {
                    assert(g.has_edge(before[n][j]));
                }
            }
        }
    }
    assert forall|e: int| 0 <= e < h.edges.len() implies #[trigger] h.edge_listed(direction, e) by {
        if e < g.edges.len() {
            assert(g.edge_listed(direction, e));
            if g.has_node(g.edges[e].end(direction)) {
                let list = before[g.edges[e].end(direction) as int];
                let k = choose|k: int| 0 <= k < list.len() && list[k] == e as EdgeId;
                assert(after[h.edges[e].end(direction) as int][k] == e as EdgeId);
            }
        } else {
            assert(after[at][after[at].len() - 1] == id);
        }
    }
}

/// Replacing the payload of a node keeps the invariant.
pub proof fn lemma_replace_node_wf(g: GraphView, id: NodeId, node: NodeData)
    requires
        g.wf(),
        g.has_node(id),
    ensures
        g.replace_node(id, node).wf(),
{
    let h = g.replace_node(id, node);
    assert(h.nodes.len() == g.nodes.len());
    assert forall|e: int| 0 <= e < h.edges.len() implies h.has_node(
        (#[trigger] h.edges[e]).from,
    ) && h.has_node(h.edges[e].to) by {
        assert(g.has_node(g.edges[e].from));
    }
    lemma_replace_node_index(g, id, node, Direction::Outgoing);
    lemma_replace_node_index(g, id, node, Direction::Incoming);
}

/// Replacing the payload of a node keeps an index consistent.
proof fn lemma_replace_node_index(g: GraphView, id: NodeId, node: NodeData, direction: Direction)
    requires
        g.index_consistent(direction),
        g.has_node(id),
    ensures
        g.replace_node(id, node).index_consistent(direction),
{
    let h = g.replace_node(id, node);
    assert(h.lists(direction) == g.lists(direction));
    assert forall|n: int| 0 <= n < h.lists(direction).len() implies #[trigger] h.list_consistent(
        direction,
        n,
    ) by {
        assert(g.list_consistent(direction, n));
    }
    assert forall|e: int| 0 <= e < h.edges.len() implies #[trigger] h.edge_listed(direction, e) by {
        assert(g.edge_listed(direction, e));
    }
}

/// Replacing the record of an edge by one with the same two endpoints
/// keeps the invariant.
pub proof fn lemma_replace_edge_wf(g: GraphView, id: EdgeId, edge: EdgeData)
    requires
        g.wf(),
        g.has_edge(id),
        edge.from == g.edges[id as int].from,
        edge.to == g.edges[id as int].to,
    ensures
        g.replace_edge(id, edge).wf(),
{
    let h = g.replace_edge(id, edge);
    assert forall|e: int| 0 <= e < h.edges.len() implies h.has_node(
        (#[trigger] h.edges[e]).from,
    ) && h.has_node(h.edges[e].to) by {
        assert(g.has_node(g.edges[e].from));
    }
    lemma_replace_edge_index(g, id, edge, Direction::Outgoing);
    lemma_replace_edge_index(g, id, edge, Direction::Incoming);
}

/// Replacing the record of an edge by one with the same endpoint on the
/// side of an index keeps that index consistent.
proof fn lemma_replace_edge_index(g: GraphView, id: EdgeId, edge: EdgeData, direction: Direction)
    requires
        g.index_consistent(direction),
        g.has_edge(id),
        edge.end(direction) == g.edges[id as int].end(direction),
    ensures
        g.replace_edge(id, edge).index_consistent(direction),
{
    let h = g.replace_edge(id, edge);
    let lists = g.lists(direction);
    assert(h.lists(direction) == lists);
    assert forall|n: int| 0 <= n < lists.len() implies #[trigger] h.list_consistent(
        direction,
        n,
    ) by {
        assert(g.list_consistent(direction, n));
        assert forall|i: int| 0 <= i < lists[n].len() implies h.has_edge(#[trigger] lists[n][i])
            && h.edges[lists[n][i] as int].end(direction) == n by {
            assert(g.has_edge(lists[n][i]));
        }
    }
    assert forall|e: int| 0 <= e < h.edges.len() implies #[trigger] h.edge_listed(direction, e) by {
        assert(g.edge_listed(direction, e));
    }
}

/// Ids are never reused: a store with one node more holds what it held,
/// under the same ids.
pub proof fn lemma_with_node_extends(g: GraphView, node: NodeData)
    ensures
        g.with_node(node).extends(g),
{
    assert(g.with_node(node).nodes.take(g.nodes.len() as int) =~= g.nodes);
    assert(g.edges.take(g.edges.len() as int) =~= g.edges);
}

/// Ids are never reused: a store with one edge more holds what it held,
/// under the same ids.
pub proof fn lemma_with_edge_extends(g: GraphView, edge: EdgeData)
    ensures
        g.with_edge(edge).extends(g),
{
    assert(g.nodes.take(g.nodes.len() as int) =~= g.nodes);
    assert(g.with_edge(edge).edges.take(g.edges.len() as int) =~= g.edges);
}

/// What extends an extension extends the store it started from.
pub proof fn lemma_extends_transitive(last: GraphView, middle: GraphView, first: GraphView)
    requires
        last.extends(middle),
        middle.extends(first),
    ensures
        last.extends(first),
{
    assert(last.nodes.take(first.nodes.len() as int) =~= middle.nodes.take(
        first.nodes.len() as int,
    )) by {
        assert forall|i: int| 0 <= i < first.nodes.len() implies last.nodes[i]
            == middle.nodes[i] by {
            assert(last.nodes.take(middle.nodes.len() as int)[i] == middle.nodes[i]);
        }
    }
    assert(last.edges.take(first.edges.len() as int) =~= middle.edges.take(
        first.edges.len() as int,
    )) by {
        assert forall|i: int| 0 <= i < first.edges.len() implies last.edges[i]
            == middle.edges[i] by {
            assert(last.edges.take(middle.edges.len() as int)[i] == middle.edges[i]);
        }
    }
}

} // verus!
