//! What a graph carries besides its structure: data of nodes and edges, and
//! the base road sections that every edge stands for.

use vstd::prelude::*;
use std::collections::HashMap;
use crate::ids::{EdgeId, JunctionId, NodeId, RoadId};
use crate::shortcut::{Provenance, ShortcutState};

verus! {

broadcast use vstd::std_specs::hash::group_hash_axioms;

impl View for NodeId {
    type V = NodeId;

    open spec fn view(&self) -> NodeId {
        *self
    }
}

impl View for EdgeId {
    type V = EdgeId;

    open spec fn view(&self) -> EdgeId {
        *self
    }
}

impl View for JunctionId {
    type V = JunctionId;

    open spec fn view(&self) -> JunctionId {
        *self
    }
}

impl View for RoadId {
    type V = RoadId;

    open spec fn view(&self) -> RoadId {
        *self
    }
}

/// A store of the data of a graph.
pub trait NetworkData: Sized {
    type NodeData: View;

    type EdgeData: View;

    /// Whether the store keeps what is added to it. A store that does not
    /// answers every question from the identifiers alone.
    spec fn keeps() -> bool;

    /// Whether the store has room for `node`.
    spec fn fits_node(&self, node: NodeId) -> bool;

    /// Whether the store has room for `edge`.
    spec fn fits_edge(&self, edge: EdgeId) -> bool;

    /// Whether the store can answer for `node`.
    spec fn has_node(&self, node: NodeId) -> bool;

    /// Whether the store can answer for `edge`.
    spec fn has_edge(&self, edge: EdgeId) -> bool;

    /// The data of `node`.
    spec fn node_view(&self, node: NodeId) -> <Self::NodeData as View>::V;

    /// The data of `edge`.
    spec fn edge_view(&self, edge: EdgeId) -> <Self::EdgeData as View>::V;

    /// The base road sections of `edge`.
    spec fn road_chain(&self, edge: EdgeId) -> Provenance<usize>;

    /// Whether the store can answer for `node`.
    fn knows_node(&self, node: NodeId) -> (r: bool)
        ensures
            r == self.has_node(node),
    ;

    /// Whether the store can answer for `edge`.
    fn knows_edge(&self, edge: EdgeId) -> (r: bool)
        ensures
            r == self.has_edge(edge),
    ;

    fn node_data(&self, node: NodeId) -> (r: &Self::NodeData)
        requires
            self.has_node(node),
        ensures
            r@ == self.node_view(node),
    ;

    fn edge_data(&self, edge: EdgeId) -> (r: &Self::EdgeData)
        requires
            self.has_edge(edge),
        ensures
            r@ == self.edge_view(edge),
    ;

    fn edge_road_id(&self, edge: EdgeId) -> (r: ShortcutState<usize>)
        requires
            self.has_edge(edge),
        ensures
            r@ == self.road_chain(edge),
    ;

    /// An empty store with room for `node_size` nodes and `edge_size`
    /// edges: a store that keeps what is added to it answers for no node
    /// and for no edge yet.
    fn with_size(node_size: usize, edge_size: usize) -> (r: Self)
        ensures
            forall|node: NodeId| node.0 < node_size ==> r.fits_node(node),
            forall|edge: EdgeId| edge.0 < edge_size ==> r.fits_edge(edge),
            forall|node: NodeId| Self::keeps() ==> !#[trigger] r.has_node(node),
            forall|edge: EdgeId| Self::keeps() ==> !#[trigger] r.has_edge(edge),
    ;

    fn add_node(&mut self, node: NodeId, data: Self::NodeData)
        requires
            old(self).fits_node(node),
        ensures
            forall|n: NodeId| final(self).fits_node(n) == old(self).fits_node(n),
            forall|e: EdgeId| final(self).fits_edge(e) == old(self).fits_edge(e),
            final(self).has_node(node),
            Self::keeps() ==> final(self).node_view(node) == data@,
            forall|n: NodeId|
                n != node && old(self).has_node(n) ==> final(self).has_node(n) && final(self).node_view(n) == old(self).node_view(n),
            forall|e: EdgeId|
                old(self).has_edge(e) ==> final(self).has_edge(e) && final(self).edge_view(e) == old(self).edge_view(e) && final(self).road_chain(e) == old(self).road_chain(e),
    ;

    fn add_edge(&mut self, edge: EdgeId, data: Self::EdgeData, road_id: ShortcutState<usize>)
        requires
            old(self).fits_edge(edge),
        ensures
            forall|n: NodeId| final(self).fits_node(n) == old(self).fits_node(n),
            forall|e: EdgeId| final(self).fits_edge(e) == old(self).fits_edge(e),
            final(self).has_edge(edge),
            Self::keeps() ==> final(self).edge_view(edge) == data@ && final(self).road_chain(edge)
                == road_id@,
            forall|e: EdgeId|
                e != edge && old(self).has_edge(e) ==> final(self).has_edge(e) && final(self).edge_view(e) == old(self).edge_view(e) && final(self).road_chain(e) == old(self).road_chain(e),
            forall|n: NodeId|
                old(self).has_node(n) ==> final(self).has_node(n) && final(self).node_view(n) == old(self).node_view(n),
    ;
}

/// The store that keeps nothing: every edge stands for the road section
/// with its own number.
impl NetworkData for () {
    type NodeData = ();

    type EdgeData = ();

    open spec fn keeps() -> bool {
        false
    }

    open spec fn fits_node(&self, node: NodeId) -> bool {
        true
    }

    open spec fn fits_edge(&self, edge: EdgeId) -> bool {
        true
    }

    open spec fn has_node(&self, node: NodeId) -> bool {
        true
    }

    open spec fn has_edge(&self, edge: EdgeId) -> bool {
        true
    }

    open spec fn node_view(&self, node: NodeId) -> () {
        ()
    }

    open spec fn edge_view(&self, edge: EdgeId) -> () {
        ()
    }

    open spec fn road_chain(&self, edge: EdgeId) -> Provenance<usize> {
        Provenance::Single(edge.0 as usize)
    }

    fn knows_node(&self, node: NodeId) -> (r: bool) {
        true
    }

    fn knows_edge(&self, edge: EdgeId) -> (r: bool) {
        true
    }

    fn node_data(&self, node: NodeId) -> (r: &()) {
        &()
    }

    fn edge_data(&self, edge: EdgeId) -> (r: &()) {
        &()
    }

    fn edge_road_id(&self, edge: EdgeId) -> (r: ShortcutState<usize>) {
        ShortcutState::Single(edge.0 as usize)
    }

    fn with_size(node_size: usize, edge_size: usize) -> (r: Self) {
        ()
    }

    fn add_node(&mut self, node: NodeId, data: ()) {
    }

    fn add_edge(&mut self, edge: EdgeId, data: (), road_id: ShortcutState<usize>) {
    }
}

/// The store that keeps the data in arrays, by identifier.
#[derive(Debug, PartialEq, Eq)]
pub struct DefaultNetworkData<N, E> {
    nodes: Vec<Option<N>>,
    edges: Vec<Option<E>>,
    shortcuts: Vec<Option<ShortcutState<usize>>>,
}

impl<N, E> DefaultNetworkData<N, E> {
    /// Number of nodes and of edges for which the store has room.
    pub closed spec fn room(&self) -> (nat, nat) {
        (self.nodes@.len(), self.edges@.len())
    }
}

impl<N, E> Default for DefaultNetworkData<N, E> {
    /// The store without room.
    fn default() -> (r: Self)
        ensures
            r.room() == (0nat, 0nat),
    {
        DefaultNetworkData { nodes: Vec::new(), edges: Vec::new(), shortcuts: Vec::new() }
    }
}

impl<N: View, E: View> NetworkData for DefaultNetworkData<N, E> {
    type NodeData = N;

    type EdgeData = E;

    open spec fn keeps() -> bool {
        true
    }

    closed spec fn fits_node(&self, node: NodeId) -> bool {
        node.0 < self.nodes@.len()
    }

    closed spec fn fits_edge(&self, edge: EdgeId) -> bool {
        edge.0 < self.edges@.len() && edge.0 < self.shortcuts@.len()
    }

    closed spec fn has_node(&self, node: NodeId) -> bool {
        node.0 < self.nodes@.len() && self.nodes@[node.0 as int] is Some
    }

    closed spec fn has_edge(&self, edge: EdgeId) -> bool {
        &&& edge.0 < self.edges@.len()
        &&& edge.0 < self.shortcuts@.len()
        &&& self.edges@[edge.0 as int] is Some
        &&& self.shortcuts@[edge.0 as int] is Some
    }

    closed spec fn node_view(&self, node: NodeId) -> N::V {
        self.nodes@[node.0 as int].unwrap()@
    }

    closed spec fn edge_view(&self, edge: EdgeId) -> E::V {
        self.edges@[edge.0 as int].unwrap()@
    }

    closed spec fn road_chain(&self, edge: EdgeId) -> Provenance<usize> {
        self.shortcuts@[edge.0 as int].unwrap()@
    }

    fn knows_node(&self, node: NodeId) -> (r: bool) {
        (node.0 as usize) < self.nodes.len() && self.nodes[node.0 as usize].is_some()
    }

    fn knows_edge(&self, edge: EdgeId) -> (r: bool) {
        (edge.0 as usize) < self.edges.len() && (edge.0 as usize) < self.shortcuts.len()
            && self.edges[edge.0 as usize].is_some() && self.shortcuts[edge.0 as usize].is_some()
    }

    fn node_data(&self, node: NodeId) -> (r: &N) {
        self.nodes[node.0 as usize].as_ref().unwrap()
    }

    fn edge_data(&self, edge: EdgeId) -> (r: &E) {
        self.edges[edge.0 as usize].as_ref().unwrap()
    }

    fn edge_road_id(&self, edge: EdgeId) -> (r: ShortcutState<usize>) {
        self.shortcuts[edge.0 as usize].as_ref().unwrap().duplicate()
    }

    fn with_size(node_size: usize, edge_size: usize) -> (r: Self) {
        let mut nodes: Vec<Option<N>> = Vec::new();
        while nodes.len() < node_size
            invariant
                nodes@.len() <= node_size,
                forall|i: int| 0 <= i < nodes@.len() ==> (#[trigger] nodes@[i]) is None,
            decreases node_size - nodes@.len(),
        {
            nodes.push(None);
        }
        let mut edges: Vec<Option<E>> = Vec::new();
        let mut shortcuts: Vec<Option<ShortcutState<usize>>> = Vec::new();
        while edges.len() < edge_size
            invariant
                edges@.len() <= edge_size,
                edges@.len() == shortcuts@.len(),
                forall|i: int| 0 <= i < edges@.len() ==> (#[trigger] edges@[i]) is None,
            decreases edge_size - edges@.len(),
        {
            edges.push(None);
            shortcuts.push(None);
        }
        DefaultNetworkData { nodes, edges, shortcuts }
    }

    fn add_node(&mut self, node: NodeId, data: N) {
        self.nodes.set(node.0 as usize, Some(data));
    }

    fn add_edge(&mut self, edge: EdgeId, data: E, road_id: ShortcutState<usize>) {
        self.edges.set(edge.0 as usize, Some(data));
        self.shortcuts.set(edge.0 as usize, Some(road_id));
    }
}

/// The store of a level above the base: for every node the node of the
/// level below that it stands for, for every edge the edges of the level
/// below and the base road sections that it stands for.
#[derive(Debug, Default, Clone, PartialEq, Eq)]
pub struct IntermediateData {
    references: HashMap<u32, NodeId>,
    shortcuts: HashMap<u32, ShortcutState<u32>>,
    road_ids: HashMap<u32, ShortcutState<usize>>,
}

impl NetworkData for IntermediateData {
    type NodeData = NodeId;

    type EdgeData = ShortcutState<u32>;

    open spec fn keeps() -> bool {
        true
    }

    open spec fn fits_node(&self, node: NodeId) -> bool {
        true
    }

    open spec fn fits_edge(&self, edge: EdgeId) -> bool {
        true
    }

    closed spec fn has_node(&self, node: NodeId) -> bool {
        self.references@.contains_key(node.0)
    }

    closed spec fn has_edge(&self, edge: EdgeId) -> bool {
        self.shortcuts@.contains_key(edge.0) && self.road_ids@.contains_key(edge.0)
    }

    closed spec fn node_view(&self, node: NodeId) -> NodeId {
        self.references@[node.0]
    }

    closed spec fn edge_view(&self, edge: EdgeId) -> Provenance<u32> {
        self.shortcuts@[edge.0]@
    }

    closed spec fn road_chain(&self, edge: EdgeId) -> Provenance<usize> {
        self.road_ids@[edge.0]@
    }

    fn knows_node(&self, node: NodeId) -> (r: bool) {
        self.references.contains_key(&node.0)
    }

    fn knows_edge(&self, edge: EdgeId) -> (r: bool) {
        self.shortcuts.contains_key(&edge.0) && self.road_ids.contains_key(&edge.0)
    }

    fn node_data(&self, node: NodeId) -> (r: &NodeId) {
        let found = self.references.get(&node.0);
        assert(found is Some);
        let r = found.unwrap();
        assert(*r == self.references@[node.0]);
        assert(r@ == *r);
        r
    }

    fn edge_data(&self, edge: EdgeId) -> (r: &ShortcutState<u32>) {
        self.shortcuts.get(&edge.0).unwrap()
    }

    fn edge_road_id(&self, edge: EdgeId) -> (r: ShortcutState<usize>) {
        self.road_ids.get(&edge.0).unwrap().duplicate()
    }

    fn with_size(node_size: usize, edge_size: usize) -> (r: Self) {
        Self {
            references: HashMap::with_capacity(node_size),
            shortcuts: HashMap::with_capacity(edge_size),
            road_ids: HashMap::with_capacity(edge_size),
        }
    }

    fn add_node(&mut self, node: NodeId, data: NodeId) {
        assert(data@ == data);
        self.references.insert(node.0, data);
    }

    fn add_edge(&mut self, edge: EdgeId, data: ShortcutState<u32>, road_id: ShortcutState<usize>) {
        self.shortcuts.insert(edge.0, data);
        self.road_ids.insert(edge.0, road_id);
    }
}

} // verus!
