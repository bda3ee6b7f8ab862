//! Building a graph from nodes and edges that are supplied one by one.

use vstd::prelude::*;
use std::collections::HashMap;
pub use crate::direction::EdgeDirection;
use crate::graph::{DirectedNetworkGraph, NetworkEdge, NetworkNode};
use crate::ids::{EdgeId, NodeId};
use crate::intermediate::{edge_key, lemma_edge_key, IntermediateEdge, IntermediateNode};
use crate::node_data::NetworkData;
use crate::shortcut::{Provenance, ShortcutState};

verus! {

broadcast use vstd::std_specs::hash::group_hash_axioms;

/// A node as the builder takes it: a label by which it is known, and its
/// data.
pub trait NodeBuilder {
    type Data: View;

    /// The label of the node.
    spec fn label(&self) -> u32;

    /// The data of the node.
    spec fn data_view(&self) -> <Self::Data as View>::V;

    fn id(&self) -> (r: u32)
        ensures
            r == self.label(),
    ;

    fn data(&self) -> (r: Self::Data)
        ensures
            r@ == self.data_view(),
    ;
}

/// A number is a node without data, labelled by its low 32 bits.
impl NodeBuilder for usize {
    type Data = ();

    open spec fn label(&self) -> u32 {
        *self as u32
    }

    open spec fn data_view(&self) -> () {
        ()
    }

    fn id(&self) -> (r: u32) {
        #[verifier::truncate]
        (*self as u32)
    }

    fn data(&self) -> (r: ()) {
        ()
    }
}

/// A node without data, labelled by a node id.
#[derive(Debug, Hash, PartialEq, Eq, Clone, Copy, Structural)]
pub struct DefaultNodeBuilder(pub NodeId);

impl NodeBuilder for DefaultNodeBuilder {
    type Data = ();

    open spec fn label(&self) -> u32 {
        self.0.0
    }

    open spec fn data_view(&self) -> () {
        ()
    }

    fn id(&self) -> (r: u32) {
        self.0.0
    }

    fn data(&self) -> (r: ()) {
        ()
    }
}

/// A node of the intermediate graph is labelled by the node of the level
/// below, which is also its data.
impl NodeBuilder for IntermediateNode {
    type Data = NodeId;

    open spec fn label(&self) -> u32 {
        self.0.0
    }

    open spec fn data_view(&self) -> NodeId {
        self.0
    }

    fn id(&self) -> (r: u32) {
        self.0.0
    }

    fn data(&self) -> (r: NodeId) {
        self.0
    }
}

/// An edge as the builder takes it.
pub trait EdgeBuilder {
    type Data: View;

    spec fn data_view(&self) -> <Self::Data as View>::V;

    spec fn road_view(&self) -> Provenance<usize>;

    spec fn source_of(&self) -> NodeId;

    spec fn target_of(&self) -> NodeId;

    spec fn weight_of(&self) -> u64;

    spec fn direction_of(&self) -> EdgeDirection;

    fn data(&self) -> (r: Self::Data)
        ensures
            r@ == self.data_view(),
    ;

    fn road_id(&self) -> (r: ShortcutState<usize>)
        ensures
            r@ == self.road_view(),
    ;

    fn source(&self) -> (r: NodeId)
        ensures
            r == self.source_of(),
    ;

    fn target(&self) -> (r: NodeId)
        ensures
            r == self.target_of(),
    ;

    fn weight(&self) -> (r: u64)
        ensures
            r == self.weight_of(),
    ;

    fn direction(&self) -> (r: EdgeDirection)
        ensures
            r == self.direction_of(),
    ;
}

/// An edge without data: source, target, weight, base road section and
/// direction.
#[derive(Debug, Clone, Copy, PartialEq, Eq, Structural)]
pub struct DefaultEdgeBuilder(pub NodeId, pub NodeId, pub u64, pub usize, pub EdgeDirection);

impl EdgeBuilder for DefaultEdgeBuilder {
    type Data = ();

    open spec fn data_view(&self) -> () {
        ()
    }

    open spec fn road_view(&self) -> Provenance<usize> {
        Provenance::Single(self.3)
    }

    open spec fn source_of(&self) -> NodeId {
        self.0
    }

    open spec fn target_of(&self) -> NodeId {
        self.1
    }

    open spec fn weight_of(&self) -> u64 {
        self.2
    }

    open spec fn direction_of(&self) -> EdgeDirection {
        self.4
    }

    fn data(&self) -> (r: ()) {
        ()
    }

    fn road_id(&self) -> (r: ShortcutState<usize>) {
        ShortcutState::Single(self.3)
    }

    fn source(&self) -> (r: NodeId) {
        self.0
    }

    fn target(&self) -> (r: NodeId) {
        self.1
    }

    fn weight(&self) -> (r: u64) {
        self.2
    }

    fn direction(&self) -> (r: EdgeDirection) {
        self.4
    }
}

impl DefaultEdgeBuilder {
    /// An edge that is passed from `source` to `target` only.
    pub fn forward(source: NodeId, target: NodeId, road_id: usize, weight: u64) -> (r:
        DefaultEdgeBuilder)
        ensures
            r == DefaultEdgeBuilder(source, target, weight, road_id, EdgeDirection::Forward),
    {
        DefaultEdgeBuilder(source, target, weight, road_id, EdgeDirection::Forward)
    }

    /// An edge that is tagged backward; the builder reads it as the edge
    /// from `source` to `target`.
    pub fn backward(source: NodeId, target: NodeId, road_id: usize, weight: u64) -> (r:
        DefaultEdgeBuilder)
        ensures
            r == DefaultEdgeBuilder(source, target, weight, road_id, EdgeDirection::Backward),
    {
        DefaultEdgeBuilder(source, target, weight, road_id, EdgeDirection::Backward)
    }

    /// An edge that is passed both ways.
    pub fn both(source: NodeId, target: NodeId, road_id: usize, weight: u64) -> (r:
        DefaultEdgeBuilder)
        ensures
            r == DefaultEdgeBuilder(source, target, weight, road_id, EdgeDirection::Both),
    {
        DefaultEdgeBuilder(source, target, weight, road_id, EdgeDirection::Both)
    }
}

/// An intermediate edge is built with its chain of lower-level edges as
/// data.
impl EdgeBuilder for IntermediateEdge {
    type Data = ShortcutState<u32>;

    open spec fn data_view(&self) -> Provenance<u32> {
        self.data@
    }

    open spec fn road_view(&self) -> Provenance<usize> {
        self.road_id@
    }

    open spec fn source_of(&self) -> NodeId {
        self.source
    }

    open spec fn target_of(&self) -> NodeId {
        self.target
    }

    open spec fn weight_of(&self) -> u64 {
        self.weight
    }

    open spec fn direction_of(&self) -> EdgeDirection {
        self.direction
    }

    fn data(&self) -> (r: ShortcutState<u32>) {
        self.data.duplicate()
    }

    fn road_id(&self) -> (r: ShortcutState<usize>) {
        self.road_id.duplicate()
    }

    fn source(&self) -> (r: NodeId) {
        self.source
    }

    fn target(&self) -> (r: NodeId) {
        self.target
    }

    fn weight(&self) -> (r: u64) {
        self.weight
    }

    fn direction(&self) -> (r: EdgeDirection) {
        self.direction
    }
}

/// Why a graph cannot be built.
#[derive(Debug, Clone, Copy, PartialEq, Eq, Structural)]
pub enum GraphError {
    /// An edge has a weight that is not positive or too large to store,
    /// or names a node that was not added, or two edges between the same
    /// nodes disagree on their direction, or there are more edges than
    /// can be numbered.
    InvalidInput,
}

/// Collects nodes and edges, and builds the graph from them.
pub struct DirectedNetworkBuilder<V: NodeBuilder, E: EdgeBuilder> {
    nodes: Vec<V>,
    node_index: HashMap<u32, u32>,
    edges: Vec<E>,
    edge_index: HashMap<u64, usize>,
    conflict: bool,
}

/// The place of the edge from `s` to `t` in `edges`, or the length of
/// `edges` if there is none.
pub open spec fn edge_place<E: EdgeBuilder>(edges: Seq<E>, s: NodeId, t: NodeId) -> int
    decreases edges.len(),
{
    if edges.len() == 0 {
        0
    } else if edges[0].source_of() == s && edges[0].target_of() == t {
        0
    } else {
        1 + edge_place(edges.subrange(1, edges.len() as int), s, t)
    }
}

/// The place of the node with label `label` in `nodes`, or the length of
/// `nodes` if there is none.
pub open spec fn label_place<V: NodeBuilder>(nodes: Seq<V>, label: u32) -> int
    decreases nodes.len(),
{
    if nodes.len() == 0 {
        0
    } else if nodes[0].label() == label {
        0
    } else {
        1 + label_place(nodes.subrange(1, nodes.len() as int), label)
    }
}

pub proof fn lemma_edge_place<E: EdgeBuilder>(edges: Seq<E>, s: NodeId, t: NodeId)
    ensures
        0 <= edge_place(edges, s, t) <= edges.len(),
        edge_place(edges, s, t) < edges.len() ==> edges[edge_place(edges, s, t)].source_of() == s
            && edges[edge_place(edges, s, t)].target_of() == t,
        forall|i: int|
            0 <= i < edge_place(edges, s, t) ==> !((#[trigger] edges[i]).source_of() == s
                && edges[i].target_of() == t),
    decreases edges.len(),
{
    if edges.len() > 0 && !(edges[0].source_of() == s && edges[0].target_of() == t) {
        let rest = edges.subrange(1, edges.len() as int);
        lemma_edge_place(rest, s, t);
        assert forall|i: int| 0 <= i < edge_place(edges, s, t) implies !((
        #[trigger] edges[i]).source_of() == s && edges[i].target_of() == t) by {
            if i > 0 {
                assert(rest[i - 1] == edges[i]);
            }
        }
    }
}

pub proof fn lemma_label_place<V: NodeBuilder>(nodes: Seq<V>, label: u32)
    ensures
        0 <= label_place(nodes, label) <= nodes.len(),
        label_place(nodes, label) < nodes.len() ==> nodes[label_place(nodes, label)].label()
            == label,
        forall|i: int| 0 <= i < label_place(nodes, label) ==> (#[trigger] nodes[i]).label() != label,
    decreases nodes.len(),
{
    if nodes.len() > 0 && nodes[0].label() != label {
        let rest = nodes.subrange(1, nodes.len() as int);
        lemma_label_place(rest, label);
        assert forall|i: int| 0 <= i < label_place(nodes, label) implies (#[trigger] nodes[i]).label()
            != label by {
            if i > 0 {
                assert(rest[i - 1] == nodes[i]);
            }
        }
    }
}

impl<V: NodeBuilder, E: EdgeBuilder> DirectedNetworkBuilder<V, E> {
    /// The nodes in the order in which they were added: the place of a
    /// node is its id.
    pub closed spec fn node_list(&self) -> Seq<V> {
        self.nodes@
    }

    /// The edges, one for every pair of source and target, in the order in
    /// which the pairs were first supplied.
    pub closed spec fn edge_list(&self) -> Seq<E> {
        self.edges@
    }

    /// Whether two edges between the same nodes disagreed on their
    /// direction.
    pub closed spec fn conflicted(&self) -> bool {
        self.conflict
    }

    /// The invariant of the builder: labels and pairs of endpoints are
    /// each found at one place.
    pub closed spec fn wf(&self) -> bool {
        &&& self.nodes@.len() <= u32::MAX
        &&& forall|i: int|
            0 <= i < self.nodes@.len() ==> self.node_index@.contains_key(
                (#[trigger] self.nodes@[i]).label(),
            ) && self.node_index@[self.nodes@[i].label()] == i
        &&& forall|l: u32| #[trigger]
            self.node_index@.contains_key(l) ==> self.node_index@[l] < self.nodes@.len()
                && self.nodes@[self.node_index@[l] as int].label() == l
        &&& forall|i: int|
            0 <= i < self.edges@.len() ==> self.edge_index@.contains_key(
                edge_key((#[trigger] self.edges@[i]).source_of(), self.edges@[i].target_of()),
            ) && self.edge_index@[edge_key(self.edges@[i].source_of(), self.edges@[i].target_of())]
                == i
        &&& forall|k: u64| #[trigger]
            self.edge_index@.contains_key(k) ==> self.edge_index@[k] < self.edges@.len() && edge_key(
                self.edges@[self.edge_index@[k] as int].source_of(),
                self.edges@[self.edge_index@[k] as int].target_of(),
            ) == k
    }

    /// The builder without nodes and edges.
    pub fn new() -> (r: Self)
        ensures
            r.wf(),
            r.node_list() == Seq::<V>::empty(),
            r.edge_list() == Seq::<E>::empty(),
            !r.conflicted(),
    {
        DirectedNetworkBuilder {
            nodes: Vec::new(),
            node_index: HashMap::new(),
            edges: Vec::new(),
            edge_index: HashMap::new(),
            conflict: false,
        }
    }

    /// Number of nodes added so far.
    pub fn node_count(&self) -> (r: usize)
        ensures
            r == self.node_list().len(),
    {
        self.nodes.len()
    }

    /// Adds `node` unless a node with its label was added before, and
    /// returns the id of the node with that label. Ids are given in the
    /// order in which labels are first seen.
    pub fn add_node(&mut self, node: V) -> (r: NodeId)
        requires
            old(self).wf(),
            old(self).node_list().len() < u32::MAX || label_place(
                old(self).node_list(),
                node.label(),
            ) < old(self).node_list().len(),
        ensures
            final(self).wf(),
            final(self).edge_list() == old(self).edge_list(),
            final(self).conflicted() == old(self).conflicted(),
            r.0 == label_place(old(self).node_list(), node.label()),
            final(self).node_list() == if r.0 < old(self).node_list().len() {
                old(self).node_list()
            } else {
                old(self).node_list().push(node)
            },
    {
        let label = node.id();
        proof {
            lemma_label_place(self.nodes@, label);
        }
        match self.node_index.get(&label) {
            Some(id) => {
                let id = *id;
                proof {
                    let at = label_place(self.nodes@, label);
                    if at < id {
                        assert(self.nodes@[at].label() == label);
                        assert(self.node_index@[self.nodes@[at].label()] == at);
                    }
                    if id < at {
                        assert(self.nodes@[id as int].label() != label);
                    }
                }
                NodeId(id)
            },
            None => {
                let id = self.nodes.len() as u32;
                proof {
                    let at = label_place(self.nodes@, label);
                    if at < self.nodes@.len() {
                        assert(self.node_index@.contains_key(self.nodes@[at].label()));
                    }
                }
                self.node_index.insert(label, id);
                self.nodes.push(node);
                proof {
                    assert forall|i: int| 0 <= i < self.nodes@.len() implies self.node_index@.contains_key(
                        (#[trigger] self.nodes@[i]).label(),
                    ) && self.node_index@[self.nodes@[i].label()] == i by {
                        if i < id {
                            assert(self.nodes@[i] == old(self).nodes@[i]);
                            assert(old(self).node_index@.contains_key(old(self).nodes@[i].label()));
                        }
                    }
                    assert forall|l: u32| #[trigger] self.node_index@.contains_key(l) implies self.node_index@[l]
                        < self.nodes@.len() && self.nodes@[self.node_index@[l] as int].label() == l by {
                        if l != label {
                            assert(old(self).node_index@.contains_key(l));
                            assert(self.nodes@[old(self).node_index@[l] as int] == old(self).nodes@[old(self).node_index@[l] as int]);
                        }
                    }
                }
                NodeId(id)
            },
        }
    }

    /// Adds `edge`, in place of an edge between the same nodes that was
    /// added before. Two such edges must agree on their direction, or no
    /// graph can be built.
    #[verifier::rlimit(40)]
    pub fn add_edge(&mut self, edge: E)
        requires
            old(self).wf(),
        ensures
            final(self).wf(),
            final(self).node_list() == old(self).node_list(),
            ({
                let at = edge_place(old(self).edge_list(), edge.source_of(), edge.target_of());
                if at < old(self).edge_list().len() {
                    &&& final(self).edge_list() == old(self).edge_list().update(at, edge)
                    &&& final(self).conflicted() == (old(self).conflicted() || old(self).edge_list()[at].direction_of() != edge.direction_of())
                } else {
                    &&& final(self).edge_list() == old(self).edge_list().push(edge)
                    &&& final(self).conflicted() == old(self).conflicted()
                }
            }),
    {
        let s = edge.source();
        let t = edge.target();
        let k = s.0 as u64 * 0x1_0000_0000u64 + t.0 as u64;
        proof {
            lemma_edge_key(s, t);
            lemma_edge_place(self.edges@, s, t);
        }
        let found = match self.edge_index.get(&k) {
            Some(i) => Some(*i),
            None => None,
        };
        match found {
            Some(i) => {
                proof {
                    let at = edge_place(self.edges@, s, t);
                    lemma_edge_key(self.edges@[i as int].source_of(), self.edges@[i as int].target_of());
                    if at < i {
                        assert(self.edge_index@[edge_key(
                            self.edges@[at].source_of(),
                            self.edges@[at].target_of(),
                        )] == at);
                    }
                    if i < at {
                        assert(!(self.edges@[i as int].source_of() == s && self.edges@[i as int].target_of()
                            == t));
                    }
                }
                let differs = !direction_eq(self.edges[i].direction(), edge.direction());
                if differs {
                    self.conflict = true;
                }
                self.edges.set(i, edge);
                proof {
                    assert forall|j: int| 0 <= j < self.edges@.len() implies self.edge_index@.contains_key(
                        edge_key((#[trigger] self.edges@[j]).source_of(), self.edges@[j].target_of()),
                    ) && self.edge_index@[edge_key(
                        self.edges@[j].source_of(),
                        self.edges@[j].target_of(),
                    )] == j by {
                        if j != i {
                            assert(self.edges@[j] == old(self).edges@[j]);
                        }
                    }
                    assert forall|k2: u64| #[trigger] self.edge_index@.contains_key(k2) implies self.edge_index@[k2]
                        < self.edges@.len() && edge_key(
                        self.edges@[self.edge_index@[k2] as int].source_of(),
                        self.edges@[self.edge_index@[k2] as int].target_of(),
                    ) == k2 by {
                        let j = self.edge_index@[k2] as int;
                        if j != i {
                            assert(self.edges@[j] == old(self).edges@[j]);
                        }
                    }
                }
            },
            None => {
                proof {
                    let at = edge_place(self.edges@, s, t);
                    if at < self.edges@.len() {
                        assert(self.edge_index@.contains_key(
                            edge_key(self.edges@[at].source_of(), self.edges@[at].target_of()),
                        ));
                    }
                }
                let i = self.edges.len();
                self.edge_index.insert(k, i);
                self.edges.push(edge);
                proof {
                    assert forall|j: int| 0 <= j < self.edges@.len() implies self.edge_index@.contains_key(
                        edge_key((#[trigger] self.edges@[j]).source_of(), self.edges@[j].target_of()),
                    ) && self.edge_index@[edge_key(
                        self.edges@[j].source_of(),
                        self.edges@[j].target_of(),
                    )] == j by {
                        if j < i {
                            assert(self.edges@[j] == old(self).edges@[j]);
                            assert(old(self).edge_index@.contains_key(
                                edge_key(old(self).edges@[j].source_of(), old(self).edges@[j].target_of()),
                            ));
                        }
                    }
                    assert forall|k2: u64| #[trigger] self.edge_index@.contains_key(k2) implies self.edge_index@[k2]
                        < self.edges@.len() && edge_key(
                        self.edges@[self.edge_index@[k2] as int].source_of(),
                        self.edges@[self.edge_index@[k2] as int].target_of(),
                    ) == k2 by {
                        if k2 != k {
                            assert(old(self).edge_index@.contains_key(k2));
                            let j = old(self).edge_index@[k2] as int;
                            assert(self.edges@[j] == old(self).edges@[j]);
                        }
                    }
                }
            },
        }
    }
}

/// Whether two direction tags are the same.
pub fn direction_eq(a: EdgeDirection, b: EdgeDirection) -> (r: bool)
    ensures
        r == (a == b),
{
    a.order() == b.order()
}

/// The tag of the record that an edge with tag `d` leaves at its source.
pub open spec fn forward_tag(d: EdgeDirection) -> EdgeDirection {
    if d == EdgeDirection::Both {
        EdgeDirection::Both
    } else {
        EdgeDirection::Forward
    }
}

/// The tag of the record that an edge with tag `d` leaves at its target.
pub open spec fn backward_tag(d: EdgeDirection) -> EdgeDirection {
    if d == EdgeDirection::Both {
        EdgeDirection::Both
    } else {
        EdgeDirection::Backward
    }
}

/// A record to be: the edge at `position` as seen from its source
/// (`forward`) or from its target.
#[derive(Debug, Clone, Copy, PartialEq, Eq, Structural)]
pub struct Slot {
    pub direction: EdgeDirection,
    pub target: u32,
    pub position: usize,
    pub forward: bool,
}

/// The node at which edge `e` leaves its forward or its backward record.
pub open spec fn slot_owner<E: EdgeBuilder>(e: E, forward: bool) -> u32 {
    if forward {
        e.source_of().0
    } else {
        e.target_of().0
    }
}

/// The record to be of the edge `e` at `position`.
pub open spec fn slot_of<E: EdgeBuilder>(e: E, position: int, forward: bool) -> Slot {
    Slot {
        direction: if forward {
            forward_tag(e.direction_of())
        } else {
            backward_tag(e.direction_of())
        },
        target: if forward {
            e.target_of().0
        } else {
            e.source_of().0
        },
        position: position as usize,
        forward,
    }
}

/// The record that the edge `e` leaves at index `j`.
pub open spec fn record_of<E: EdgeBuilder>(e: E, j: int, forward: bool) -> NetworkEdge {
    NetworkEdge {
        edge_id: j as u32,
        target_node: NodeId(slot_of(e, 0, forward).target),
        edge_weight: e.weight_of() as u32,
        direction: slot_of(e, 0, forward).direction,
    }
}

/// Whether `s` is a record to be of one of `edges` at node `u`.
pub open spec fn slot_ok<E: EdgeBuilder>(edges: Seq<E>, u: int, s: Slot) -> bool {
    &&& s.position < edges.len()
    &&& s == slot_of(edges[s.position as int], s.position as int, s.forward)
    &&& slot_owner(edges[s.position as int], s.forward) == u
}

/// The order of the records of one node: by direction tag, then by
/// target.
pub open spec fn slot_le(a: Slot, b: Slot) -> bool {
    a.direction.rank() < b.direction.rank() || (a.direction == b.direction && a.target <= b.target)
}

/// Whether `bucket` holds records to be of node `u`, in order.
pub open spec fn bucket_ok<E: EdgeBuilder>(edges: Seq<E>, u: int, bucket: Seq<Slot>) -> bool {
    &&& forall|k: int| 0 <= k < bucket.len() ==> slot_ok(edges, u, #[trigger] bucket[k])
    &&& forall|a: int, b: int| 0 <= a < b < bucket.len() ==> slot_le(#[trigger] bucket[a], #[trigger] bucket[b])
}

/// Number of records to be in all `buckets`.
pub open spec fn total_slots(buckets: Seq<Vec<Slot>>) -> nat
    decreases buckets.len(),
{
    if buckets.len() == 0 {
        0
    } else {
        total_slots(buckets.drop_last()) + buckets.last()@.len()
    }
}

/// Whether the edge `e` can be stored in a graph of `n` nodes.
pub open spec fn valid_edge<E: EdgeBuilder>(e: E, n: int) -> bool {
    e.source_of().0 < n && e.target_of().0 < n && 0 < e.weight_of() <= u32::MAX
}

proof fn lemma_total_update(buckets: Seq<Vec<Slot>>, u: int, next: Vec<Slot>)
    requires
        0 <= u < buckets.len(),
    ensures
        total_slots(buckets.update(u, next)) + buckets[u]@.len() == total_slots(buckets) + next@.len(),
    decreases buckets.len(),
{
    let after = buckets.update(u, next);
    if u == buckets.len() - 1 {
        assert(after.drop_last() =~= buckets.drop_last());
    } else {
        lemma_total_update(buckets.drop_last(), u, next);
        assert(after.drop_last() =~= buckets.drop_last().update(u, next));
    }
}

proof fn lemma_total_prefix(buckets: Seq<Vec<Slot>>, u: int)
    requires
        0 <= u <= buckets.len(),
    ensures
        total_slots(buckets.subrange(0, u)) <= total_slots(buckets),
        u < buckets.len() ==> total_slots(buckets.subrange(0, u + 1)) == total_slots(
            buckets.subrange(0, u),
        ) + buckets[u]@.len(),
    decreases buckets.len() - u,
{
    if u < buckets.len() {
        assert(buckets.subrange(0, u + 1).drop_last() =~= buckets.subrange(0, u));
        lemma_total_prefix(buckets, u + 1);
    } else {
        assert(buckets.subrange(0, u) =~= buckets);
    }
}

/// Puts `slot` into `bucket` behind the records that do not come after it.
fn insert_sorted(bucket: &mut Vec<Slot>, slot: Slot) -> (k: usize)
    requires
        forall|a: int, b: int|
            0 <= a < b < old(bucket)@.len() ==> slot_le(#[trigger] old(bucket)@[a], #[trigger] old(bucket)@[b]),
    ensures
        k <= old(bucket)@.len(),
        final(bucket)@.len() == old(bucket)@.len() + 1,
        final(bucket)@[k as int] == slot,
        forall|j: int| 0 <= j < k ==> final(bucket)@[j] == old(bucket)@[j],
        forall|j: int| k < j < final(bucket)@.len() ==> final(bucket)@[j] == old(bucket)@[j - 1],
        forall|a: int, b: int|
            0 <= a < b < final(bucket)@.len() ==> slot_le(
                #[trigger] final(bucket)@[a],
                #[trigger] final(bucket)@[b],
            ),
{
    let mut k: usize = 0;
    while k < bucket.len()
        invariant
            bucket@ == old(bucket)@,
            k <= bucket@.len(),
            forall|j: int| 0 <= j < k ==> slot_le(#[trigger] bucket@[j], slot),
        ensures
            k < bucket@.len() ==> slot_le(slot, bucket@[k as int]),
        decreases bucket@.len() - k,
    {
        let here = bucket[k];
        let here_rank = here.direction.order();
        let slot_rank = slot.direction.order();
        if slot_rank < here_rank || (slot_rank == here_rank && slot.target < here.target) {
            break ;
        }
        k += 1;
    }
    proof {
        assert forall|j: int| k <= j < bucket@.len() implies slot_le(slot, #[trigger] bucket@[j]) by {
            if j > k {
                assert(slot_le(bucket@[k as int], bucket@[j]));
            }
        }
    }
    bucket.insert(k, slot);
    proof {
        let before = old(bucket)@;
        let after = bucket@;
        assert forall|a: int, b: int| 0 <= a < b < after.len() implies slot_le(
            #[trigger] after[a],
            #[trigger] after[b],
        ) by {
            if b < k {
            } else if b == k {
                assert(after[a] == before[a]);
            } else if a < k {
                assert(after[a] == before[a]);
                assert(after[b] == before[b - 1]);
                if a < b - 1 {
                    assert(slot_le(before[a], before[b - 1]));
                }
            } else if a == k {
                assert(after[b] == before[b - 1]);
            } else {
                assert(after[a] == before[a - 1]);
                assert(after[b] == before[b - 1]);
            }
        }
    }
    k
}

/// The tag of the record that an edge with tag `d` leaves at its source.
fn tag_at_source(d: EdgeDirection) -> (r: EdgeDirection)
    ensures
        r == forward_tag(d),
{
    match d {
        EdgeDirection::Both => EdgeDirection::Both,
        _ => EdgeDirection::Forward,
    }
}

/// The tag of the record that an edge with tag `d` leaves at its target.
fn tag_at_target(d: EdgeDirection) -> (r: EdgeDirection)
    ensures
        r == backward_tag(d),
{
    match d {
        EdgeDirection::Both => EdgeDirection::Both,
        _ => EdgeDirection::Backward,
    }
}

/// Whether `buckets` hold, for every node, the records to be of the first
/// `done` edges, in order.
pub open spec fn buckets_ok<E: EdgeBuilder>(edges: Seq<E>, buckets: Seq<Vec<Slot>>, done: int) -> bool {
    &&& forall|u: int| 0 <= u < buckets.len() ==> bucket_ok(edges, u, #[trigger] buckets[u]@)
    &&& forall|u: int, k: int|
        0 <= u < buckets.len() && 0 <= k < buckets[u]@.len() ==> (#[trigger] buckets[u]@[k]).position
            < done
    &&& total_slots(buckets) == 2 * done
    &&& forall|p: int, forward: bool|
        0 <= p < done ==> buckets[slot_owner(edges[p], forward) as int]@.contains(
            #[trigger] slot_of(edges[p], p, forward),
        )
}

fn place_slot<E: EdgeBuilder>(
    buckets: &mut Vec<Vec<Slot>>,
    u: usize,
    slot: Slot,
    Ghost(edges): Ghost<Seq<E>>,
)
    requires
        u < old(buckets)@.len(),
        forall|v: int| 0 <= v < old(buckets)@.len() ==> bucket_ok(edges, v, #[trigger] old(buckets)@[v]@),
        slot_ok(edges, u as int, slot),
    ensures
        final(buckets)@.len() == old(buckets)@.len(),
        forall|v: int| 0 <= v < final(buckets)@.len() ==> bucket_ok(edges, v, #[trigger] final(buckets)@[v]@),
        forall|v: int| 0 <= v < final(buckets)@.len() && v != u ==> final(buckets)@[v] == old(buckets)@[v],
        final(buckets)@[u as int]@.contains(slot),
        forall|x: Slot| old(buckets)@[u as int]@.contains(x) ==> final(buckets)@[u as int]@.contains(x),
        forall|k: int|
            0 <= k < final(buckets)@[u as int]@.len() ==> (#[trigger] final(buckets)@[u as int]@[k]) == slot
                || old(buckets)@[u as int]@.contains(final(buckets)@[u as int]@[k]),
        total_slots(final(buckets)@) == total_slots(old(buckets)@) + 1,
{
    let ghost before = buckets@[u as int]@;
    proof {
        assert(bucket_ok(edges, u as int, buckets@[u as int]@));
    }
    let k = insert_sorted(&mut buckets[u], slot);
    proof {
        let after = buckets@[u as int]@;
        assert(buckets@ =~= old(buckets)@.update(u as int, buckets@[u as int]));
        lemma_total_update(old(buckets)@, u as int, buckets@[u as int]);
        assert forall|j: int| 0 <= j < after.len() implies slot_ok(edges, u as int, #[trigger] after[j]) by {
            if j < k {
                assert(after[j] == before[j]);
            } else if j > k {
                assert(after[j] == before[j - 1]);
            }
        }
        assert forall|x: Slot| before.contains(x) implies after.contains(x) by {
            let j = choose|j: int| 0 <= j < before.len() && before[j] == x;
            if j < k {
                assert(after[j] == x);
            } else {
                assert(after[j + 1] == x);
            }
        }
        assert(after[k as int] == slot);
        assert forall|j: int| 0 <= j < after.len() implies (#[trigger] after[j]) == slot || before.contains(
            after[j],
        ) by {
            if j < k {
                assert(after[j] == before[j]);
            } else if j > k {
                assert(after[j] == before[j - 1]);
            }
        }
        assert forall|v: int| 0 <= v < buckets@.len() implies bucket_ok(edges, v, #[trigger] buckets@[v]@) by {
            if v != u {
                assert(buckets@[v] == old(buckets)@[v]);
            }
        }
    }
}

/// Sorts the records to be of all edges into one bucket for every node.
#[verifier::rlimit(40)]
fn fill_buckets<E: EdgeBuilder>(edges: &Vec<E>, n: usize) -> (buckets: Vec<Vec<Slot>>)
    requires
        forall|i: int| 0 <= i < edges@.len() ==> valid_edge(#[trigger] edges@[i], n as int),
    ensures
        buckets@.len() == n,
        buckets_ok(edges@, buckets@, edges@.len() as int),
{
    let mut buckets: Vec<Vec<Slot>> = Vec::new();
    while buckets.len() < n
        invariant
            buckets@.len() <= n,
            forall|u: int| 0 <= u < buckets@.len() ==> (#[trigger] buckets@[u])@.len() == 0,
            total_slots(buckets@) == 0,
        decreases n - buckets@.len(),
    {
        let ghost before = buckets@;
        buckets.push(Vec::new());
        proof {
            assert(buckets@.drop_last() =~= before);
        }
    }
    let mut p: usize = 0;
    while p < edges.len()
        invariant
            p <= edges@.len(),
            buckets@.len() == n,
            forall|i: int| 0 <= i < edges@.len() ==> valid_edge(#[trigger] edges@[i], n as int),
            buckets_ok(edges@, buckets@, p as int),
        decreases edges@.len() - p,
    {
        let edge = &edges[p];
        let s = edge.source();
        let t = edge.target();
        let d = edge.direction();
        proof {
            assert(valid_edge(edges@[p as int], n as int));
        }
        let ghost start = buckets@;
        let out_slot = Slot { direction: tag_at_source(d), target: t.0, position: p, forward: true };
        let in_slot = Slot { direction: tag_at_target(d), target: s.0, position: p, forward: false };
        proof {
            assert(out_slot == slot_of(edges@[p as int], p as int, true));
            assert(in_slot == slot_of(edges@[p as int], p as int, false));
        }
        place_slot::<E>(&mut buckets, s.0 as usize, out_slot, Ghost(edges@));
        let ghost mid = buckets@;
        place_slot::<E>(&mut buckets, t.0 as usize, in_slot, Ghost(edges@));
        proof {
            let fin = buckets@;
            assert forall|u: int, k: int|
                0 <= u < fin.len() && 0 <= k < fin[u]@.len() implies (#[trigger] fin[u]@[k]).position < p
                + 1 by {
                let x = fin[u]@[k];
                if u == t.0 {
                    if x != in_slot {
                        assert(mid[u]@.contains(x));
                        if u == s.0 {
                            let k1 = choose|k1: int| 0 <= k1 < mid[u]@.len() && mid[u]@[k1] == x;
                            if x != out_slot {
                                assert(start[u]@.contains(mid[u]@[k1]));
                                let k0 = choose|k0: int| 0 <= k0 < start[u]@.len() && start[u]@[k0] == x;
                                assert(start[u]@[k0].position < p);
                            }
                        } else {
                            assert(mid[u] == start[u]);
                            let k0 = choose|k0: int| 0 <= k0 < start[u]@.len() && start[u]@[k0] == x;
                            assert(start[u]@[k0].position < p);
                        }
                    }
                } else {
                    assert(fin[u] == mid[u]);
                    if u == s.0 {
                        if x != out_slot {
                            assert(start[u]@.contains(mid[u]@[k]));
                            let k0 = choose|k0: int| 0 <= k0 < start[u]@.len() && start[u]@[k0] == x;
                            assert(start[u]@[k0].position < p);
                        }
                    } else {
                        assert(mid[u] == start[u]);
                        assert(start[u]@[k].position < p);
                    }
                }
            }
            assert forall|q: int, forward: bool| 0 <= q < p + 1 implies fin[slot_owner(
                edges@[q],
                forward,
            ) as int]@.contains(#[trigger] slot_of(edges@[q], q, forward)) by {
                let u = slot_owner(edges@[q], forward) as int;
                let x = slot_of(edges@[q], q, forward);
                assert(valid_edge(edges@[q], n as int));
                if q < p {
                    assert(start[u]@.contains(x));
                    if u == s.0 {
                        assert(mid[u]@.contains(x));
                    } else {
                        assert(mid[u] == start[u]);
                    }
                    if u == t.0 {
                        assert(fin[u]@.contains(x));
                    } else {
                        assert(fin[u] == mid[u]);
                    }
                } else if forward {
                    assert(mid[u]@.contains(x));
                    if u == t.0 {
                        assert(fin[u]@.contains(x));
                    } else {
                        assert(fin[u] == mid[u]);
                    }
                } else {
                    assert(fin[u]@.contains(x));
                }
            }
        }
        p += 1;
    }
    buckets
}

/// Whether record `j` of `g`, in the range of node `u`, is the forward or
/// the backward record of the edge at `position`, and the store of `g`
/// answers for it with the data of that edge.
pub open spec fn stems_from<D: NetworkData, E: EdgeBuilder<Data = D::EdgeData>>(
    g: &DirectedNetworkGraph<D>,
    edges: Seq<E>,
    u: int,
    j: int,
    position: int,
    forward: bool,
) -> bool {
    &&& 0 <= position < edges.len()
    &&& slot_owner(edges[position], forward) == u
    &&& g.in_range(u, j)
    &&& 0 <= j < g.edges@.len()
    &&& g.edges@[j] == record_of(edges[position], j, forward)
    &&& g.data.has_edge(EdgeId(j as u32))
    &&& D::keeps() ==> g.data.edge_view(EdgeId(j as u32)) == edges[position].data_view()
        && g.data.road_chain(EdgeId(j as u32)) == edges[position].road_view()
}

/// Whether record `j` of node `u` stems from one of `edges`.
pub open spec fn record_known<D: NetworkData, E: EdgeBuilder<Data = D::EdgeData>>(
    g: &DirectedNetworkGraph<D>,
    edges: Seq<E>,
    u: int,
    j: int,
) -> bool {
    exists|position: int, forward: bool| #[trigger] stems_from(g, edges, u, j, position, forward)
}

/// Whether the edge at `position` has left its forward or its backward
/// record in `g`.
pub open spec fn has_record<D: NetworkData, E: EdgeBuilder<Data = D::EdgeData>>(
    g: &DirectedNetworkGraph<D>,
    edges: Seq<E>,
    position: int,
    forward: bool,
) -> bool {
    exists|j: int| #[trigger]
        stems_from(g, edges, slot_owner(edges[position], forward) as int, j, position, forward)
}

/// Whether `data` answers for node `v` with the data that was supplied.
pub open spec fn node_written<V: NodeBuilder, D: NetworkData<NodeData = V::Data>>(
    data: &D,
    nodes: Seq<V>,
    v: int,
) -> bool {
    data.has_node(NodeId(v as u32)) && (D::keeps() ==> data.node_view(NodeId(v as u32))
        == nodes[v].data_view())
}

/// Whether `g` is the graph of the nodes `nodes`, numbered in their
/// order, and of the edges `edges`: every edge has left one record at its
/// source and one at its target, there are no other records, the records
/// of every node lie side by side in order, and the store answers for
/// every node and record with the data that was supplied.
pub open spec fn built_from<V: NodeBuilder, E: EdgeBuilder, D: NetworkData<NodeData = V::Data, EdgeData = E::Data>>(
    g: &DirectedNetworkGraph<D>,
    nodes: Seq<V>,
    edges: Seq<E>,
) -> bool {
    &&& g.wf()
    &&& g.partitioned()
    &&& g.sorted()
    &&& g.ids_dense()
    &&& g.node_total() == nodes.len()
    &&& g.edge_total() == 2 * edges.len()
    &&& forall|u: int, j: int| #[trigger] g.in_range(u, j) ==> record_known(g, edges, u, j)
    &&& forall|position: int, forward: bool|
        0 <= position < edges.len() ==> #[trigger] has_record(g, edges, position, forward)
    &&& forall|u: int| 0 <= u < nodes.len() ==> #[trigger] node_written(&g.data, nodes, u)
}

/// The index of the first record of node `v`.
pub open spec fn base(buckets: Seq<Vec<Slot>>, v: int) -> int {
    total_slots(buckets.subrange(0, v)) as int
}

/// Whether record `j` of `records` is the record of `slot`, and `data`
/// answers for it.
pub open spec fn record_ok<D: NetworkData, E: EdgeBuilder<Data = D::EdgeData>>(
    records: Seq<NetworkEdge>,
    data: &D,
    edges: Seq<E>,
    slot: Slot,
    j: int,
) -> bool {
    &&& 0 <= j < records.len()
    &&& records[j] == record_of(edges[slot.position as int], j, slot.forward)
    &&& data.has_edge(EdgeId(j as u32))
    &&& D::keeps() ==> data.edge_view(EdgeId(j as u32)) == edges[slot.position as int].data_view()
        && data.road_chain(EdgeId(j as u32)) == edges[slot.position as int].road_view()
}

/// Whether the records of the first `upto` slots of node `v` are written.
pub open spec fn bucket_written<D: NetworkData, E: EdgeBuilder<Data = D::EdgeData>>(
    records: Seq<NetworkEdge>,
    data: &D,
    edges: Seq<E>,
    buckets: Seq<Vec<Slot>>,
    v: int,
    upto: int,
) -> bool {
    forall|k: int|
        0 <= k < upto ==> record_ok(records, data, edges, #[trigger] buckets[v]@[k], base(buckets, v) + k)
}

/// Writes the records of the buckets, node by node.
#[verifier::rlimit(40)]
fn emit<V: NodeBuilder, E: EdgeBuilder, D: NetworkData<NodeData = V::Data, EdgeData = E::Data>>(
    nodes: &Vec<V>,
    edges: &Vec<E>,
    buckets: &Vec<Vec<Slot>>,
) -> (r: (Vec<NetworkNode>, Vec<NetworkEdge>, D))
    requires
        nodes@.len() <= u32::MAX,
        2 * edges@.len() <= u32::MAX,
        buckets@.len() == nodes@.len(),
        buckets_ok(edges@, buckets@, edges@.len() as int),
        forall|i: int| 0 <= i < edges@.len() ==> valid_edge(#[trigger] edges@[i], nodes@.len() as int),
    ensures
        r.0@.len() == nodes@.len(),
        r.1@.len() == 2 * edges@.len(),
        forall|v: int|
            0 <= v < nodes@.len() ==> (#[trigger] r.0@[v]).start_edge_index == base(buckets@, v)
                && r.0@[v].last_edge_index == base(buckets@, v + 1),
        forall|v: int|
            0 <= v < nodes@.len() ==> #[trigger] bucket_written(
                r.1@,
                &r.2,
                edges@,
                buckets@,
                v,
                buckets@[v]@.len() as int,
            ),
        forall|u: int| 0 <= u < nodes@.len() ==> #[trigger] node_written(&r.2, nodes@, u),
{
    let n = nodes.len();
    let total = edges.len() * 2;
    let mut data = D::with_size(n, total);
    let mut out_nodes: Vec<NetworkNode> = Vec::new();
    let mut out_edges: Vec<NetworkEdge> = Vec::new();
    let mut u: usize = 0;
    proof {
        assert(buckets@.subrange(0, 0) =~= Seq::<Vec<Slot>>::empty());
        lemma_total_prefix(buckets@, buckets@.len() as int);
        assert(buckets@.subrange(0, buckets@.len() as int) =~= buckets@);
    }
    while u < n
        invariant
            n == nodes@.len(),
            n <= u32::MAX,
            total == 2 * edges@.len(),
            total <= u32::MAX,
            total == total_slots(buckets@),
            buckets@.len() == n,
            buckets_ok(edges@, buckets@, edges@.len() as int),
            forall|i: int| 0 <= i < edges@.len() ==> valid_edge(#[trigger] edges@[i], n as int),
            u <= n,
            out_nodes@.len() == u,
            out_edges@.len() == base(buckets@, u as int),
            forall|x: NodeId| x.0 < n ==> data.fits_node(x),
            forall|e: EdgeId| e.0 < total ==> data.fits_edge(e),
            forall|v: int|
                0 <= v < u ==> (#[trigger] out_nodes@[v]).start_edge_index == base(buckets@, v)
                    && out_nodes@[v].last_edge_index == base(buckets@, v + 1),
            forall|v: int|
                0 <= v < u ==> #[trigger] bucket_written(
                    out_edges@,
                    &data,
                    edges@,
                    buckets@,
                    v,
                    buckets@[v]@.len() as int,
                ),
            forall|v: int| 0 <= v < u ==> #[trigger] node_written(&data, nodes@, v),
        decreases n - u,
    {
        proof {
            lemma_total_prefix(buckets@, u as int);
            lemma_total_prefix(buckets@, u as int + 1);
        }
        let start = out_edges.len() as u32;
        let bucket = &buckets[u];
        let mut k: usize = 0;
        while k < bucket.len()
            invariant
                n == nodes@.len(),
                total == 2 * edges@.len(),
                total <= u32::MAX,
                buckets@.len() == n,
                buckets_ok(edges@, buckets@, edges@.len() as int),
                forall|i: int| 0 <= i < edges@.len() ==> valid_edge(#[trigger] edges@[i], n as int),
                u < n,
                bucket@ == buckets@[u as int]@,
                k <= bucket@.len(),
                start == base(buckets@, u as int),
                base(buckets@, u as int) + bucket@.len() <= total,
                out_edges@.len() == start + k,
                forall|x: NodeId| x.0 < n ==> data.fits_node(x),
                forall|e: EdgeId| e.0 < total ==> data.fits_edge(e),
                forall|v: int|
                    0 <= v < u ==> #[trigger] bucket_written(
                        out_edges@,
                        &data,
                        edges@,
                        buckets@,
                        v,
                        buckets@[v]@.len() as int,
                    ),
                bucket_written(out_edges@, &data, edges@, buckets@, u as int, k as int),
                forall|v: int| 0 <= v < u ==> #[trigger] node_written(&data, nodes@, v),
            decreases bucket@.len() - k,
        {
            let slot = bucket[k];
            proof {
                assert(bucket_ok(edges@, u as int, buckets@[u as int]@));
                assert(slot_ok(edges@, u as int, bucket@[k as int]));
                assert(valid_edge(edges@[slot.position as int], n as int));
            }
            let edge = &edges[slot.position];
            let id = out_edges.len() as u32;
            let record = NetworkEdge::new(id, NodeId(slot.target), edge.weight() as u32, slot.direction);
            let ghost old_edges = out_edges@;
            let ghost old_data = data;
            data.add_edge(EdgeId(id), edge.data(), edge.road_id());
            out_edges.push(record);
            proof {
                assert forall|v: int| 0 <= v < u implies #[trigger] node_written(&data, nodes@, v) by {
                    assert(node_written(&old_data, nodes@, v));
                }
                assert forall|v: int| 0 <= v < u implies #[trigger] bucket_written(
                    out_edges@,
                    &data,
                    edges@,
                    buckets@,
                    v,
                    buckets@[v]@.len() as int,
                ) by {
                    assert(bucket_written(
                        old_edges,
                        &old_data,
                        edges@,
                        buckets@,
                        v,
                        buckets@[v]@.len() as int,
                    ));
                    assert forall|k2: int| 0 <= k2 < buckets@[v]@.len() implies record_ok(
                        out_edges@,
                        &data,
                        edges@,
                        #[trigger] buckets@[v]@[k2],
                        base(buckets@, v) + k2,
                    ) by {
                        let j = base(buckets@, v) + k2;
                        assert(record_ok(old_edges, &old_data, edges@, buckets@[v]@[k2], j));
                        assert(out_edges@[j] == old_edges[j]);
                        assert(EdgeId(j as u32) != EdgeId(id));
                    }
                }
                assert forall|k2: int| 0 <= k2 < k + 1 implies record_ok(
                    out_edges@,
                    &data,
                    edges@,
                    #[trigger] buckets@[u as int]@[k2],
                    base(buckets@, u as int) + k2,
                ) by {
                    let j = base(buckets@, u as int) + k2;
                    if k2 < k {
                        assert(record_ok(old_edges, &old_data, edges@, buckets@[u as int]@[k2], j));
                        assert(out_edges@[j] == old_edges[j]);
                        assert(EdgeId(j as u32) != EdgeId(id));
                    } else {
                        assert(out_edges@[j] == record);
                    }
                }
            }
            k += 1;
        }
        let last = out_edges.len() as u32;
        let ghost old_data = data;
        data.add_node(NodeId(u as u32), nodes[u].data());
        out_nodes.push(NetworkNode::new(start, last));
        proof {
            assert forall|v: int| 0 <= v < u + 1 implies #[trigger] bucket_written(
                out_edges@,
                &data,
                edges@,
                buckets@,
                v,
                buckets@[v]@.len() as int,
            ) by {
                assert(bucket_written(
                    out_edges@,
                    &old_data,
                    edges@,
                    buckets@,
                    v,
                    buckets@[v]@.len() as int,
                ));
                assert forall|k2: int| 0 <= k2 < buckets@[v]@.len() implies record_ok(
                    out_edges@,
                    &data,
                    edges@,
                    #[trigger] buckets@[v]@[k2],
                    base(buckets@, v) + k2,
                ) by {
                    assert(record_ok(
                        out_edges@,
                        &old_data,
                        edges@,
                        buckets@[v]@[k2],
                        base(buckets@, v) + k2,
                    ));
                }
            }
            assert forall|v: int| 0 <= v < u + 1 implies #[trigger] node_written(&data, nodes@, v) by {
                if v < u {
                    assert(node_written(&old_data, nodes@, v));
                    assert(NodeId(v as u32) != NodeId(u as u32));
                }
            }
            assert forall|v: int| 0 <= v < u + 1 implies (#[trigger] out_nodes@[v]).start_edge_index
                == base(buckets@, v) && out_nodes@[v].last_edge_index == base(buckets@, v + 1) by {}
        }
        u += 1;
    }
    proof {
        assert(buckets@.subrange(0, u as int) =~= buckets@);
    }
    (out_nodes, out_edges, data)
}

/// The index of the first record of a node grows with the node.
proof fn lemma_base_monotone(buckets: Seq<Vec<Slot>>, v: int, w: int)
    requires
        0 <= v <= w <= buckets.len(),
    ensures
        base(buckets, v) <= base(buckets, w),
        base(buckets, w) <= total_slots(buckets),
    decreases w - v,
{
    lemma_total_prefix(buckets, w);
    if v < w {
        lemma_total_prefix(buckets, v);
        lemma_base_monotone(buckets, v + 1, w);
    }
}

/// The records that `emit` has written make up the graph of the nodes and
/// edges.
#[verifier::rlimit(40)]
proof fn lemma_emitted_is_built<V: NodeBuilder, E: EdgeBuilder, D: NetworkData<NodeData = V::Data, EdgeData = E::Data>>(
    g: &DirectedNetworkGraph<D>,
    nodes: Seq<V>,
    edges: Seq<E>,
    buckets: Seq<Vec<Slot>>,
)
    requires
        nodes.len() <= u32::MAX,
        2 * edges.len() <= u32::MAX,
        buckets.len() == nodes.len(),
        buckets_ok(edges, buckets, edges.len() as int),
        forall|i: int| 0 <= i < edges.len() ==> valid_edge(#[trigger] edges[i], nodes.len() as int),
        g.nodes@.len() == nodes.len(),
        g.edges@.len() == 2 * edges.len(),
        forall|v: int|
            0 <= v < nodes.len() ==> (#[trigger] g.nodes@[v]).start_edge_index == base(buckets, v)
                && g.nodes@[v].last_edge_index == base(buckets, v + 1),
        forall|v: int|
            0 <= v < nodes.len() ==> #[trigger] bucket_written(
                g.edges@,
                &g.data,
                edges,
                buckets,
                v,
                buckets[v]@.len() as int,
            ),
        forall|u: int| 0 <= u < nodes.len() ==> #[trigger] node_written(&g.data, nodes, u),
    ensures
        built_from(g, nodes, edges),
{
    let n = nodes.len() as int;
    assert(buckets.subrange(0, n) =~= buckets);
    assert(buckets.subrange(0, 0) =~= Seq::<Vec<Slot>>::empty());
    assert forall|v: int| 0 <= v < n implies base(buckets, v + 1) == base(buckets, v) + buckets[v]@.len()
        && base(buckets, v + 1) <= 2 * edges.len() by {
        lemma_total_prefix(buckets, v);
        lemma_base_monotone(buckets, v + 1, n);
    }
    // every record stems from an edge
    assert forall|u: int, j: int| #[trigger] g.in_range(u, j) implies record_known(g, edges, u, j) by {
        let k = j - base(buckets, u);
        let slot = buckets[u]@[k];
        assert(bucket_written(g.edges@, &g.data, edges, buckets, u, buckets[u]@.len() as int));
        assert(record_ok(g.edges@, &g.data, edges, buckets[u]@[k], base(buckets, u) + k));
        assert(bucket_ok(edges, u, buckets[u]@));
        assert(slot_ok(edges, u, buckets[u]@[k]));
        assert(stems_from(g, edges, u, j, slot.position as int, slot.forward));
    }
    // every edge has left its records
    assert forall|position: int, forward: bool| 0 <= position < edges.len() implies #[trigger] has_record(
        g,
        edges,
        position,
        forward,
    ) by {
        let u = slot_owner(edges[position], forward) as int;
        let x = slot_of(edges[position], position, forward);
        assert(valid_edge(edges[position], n));
        assert(buckets[u]@.contains(x));
        let k = choose|k: int| 0 <= k < buckets[u]@.len() && buckets[u]@[k] == x;
        let j = base(buckets, u) + k;
        assert(bucket_written(g.edges@, &g.data, edges, buckets, u, buckets[u]@.len() as int));
        assert(record_ok(g.edges@, &g.data, edges, buckets[u]@[k], j));
        assert(g.in_range(u, j));
        assert(stems_from(g, edges, u, j, position, forward));
    }
    // the structure
    assert forall|j: int| 0 <= j < g.edges@.len() implies (#[trigger] g.edges@[j]).target_node.0
        < g.nodes@.len() && g.edges@[j].edge_weight > 0 && g.edges@[j].edge_id == j by {
        lemma_owner_exists(buckets, j);
        let u = choose|u: int|
            0 <= u < buckets.len() && #[trigger] base(buckets, u) <= j < base(buckets, u + 1);
        assert(g.in_range(u, j));
        assert(record_known(g, edges, u, j));
        let (position, forward) = choose|position: int, forward: bool| #[trigger]
            stems_from(g, edges, u, j, position, forward);
        assert(valid_edge(edges[position], n));
    }
    assert forall|u: int| 0 <= u < g.nodes@.len() implies (#[trigger] g.nodes@[u]).start_edge_index
        <= g.nodes@[u].last_edge_index && g.nodes@[u].last_edge_index <= g.edges@.len() by {}
    assert(g.wf());
    assert(g.partitioned());
    assert forall|u: int, i: int, j: int|
        #[trigger] g.in_range(u, i) && #[trigger] g.in_range(u, j) && i < j implies crate::graph::record_le(
        g.edges@[i],
        g.edges@[j],
    ) by {
        let a = i - base(buckets, u);
        let b = j - base(buckets, u);
        assert(bucket_written(g.edges@, &g.data, edges, buckets, u, buckets[u]@.len() as int));
        assert(record_ok(g.edges@, &g.data, edges, buckets[u]@[a], base(buckets, u) + a));
        assert(record_ok(g.edges@, &g.data, edges, buckets[u]@[b], base(buckets, u) + b));
        assert(bucket_ok(edges, u, buckets[u]@));
        assert(slot_ok(edges, u, buckets[u]@[a]));
        assert(slot_ok(edges, u, buckets[u]@[b]));
        assert(slot_le(buckets[u]@[a], buckets[u]@[b]));
    }
}

/// Every record index lies in the range of one node.
proof fn lemma_owner_exists(buckets: Seq<Vec<Slot>>, j: int)
    requires
        0 <= j < total_slots(buckets),
    ensures
        exists|u: int| 0 <= u < buckets.len() && #[trigger] base(buckets, u) <= j < base(buckets, u + 1),
    decreases buckets.len(),
{
    let n = buckets.len() as int;
    assert(buckets.subrange(0, n) =~= buckets);
    if n > 0 {
        lemma_total_prefix(buckets, n - 1);
        if j >= base(buckets, n - 1) {
            assert(base(buckets, n - 1) <= j < base(buckets, n - 1 + 1));
        } else {
            let head = buckets.drop_last();
            assert(head =~= buckets.subrange(0, n - 1));
            lemma_owner_exists(head, j);
            let u = choose|u: int| 0 <= u < head.len() && #[trigger] base(head, u) <= j < base(head, u + 1);
            assert(head.subrange(0, u) =~= buckets.subrange(0, u));
            assert(head.subrange(0, u + 1) =~= buckets.subrange(0, u + 1));
            assert(base(buckets, u) <= j < base(buckets, u + 1));
        }
    }
}

impl<V: NodeBuilder, E: EdgeBuilder> DirectedNetworkBuilder<V, E> {
    /// Whether a graph can be built: no two edges between the same nodes
    /// disagreed on their direction, every edge joins nodes that were
    /// added and has a positive weight that fits 32 bits, and the records
    /// can be numbered with 32 bits.
    pub open spec fn valid_input(&self) -> bool {
        &&& !self.conflicted()
        &&& 2 * self.edge_list().len() <= u32::MAX
        &&& forall|i: int|
            0 <= i < self.edge_list().len() ==> valid_edge(
                #[trigger] self.edge_list()[i],
                self.node_list().len() as int,
            )
    }

    /// Decides whether a graph can be built.
    fn validate(&self) -> (r: bool)
        requires
            self.wf(),
        ensures
            r == self.valid_input(),
    {
        if self.conflict || self.edges.len() > (u32::MAX as usize) / 2 {
            return false;
        }
        let n = self.nodes.len();
        let mut i: usize = 0;
        while i < self.edges.len()
            invariant
                i <= self.edges@.len(),
                n == self.nodes@.len(),
                forall|k: int| 0 <= k < i ==> valid_edge(#[trigger] self.edges@[k], n as int),
            decreases self.edges@.len() - i,
        {
            let edge = &self.edges[i];
            let weight = edge.weight();
            if edge.source().0 as usize >= n || edge.target().0 as usize >= n || weight == 0 || weight
                > u32::MAX as u64 {
                assert(!valid_edge(self.edges@[i as int], n as int));
                return false;
            }
            i += 1;
        }
        true
    }

    /// Builds the graph of the nodes and edges that were added. Every edge
    /// leaves a record at its source, tagged forward, and one at its
    /// target, tagged backward; a bidirectional edge leaves two records
    /// tagged as such. The records of a node lie side by side, ordered by
    /// tag and then by the node at the other end.
    pub fn build<D: NetworkData<NodeData = V::Data, EdgeData = E::Data>>(self) -> (r: Result<
        DirectedNetworkGraph<D>,
        GraphError,
    >)
        requires
            self.wf(),
        ensures
            r is Ok <==> self.valid_input(),
            r is Ok ==> built_from(&r->Ok_0, self.node_list(), self.edge_list()),
            r is Err ==> r->Err_0 == GraphError::InvalidInput,
    {
        if !self.validate() {
            return Err(GraphError::InvalidInput);
        }
        let buckets = fill_buckets(&self.edges, self.nodes.len());
        let (nodes, edges, data) = emit::<V, E, D>(&self.nodes, &self.edges, &buckets);
        let graph = DirectedNetworkGraph::new(nodes, edges, data);
        proof {
            lemma_emitted_is_built::<V, E, D>(&graph, self.nodes@, self.edges@, buckets@);
        }
        Ok(graph)
    }
}

} // verus!
