//! The immutable graph store: a node array and an edge array in which the
//! records of one node lie side by side.

use vstd::prelude::*;
use crate::direction::EdgeDirection;
use crate::ids::{EdgeId, NodeId};
use crate::node_data::NetworkData;
use crate::shortcut::ShortcutState;

verus! {

/// A node of the graph: the half-open range of its edge records.
#[derive(Debug, PartialEq, Eq, Clone, Copy, Structural)]
pub struct NetworkNode {
    /// Index of the first edge record of this node.
    pub start_edge_index: u32,
    /// Index one past the last edge record of this node.
    pub last_edge_index: u32,
}

impl NetworkNode {
    pub fn new(start_edge_index: u32, last_edge_index: u32) -> (r: Self)
        ensures
            r.start_edge_index == start_edge_index,
            r.last_edge_index == last_edge_index,
    {
        Self { start_edge_index, last_edge_index }
    }
}

/// An edge record, stored with the node it is incident to. `target_node` is
/// the other endpoint; `direction` says how the record is traversed from the
/// node that stores it.
#[derive(Debug, PartialEq, Eq, Clone, Copy, Structural)]
pub struct NetworkEdge {
    pub edge_id: u32,
    pub target_node: NodeId,
    pub edge_weight: u32,
    pub direction: EdgeDirection,
}

impl NetworkEdge {
    pub fn new(data_id: u32, target_node: NodeId, edge_weight: u32, direction: EdgeDirection) -> (r:
        Self)
        ensures
            r == (NetworkEdge { edge_id: data_id, target_node, edge_weight, direction }),
    {
        Self { edge_id: data_id, target_node, edge_weight, direction }
    }

    /// The other endpoint of the record.
    pub fn target(&self) -> (r: NodeId)
        ensures
            r == self.target_node,
    {
        self.target_node
    }

    /// The length of the edge.
    pub fn weight(&self) -> (r: u32)
        ensures
            r == self.edge_weight,
    {
        self.edge_weight
    }

    /// The length of the edge.
    pub fn distance(&self) -> (r: u32)
        ensures
            r == self.edge_weight,
    {
        self.edge_weight
    }

    /// How the record is traversed from the node that stores it.
    pub fn direction(&self) -> (r: EdgeDirection)
        ensures
            r == self.direction,
    {
        self.direction
    }
}

/// A directed graph in adjacency-array form. It is never changed after it
/// has been made.
#[derive(Debug, PartialEq, Eq, Clone)]
pub struct DirectedNetworkGraph<D> {
    pub data: D,
    pub nodes: Vec<NetworkNode>,
    pub edges: Vec<NetworkEdge>,
}

/// The records among `edges[lo..hi]` that a search in direction `dir`
/// traverses, each with its index, in storage order.
pub open spec fn select_records(
    edges: Seq<NetworkEdge>,
    dir: EdgeDirection,
    lo: int,
    hi: int,
) -> Seq<(EdgeId, NetworkEdge)>
    decreases hi - lo,
{
    if lo >= hi {
        Seq::empty()
    } else if edges[hi - 1].direction.admits(dir) {
        select_records(edges, dir, lo, hi - 1).push((EdgeId((hi - 1) as u32), edges[hi - 1]))
    } else {
        select_records(edges, dir, lo, hi - 1)
    }
}

impl<D> DirectedNetworkGraph<D> {
    /// Number of nodes.
    pub open spec fn node_total(&self) -> int {
        self.nodes@.len() as int
    }

    /// Number of edge records.
    pub open spec fn edge_total(&self) -> int {
        self.edges@.len() as int
    }

    /// The arrays fit 32-bit indices, every node's range lies inside the edge
    /// array, every record points at a node and has a positive weight.
    pub open spec fn wf(&self) -> bool {
        &&& self.nodes@.len() <= u32::MAX
        &&& self.edges@.len() <= u32::MAX
        &&& forall|u: int|
            0 <= u < self.nodes@.len() ==> (#[trigger] self.nodes@[u]).start_edge_index
                <= self.nodes@[u].last_edge_index && self.nodes@[u].last_edge_index
                <= self.edges@.len()
        &&& forall|j: int|
            0 <= j < self.edges@.len() ==> (#[trigger] self.edges@[j]).target_node.0
                < self.nodes@.len() && self.edges@[j].edge_weight > 0
    }

    /// The ranges of the nodes follow one another and cover the edge array.
    pub open spec fn partitioned(&self) -> bool {
        &&& self.nodes@.len() == 0 ==> self.edges@.len() == 0
        &&& self.nodes@.len() > 0 ==> self.nodes@[0].start_edge_index == 0
            && self.nodes@[self.nodes@.len() - 1].last_edge_index == self.edges@.len()
        &&& forall|u: int|
            0 <= u < self.nodes@.len() - 1 ==> (#[trigger] self.nodes@[u]).last_edge_index
                == self.nodes@[u + 1].start_edge_index
    }

    /// Whether record `j` lies in the range of node `u`.
    pub open spec fn in_range(&self, u: int, j: int) -> bool {
        &&& 0 <= u < self.nodes@.len()
        &&& self.nodes@[u].start_edge_index <= j < self.nodes@[u].last_edge_index
    }

    /// Within every node's range the records are ordered by direction tag and
    /// then by target.
    pub open spec fn sorted(&self) -> bool {
        forall|u: int, i: int, j: int|
            #[trigger] self.in_range(u, i) && #[trigger] self.in_range(u, j) && i < j ==> record_le(
                self.edges@[i],
                self.edges@[j],
            )
    }

    /// Every record carries its own index as its id.
    pub open spec fn ids_dense(&self) -> bool {
        forall|j: int|
            0 <= j < self.edges@.len() ==> (#[trigger] self.edges@[j]).edge_id == j
    }

    /// Record `j` belongs to node `u` and a search in direction `dir`
    /// traverses it from `u`.
    pub open spec fn arc(&self, dir: EdgeDirection, u: int, j: int) -> bool {
        &&& 0 <= u < self.nodes@.len()
        &&& self.nodes@[u].start_edge_index <= j < self.nodes@[u].last_edge_index
        &&& self.edges@[j].direction.admits(dir)
    }

    /// The records of node `u` that a search in direction `dir` traverses.
    pub open spec fn records(&self, dir: EdgeDirection, u: int) -> Seq<(EdgeId, NetworkEdge)> {
        select_records(
            self.edges@,
            dir,
            self.nodes@[u].start_edge_index as int,
            self.nodes@[u].last_edge_index as int,
        )
    }

    pub fn new(nodes: Vec<NetworkNode>, edges: Vec<NetworkEdge>, data: D) -> (r: Self)
        ensures
            r.nodes == nodes,
            r.edges == edges,
            r.data == data,
    {
        Self { data, nodes, edges }
    }

    /// Whether the arrays form a well-formed graph.
    pub fn is_valid(&self) -> (r: bool)
        ensures
            r == self.wf(),
    {
        let n = self.nodes.len();
        let m = self.edges.len();
        if n > u32::MAX as usize || m > u32::MAX as usize {
            return false;
        }
        let mut u: usize = 0;
        while u < n
            invariant
                u <= n,
                n == self.nodes@.len(),
                m == self.edges@.len(),
                forall|k: int|
                    0 <= k < u ==> (#[trigger] self.nodes@[k]).start_edge_index
                        <= self.nodes@[k].last_edge_index && self.nodes@[k].last_edge_index <= m,
            decreases n - u,
        {
            let node = &self.nodes[u];
            if node.start_edge_index > node.last_edge_index || node.last_edge_index as usize > m {
                return false;
            }
            u += 1;
        }
        let mut j: usize = 0;
        while j < m
            invariant
                j <= m,
                n == self.nodes@.len(),
                m == self.edges@.len(),
                forall|k: int|
                    0 <= k < j ==> (#[trigger] self.edges@[k]).target_node.0 < n
                        && self.edges@[k].edge_weight > 0,
            decreases m - j,
        {
            let edge = &self.edges[j];
            if edge.target_node.0 as usize >= n || edge.edge_weight == 0 {
                return false;
            }
            j += 1;
        }
        true
    }

    pub fn node_count(&self) -> (r: usize)
        ensures
            r == self.node_total(),
    {
        self.nodes.len()
    }

    pub fn edge_count(&self) -> (r: usize)
        ensures
            r == self.edge_total(),
    {
        self.edges.len()
    }

    pub fn node(&self, node: NodeId) -> (r: &NetworkNode)
        requires
            node.0 < self.node_total(),
        ensures
            *r == self.nodes@[node.0 as int],
    {
        &self.nodes[node.0 as usize]
    }

    pub fn nodes(&self) -> (r: &Vec<NetworkNode>)
        ensures
            r@ == self.nodes@,
    {
        &self.nodes
    }

    pub fn edge(&self, edge: EdgeId) -> (r: &NetworkEdge)
        requires
            edge.0 < self.edge_total(),
        ensures
            *r == self.edges@[edge.0 as int],
    {
        &self.edges[edge.0 as usize]
    }

    pub fn edges(&self) -> (r: &Vec<NetworkEdge>)
        ensures
            r@ == self.edges@,
    {
        &self.edges
    }

    fn create_iterator_raw(&self, node: &NetworkNode, direction: EdgeDirection) -> (r: Vec<
        (EdgeId, NetworkEdge),
    >)
        requires
            node.start_edge_index <= node.last_edge_index <= self.edge_total(),
        ensures
            r@ == select_records(
                self.edges@,
                direction,
                node.start_edge_index as int,
                node.last_edge_index as int,
            ),
    {
        let mut out: Vec<(EdgeId, NetworkEdge)> = Vec::new();
        let mut j: u32 = node.start_edge_index;
        while j < node.last_edge_index
            invariant
                node.start_edge_index <= j <= node.last_edge_index <= self.edges@.len(),
                out@ == select_records(
                    self.edges@,
                    direction,
                    node.start_edge_index as int,
                    j as int,
                ),
            decreases node.last_edge_index - j,
        {
            let edge = self.edges[j as usize];
            if edge.direction.matches_search(direction) {
                out.push((EdgeId(j), edge));
            }
            j += 1;
        }
        out
    }

    /// The records that leave `node`: those tagged forward or bidirectional,
    /// each with its index, in storage order.
    pub fn out_edges(&self, node: NodeId) -> (r: Vec<(EdgeId, NetworkEdge)>)
        requires
            self.wf(),
            node.0 < self.node_total(),
        ensures
            r@ == self.records(EdgeDirection::Forward, node.0 as int),
    {
        self.create_iterator_raw(&self.nodes[node.0 as usize], EdgeDirection::Forward)
    }

    /// As `out_edges`, for a node given by its range.
    pub fn out_edges_raw(&self, node: &NetworkNode) -> (r: Vec<(EdgeId, NetworkEdge)>)
        requires
            node.start_edge_index <= node.last_edge_index <= self.edge_total(),
        ensures
            r@ == select_records(
                self.edges@,
                EdgeDirection::Forward,
                node.start_edge_index as int,
                node.last_edge_index as int,
            ),
    {
        self.create_iterator_raw(node, EdgeDirection::Forward)
    }

    /// The records that enter `node`: those tagged backward or bidirectional,
    /// each with its index, in storage order.
    pub fn in_edges(&self, node: NodeId) -> (r: Vec<(EdgeId, NetworkEdge)>)
        requires
            self.wf(),
            node.0 < self.node_total(),
        ensures
            r@ == self.records(EdgeDirection::Backward, node.0 as int),
    {
        self.create_iterator_raw(&self.nodes[node.0 as usize], EdgeDirection::Backward)
    }

    /// As `in_edges`, for a node given by its range.
    pub fn in_edges_raw(&self, node: &NetworkNode) -> (r: Vec<(EdgeId, NetworkEdge)>)
        requires
            node.start_edge_index <= node.last_edge_index <= self.edge_total(),
        ensures
            r@ == select_records(
                self.edges@,
                EdgeDirection::Backward,
                node.start_edge_index as int,
                node.last_edge_index as int,
            ),
    {
        self.create_iterator_raw(node, EdgeDirection::Backward)
    }
}

/// Storage order of two records of one node: by direction tag, then by
/// target.
pub open spec fn record_le(a: NetworkEdge, b: NetworkEdge) -> bool {
    a.direction.rank() < b.direction.rank() || (a.direction == b.direction && a.target_node.0
        <= b.target_node.0)
}

/// Every selected record is a record of the range that the search traverses,
/// and every such record is selected.
pub proof fn lemma_select_records_sound(
    edges: Seq<NetworkEdge>,
    dir: EdgeDirection,
    lo: int,
    hi: int,
)
    requires
        0 <= lo <= hi <= edges.len() <= u32::MAX,
    ensures
        forall|k: int|
            0 <= k < select_records(edges, dir, lo, hi).len() ==> {
                let (id, e) = #[trigger] select_records(edges, dir, lo, hi)[k];
                lo <= id.0 < hi && e == edges[id.0 as int] && e.direction.admits(dir)
            },
        forall|j: int|
            lo <= j < hi && edges[j].direction.admits(dir) ==> select_records(
                edges,
                dir,
                lo,
                hi,
            ).contains((EdgeId(j as u32), #[trigger] edges[j])),
    decreases hi - lo,
{
    if lo < hi {
        lemma_select_records_sound(edges, dir, lo, hi - 1);
        let prev = select_records(edges, dir, lo, hi - 1);
        let cur = select_records(edges, dir, lo, hi);
        assert forall|j: int| lo <= j < hi && edges[j].direction.admits(dir) implies cur.contains(
            (EdgeId(j as u32), #[trigger] edges[j]),
        ) by {
            if j < hi - 1 {
                let k = choose|k: int|
                    0 <= k < prev.len() && prev[k] == (EdgeId(j as u32), edges[j]);
                assert(cur[k] == prev[k]);
            } else {
                assert(cur[cur.len() - 1] == (EdgeId(j as u32), edges[j]));
            }
        }
    }
}

/// In a graph whose ranges follow one another, every record lies in the
/// range of a node.
pub proof fn lemma_record_has_owner<D>(g: &DirectedNetworkGraph<D>, j: int)
    requires
        g.wf(),
        g.partitioned(),
        0 <= j < g.edge_total(),
    ensures
        exists|u: int| #[trigger] g.in_range(u, j),
{
    lemma_owner_below(g, j, g.node_total() - 1);
}

proof fn lemma_owner_below<D>(g: &DirectedNetworkGraph<D>, j: int, top: int)
    requires
        g.wf(),
        g.partitioned(),
        0 <= top < g.node_total(),
        0 <= j < g.nodes@[top].last_edge_index,
    ensures
        exists|u: int| #[trigger] g.in_range(u, j),
    decreases top,
{
    if j >= g.nodes@[top].start_edge_index {
        assert(g.in_range(top, j));
    } else {
        assert(top > 0);
        assert(g.nodes@[top - 1].last_edge_index == g.nodes@[top - 1 + 1].start_edge_index);
        lemma_owner_below(g, j, top - 1);
    }
}

impl<D: NetworkData> DirectedNetworkGraph<D> {
    /// The data that the store keeps of `edge`.
    pub fn edge_data(&self, edge: EdgeId) -> (r: &D::EdgeData)
        requires
            self.data.has_edge(edge),
        ensures
            r@ == self.data.edge_view(edge),
    {
        self.data.edge_data(edge)
    }

    /// The data that the store keeps of `node`.
    pub fn node_data(&self, node: NodeId) -> (r: &D::NodeData)
        requires
            self.data.has_node(node),
        ensures
            r@ == self.data.node_view(node),
    {
        self.data.node_data(node)
    }

    /// The provenance of `edge`: the one base road section for which it
    /// stands, or the chain of them, in order.
    pub fn edge_provenance(&self, edge: EdgeId) -> (r: ShortcutState<usize>)
        requires
            self.data.has_edge(edge),
        ensures
            r@ == self.data.road_chain(edge),
    {
        self.data.edge_road_id(edge)
    }
}

} // verus!
