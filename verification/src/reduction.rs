//! The edge reduction, source by source and edge by edge. Every kept edge
//! is merged into the intermediate graph in its turn, so the graph that
//! the reduction makes of a graph is one, down to the order of its
//! neighbour lists.

use vstd::prelude::*;
use crate::contraction::same_shape;
use crate::dag::VisitedState;
use crate::direction::EdgeDirection;
use crate::graph::DirectedNetworkGraph;
use crate::ids::{EdgeId, NodeId};
use crate::intermediate::{edge_key, EdgeView, IntermediateNetwork};
use crate::layer::single_edge;
use crate::neighbourhood::{is_radius, lemma_radius_monotone};
use crate::node_data::NetworkData;
use crate::phase_one::sweep;
use crate::search_steps::{lemma_retained_is_determined, searched};

verus! {

/// Whether `net` has no node and no edge.
pub open spec fn blank(net: &IntermediateNetwork) -> bool {
    &&& net.edge_map() == Map::<u64, EdgeView>::empty()
    &&& forall|v: NodeId| !net.has_node(v)
    &&& forall|v: NodeId| #[trigger] net.out_neighbours(v) == Seq::<u32>::empty()
    &&& forall|v: NodeId| #[trigger] net.in_neighbours(v) == Seq::<u32>::empty()
}

/// Whether `after` is `before` with the edge `e` merged into it: `e`
/// comes in unless an edge that is no heavier joins the same nodes
/// already, its ends become nodes, and where no edge joined them before,
/// each end is added at the end of the neighbour list of the other.
pub open spec fn merged_into(
    before: &IntermediateNetwork,
    e: EdgeView,
    after: &IntermediateNetwork,
) -> bool {
    let k = edge_key(e.source, e.target);
    &&& after.edge_map() == if before.edge_map().contains_key(k) && before.edge_map()[k].weight
        <= e.weight {
        before.edge_map()
    } else {
        before.edge_map().insert(k, e)
    }
    &&& forall|v: NodeId| after.has_node(v) == (before.has_node(v) || v == e.source || v == e.target)
    &&& forall|v: NodeId|
        #[trigger] after.out_neighbours(v) == if v == e.source && !before.edge_map().contains_key(k) {
            before.out_neighbours(v).push(e.target.0)
        } else {
            before.out_neighbours(v)
        }
    &&& forall|v: NodeId|
        #[trigger] after.in_neighbours(v) == if v == e.target && !before.edge_map().contains_key(k) {
            before.in_neighbours(v).push(e.source.0)
        } else {
            before.in_neighbours(v)
        }
}

/// Whether `nets` are the graphs that merging the edge records of `list`
/// goes through, one after another.
pub open spec fn merge_trace<D: NetworkData>(
    g: &DirectedNetworkGraph<D>,
    list: Seq<(NodeId, EdgeId)>,
    nets: Seq<IntermediateNetwork>,
) -> bool {
    &&& nets.len() == list.len() + 1
    &&& forall|i: int|
        0 <= i < list.len() ==> merged_into(
            &#[trigger] nets[i],
            single_edge(g, list[i].0, list[i].1),
            &nets[i + 1],
        )
}

/// Whether `after` is `before` with the edge records of `list` merged
/// into it, in their order.
pub open spec fn merged_all<D: NetworkData>(
    g: &DirectedNetworkGraph<D>,
    before: &IntermediateNetwork,
    list: Seq<(NodeId, EdgeId)>,
    after: &IntermediateNetwork,
) -> bool {
    exists|nets: Seq<IntermediateNetwork>| #[trigger]
        merge_trace(g, list, nets) && nets[0] == *before && nets[list.len() as int] == *after
}

/// Whether `list` holds the edges that the search from `s0` finds worth
/// keeping, in the order in which the sweep finds them.
pub open spec fn kept_from<D>(
    g: &DirectedNetworkGraph<D>,
    s0: NodeId,
    forward: Seq<u64>,
    backward: Seq<u64>,
    list: Seq<(NodeId, EdgeId)>,
) -> bool {
    exists|order: Seq<(NodeId, (EdgeId, u64))>, visited: Map<u32, VisitedState>| #[trigger]
        searched(g, s0, forward, backward, order, visited) && list == sweep(
            order,
            visited,
            forward[s0.0 as int],
            backward,
        ).1
}

/// Whether `net` is what the reduction has made once the searches from
/// the first `n` nodes are merged, in ascending order of their sources.
pub open spec fn reduced_upto<D: NetworkData>(
    g: &DirectedNetworkGraph<D>,
    forward: Seq<u64>,
    backward: Seq<u64>,
    n: int,
    net: &IntermediateNetwork,
) -> bool
    decreases n,
{
    if n <= 0 {
        blank(net)
    } else {
        exists|prev: IntermediateNetwork, list: Seq<(NodeId, EdgeId)>|
            #![trigger merged_all(g, &prev, list, net)]
            reduced_upto(g, forward, backward, n - 1, &prev) && kept_from(
                g,
                NodeId((n - 1) as u32),
                forward,
                backward,
                list,
            ) && merged_all(g, &prev, list, net)
    }
}

/// A trace of merged edges goes on by one edge.
pub proof fn lemma_merge_grows<D: NetworkData>(
    g: &DirectedNetworkGraph<D>,
    list: Seq<(NodeId, EdgeId)>,
    nets: Seq<IntermediateNetwork>,
    pair: (NodeId, EdgeId),
    next: IntermediateNetwork,
)
    requires
        merge_trace(g, list, nets),
        merged_into(&nets[list.len() as int], single_edge(g, pair.0, pair.1), &next),
    ensures
        merge_trace(g, list.push(pair), nets.push(next)),
        nets.push(next)[0] == nets[0],
        nets.push(next)[list.push(pair).len() as int] == next,
{
    let longer = list.push(pair);
    let grown = nets.push(next);
    assert forall|i: int| 0 <= i < longer.len() implies merged_into(
        &#[trigger] grown[i],
        single_edge(g, longer[i].0, longer[i].1),
        &grown[i + 1],
    ) by {
        assert(grown[i] == nets[i]);
        if i < list.len() {
            assert(grown[i + 1] == nets[i + 1]);
            assert(longer[i] == list[i]);
        } else {
            assert(grown[i + 1] == next);
            assert(longer[i] == pair);
        }
    }
}

/// Merging one edge into two graphs that look alike leaves graphs that
/// look alike.
proof fn lemma_merge_agrees(
    a: &IntermediateNetwork,
    b: &IntermediateNetwork,
    e: EdgeView,
    a_next: &IntermediateNetwork,
    b_next: &IntermediateNetwork,
)
    requires
        same_shape(a, b),
        merged_into(a, e, a_next),
        merged_into(b, e, b_next),
    ensures
        same_shape(a_next, b_next),
{
    assert forall|v: NodeId| #[trigger] a_next.out_neighbours(v) == b_next.out_neighbours(v) by {
        assert(a.out_neighbours(v) == b.out_neighbours(v));
    }
    assert forall|v: NodeId| #[trigger] a_next.in_neighbours(v) == b_next.in_neighbours(v) by {
        assert(a.in_neighbours(v) == b.in_neighbours(v));
    }
}

/// Merging one list of edges into two graphs that look alike leaves
/// graphs that look alike, edge after edge.
proof fn lemma_traces_agree<D: NetworkData>(
    g: &DirectedNetworkGraph<D>,
    list: Seq<(NodeId, EdgeId)>,
    nets_a: Seq<IntermediateNetwork>,
    nets_b: Seq<IntermediateNetwork>,
    i: int,
)
    requires
        merge_trace(g, list, nets_a),
        merge_trace(g, list, nets_b),
        same_shape(&nets_a[0], &nets_b[0]),
        0 <= i <= list.len(),
    ensures
        same_shape(&nets_a[i], &nets_b[i]),
    decreases i,
{
    if i > 0 {
        lemma_traces_agree(g, list, nets_a, nets_b, i - 1);
        let e = single_edge(g, list[i - 1].0, list[i - 1].1);
        assert(merged_into(&nets_a[i - 1], e, &nets_a[i - 1 + 1]));
        assert(merged_into(&nets_b[i - 1], e, &nets_b[i - 1 + 1]));
        lemma_merge_agrees(&nets_a[i - 1], &nets_b[i - 1], e, &nets_a[i], &nets_b[i]);
    }
}

/// The edges that a search finds worth keeping are one list.
pub proof fn lemma_kept_is_one<D>(
    g: &DirectedNetworkGraph<D>,
    s0: NodeId,
    forward: Seq<u64>,
    backward: Seq<u64>,
    a: Seq<(NodeId, EdgeId)>,
    b: Seq<(NodeId, EdgeId)>,
)
    requires
        kept_from(g, s0, forward, backward, a),
        kept_from(g, s0, forward, backward, b),
    ensures
        a == b,
{
    let (order_a, visited_a) = choose|
        order: Seq<(NodeId, (EdgeId, u64))>,
        visited: Map<u32, VisitedState>,
    | #[trigger]
        searched(g, s0, forward, backward, order, visited) && a == sweep(
            order,
            visited,
            forward[s0.0 as int],
            backward,
        ).1;
    let (order_b, visited_b) = choose|
        order: Seq<(NodeId, (EdgeId, u64))>,
        visited: Map<u32, VisitedState>,
    | #[trigger]
        searched(g, s0, forward, backward, order, visited) && b == sweep(
            order,
            visited,
            forward[s0.0 as int],
            backward,
        ).1;
    lemma_retained_is_determined(
        g,
        s0,
        forward,
        backward,
        order_a,
        visited_a,
        order_b,
        visited_b,
        forward[s0.0 as int],
    );
}

/// Two reductions of one graph with the same radii look alike, as far as
/// both have come.
pub proof fn lemma_reduced_upto_agrees<D: NetworkData>(
    g: &DirectedNetworkGraph<D>,
    forward: Seq<u64>,
    backward: Seq<u64>,
    n: int,
    a: &IntermediateNetwork,
    b: &IntermediateNetwork,
)
    requires
        reduced_upto(g, forward, backward, n, a),
        reduced_upto(g, forward, backward, n, b),
    ensures
        same_shape(a, b),
    decreases n,
{
    if n > 0 {
        let (prev_a, list_a) = choose|prev: IntermediateNetwork, list: Seq<(NodeId, EdgeId)>|
            #![trigger merged_all(g, &prev, list, a)]
            reduced_upto(g, forward, backward, n - 1, &prev) && kept_from(
                g,
                NodeId((n - 1) as u32),
                forward,
                backward,
                list,
            ) && merged_all(g, &prev, list, a);
        let (prev_b, list_b) = choose|prev: IntermediateNetwork, list: Seq<(NodeId, EdgeId)>|
            #![trigger merged_all(g, &prev, list, b)]
            reduced_upto(g, forward, backward, n - 1, &prev) && kept_from(
                g,
                NodeId((n - 1) as u32),
                forward,
                backward,
                list,
            ) && merged_all(g, &prev, list, b);
        lemma_reduced_upto_agrees(g, forward, backward, n - 1, &prev_a, &prev_b);
        lemma_kept_is_one(g, NodeId((n - 1) as u32), forward, backward, list_a, list_b);
        let nets_a = choose|nets: Seq<IntermediateNetwork>| #[trigger]
            merge_trace(g, list_a, nets) && nets[0] == prev_a && nets[list_a.len() as int] == *a;
        let nets_b = choose|nets: Seq<IntermediateNetwork>| #[trigger]
            merge_trace(g, list_b, nets) && nets[0] == prev_b && nets[list_b.len() as int] == *b;
        lemma_traces_agree(g, list_a, nets_a, nets_b, list_a.len() as int);
    }
}

/// The radii of a graph for one size are one pair of tables.
pub proof fn lemma_radii_are_one<D>(
    g: &DirectedNetworkGraph<D>,
    size: int,
    forward_a: Seq<u64>,
    backward_a: Seq<u64>,
    forward_b: Seq<u64>,
    backward_b: Seq<u64>,
)
    requires
        forward_a.len() == g.node_total(),
        forward_b.len() == g.node_total(),
        backward_a.len() == g.node_total(),
        backward_b.len() == g.node_total(),
        forall|v: int|
            0 <= v < g.node_total() ==> is_radius(
                g,
                EdgeDirection::Forward,
                v,
                size,
                #[trigger] forward_a[v] as int,
            ),
        forall|v: int|
            0 <= v < g.node_total() ==> is_radius(
                g,
                EdgeDirection::Forward,
                v,
                size,
                #[trigger] forward_b[v] as int,
            ),
        forall|v: int|
            0 <= v < g.node_total() ==> is_radius(
                g,
                EdgeDirection::Backward,
                v,
                size,
                #[trigger] backward_a[v] as int,
            ),
        forall|v: int|
            0 <= v < g.node_total() ==> is_radius(
                g,
                EdgeDirection::Backward,
                v,
                size,
                #[trigger] backward_b[v] as int,
            ),
    ensures
        forward_a == forward_b,
        backward_a == backward_b,
{
    assert forall|v: int| 0 <= v < g.node_total() implies forward_a[v] == forward_b[v] by {
        lemma_radius_monotone(g, EdgeDirection::Forward, v, size, size, forward_a[v] as int, forward_b[v] as int);
        lemma_radius_monotone(g, EdgeDirection::Forward, v, size, size, forward_b[v] as int, forward_a[v] as int);
    }
    assert forall|v: int| 0 <= v < g.node_total() implies backward_a[v] == backward_b[v] by {
        lemma_radius_monotone(g, EdgeDirection::Backward, v, size, size, backward_a[v] as int, backward_b[v] as int);
        lemma_radius_monotone(g, EdgeDirection::Backward, v, size, size, backward_b[v] as int, backward_a[v] as int);
    }
    assert(forward_a =~= forward_b);
    assert(backward_a =~= backward_b);
}

} // verus!
