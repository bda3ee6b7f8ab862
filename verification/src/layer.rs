//! Building one level of the hierarchy from the level below: edge
//! reduction, contraction, and the way back to the immutable graph.

use vstd::prelude::*;
use crate::builder::{
    backward_tag, built_from, edge_place, forward_tag, has_record, label_place,
    lemma_edge_place, lemma_label_place, node_written, record_known, slot_owner, stems_from,
    valid_edge, DirectedNetworkBuilder, GraphError, NodeBuilder,
};
use crate::direction::EdgeDirection;
use crate::graph::DirectedNetworkGraph;
use crate::ids::{EdgeId, NodeId};
use crate::intermediate::{
    as_nodes, edge_key, key_source, key_target, lemma_edge_key, lemma_key_decodes, EdgeView,
    IntermediateEdge, IntermediateNetwork, IntermediateNode,
};
use crate::lists::{lemma_list_len, list_ok};
use crate::node_data::{IntermediateData, NetworkData};
use crate::contraction::{
    core_network_with_patch, core_of, is_contracted, lemma_core_order, ContractionFactor,
};
use crate::neighbourhood::{is_radius, ComputedState};
use crate::paths::{connects, is_walk, walk_weight};
use crate::phase_one::{calculate_edges, search_outcome, sweep};
use crate::dag::VisitedState;
use crate::provenance::{
    all_conserve_weight, all_expand_to_walks, all_forward, as_records, capped, conserves_weight,
    expands_to_walk, keyed, lemma_bypass_all_keeps_provenance,
};
use crate::level_laws::lemma_level_outcome_is_one;
use crate::reduction::{
    kept_from, lemma_merge_grows, merge_trace, merged_all, merged_into, reduced_upto,
};
use crate::shortcut::{Provenance, ShortcutState};

verus! {

/// Whether record `j` of node `u` is the record that the intermediate edge
/// `e` leaves at its source (`forward`) or at its target: the nodes at its
/// two ends stand for the ends of `e`, and it has the weight and the
/// provenance of `e`.
pub open spec fn image_of(
    g: &DirectedNetworkGraph<IntermediateData>,
    e: EdgeView,
    u: int,
    j: int,
    forward: bool,
) -> bool {
    &&& g.in_range(u, j)
    &&& 0 <= j < g.edges@.len()
    &&& g.data.has_node(NodeId(u as u32))
    &&& g.data.has_node(g.edges@[j].target_node)
    &&& g.data.node_view(NodeId(u as u32)) == (if forward {
        e.source
    } else {
        e.target
    })
    &&& g.data.node_view(g.edges@[j].target_node) == (if forward {
        e.target
    } else {
        e.source
    })
    &&& g.edges@[j].direction == (if forward {
        forward_tag(e.direction)
    } else {
        backward_tag(e.direction)
    })
    &&& g.edges@[j].edge_weight == e.weight
    &&& g.data.has_edge(EdgeId(j as u32))
    &&& g.data.edge_view(EdgeId(j as u32)) == e.data
    &&& g.data.road_chain(EdgeId(j as u32)) == e.road_id
}

/// Whether record `j` of node `u` is a record of an edge of `m`.
pub open spec fn record_explained(
    g: &DirectedNetworkGraph<IntermediateData>,
    m: Map<u64, EdgeView>,
    u: int,
    j: int,
) -> bool {
    exists|k: u64, forward: bool| m.contains_key(k) && #[trigger] image_of(g, m[k], u, j, forward)
}

/// Whether the edge `e` has left its forward or its backward record in
/// `g`.
pub open spec fn has_image(g: &DirectedNetworkGraph<IntermediateData>, e: EdgeView, forward: bool) -> bool {
    exists|u: int, j: int| #[trigger] image_of(g, e, u, j, forward)
}

/// The node of the level below for which node `u` of `g` stands.
pub open spec fn preimage(g: &DirectedNetworkGraph<IntermediateData>, u: int) -> NodeId {
    g.data.node_view(NodeId(u as u32))
}

/// Whether node `u` of `g` stands for a node of `net`.
pub open spec fn stands_for_node(
    net: &IntermediateNetwork,
    g: &DirectedNetworkGraph<IntermediateData>,
    u: int,
) -> bool {
    g.data.has_node(NodeId(u as u32)) && net.has_node(preimage(g, u))
}

/// Whether an edge of `net` begins or ends at `v`.
pub open spec fn ends_edge(net: &IntermediateNetwork, v: NodeId) -> bool {
    exists|k: u64| #[trigger]
        net.edge_map().contains_key(k) && (key_source(k) == v || key_target(k) == v)
}

/// Whether a pair of `done` begins or ends at `v`.
pub open spec fn is_end(done: Seq<(NodeId, NodeId)>, v: NodeId) -> bool {
    exists|p: int| 0 <= p < done.len() && ((#[trigger] done[p]).0 == v || done[p].1 == v)
}

/// Whether `g` is the immutable form of `net`: its nodes stand for the
/// nodes of `net` that have an edge, each for another, and its records
/// are the records of the edges of `net`, two for every edge.
pub open spec fn converted(net: &IntermediateNetwork, g: &DirectedNetworkGraph<IntermediateData>) -> bool {
    &&& g.wf()
    &&& g.partitioned()
    &&& g.sorted()
    &&& g.ids_dense()
    &&& g.edge_total() == 2 * net.edge_map().len()
    &&& forall|u: int, j: int| #[trigger] g.in_range(u, j) ==> record_explained(g, net.edge_map(), u, j)
    &&& forall|k: u64, forward: bool|
        net.edge_map().contains_key(k) ==> #[trigger] has_image(g, net.edge_map()[k], forward)
    &&& forall|u: int| 0 <= u < g.node_total() ==> #[trigger] stands_for_node(net, g, u)
    &&& forall|u: int| 0 <= u < g.node_total() ==> ends_edge(net, #[trigger] preimage(g, u))
    &&& forall|u: int, v: int|
        0 <= u < v < g.node_total() ==> #[trigger] preimage(g, u) != #[trigger] preimage(g, v)
}

/// Whether `net` can be written as an immutable graph: every weight is
/// positive and fits 32 bits, and the records can be numbered with 32
/// bits.
pub open spec fn convertible(net: &IntermediateNetwork) -> bool {
    &&& 2 * net.edge_map().len() <= u32::MAX
    &&& forall|k: u64| #[trigger]
        net.edge_map().contains_key(k) ==> 0 < net.edge_map()[k].weight <= u32::MAX
}

/// Whether the pair at place `x` of the `a`-th node comes before the
/// cursor `(at, upto)`.
pub open spec fn before_cursor(a: int, x: int, at: int, upto: int) -> bool {
    a < at || (a == at && x < upto)
}

/// Whether the pair `pair` of a source and a target is the `x`-th edge of
/// the `a`-th node of `order`.
pub open spec fn pair_at(
    net: &IntermediateNetwork,
    order: Seq<NodeId>,
    pair: (NodeId, NodeId),
    a: int,
    x: int,
) -> bool {
    &&& 0 <= a < order.len()
    &&& 0 <= x < net.out_neighbours(order[a]).len()
    &&& pair.0 == order[a]
    &&& pair.1 == NodeId(net.out_neighbours(order[a])[x])
}

/// Whether the builder edge `b` is the edge of `net` between the nodes of
/// `pair`, renumbered with the places of those nodes in `nodes`.
pub open spec fn renamed(
    net: &IntermediateNetwork,
    nodes: Seq<IntermediateNode>,
    b: IntermediateEdge,
    pair: (NodeId, NodeId),
) -> bool {
    let k = edge_key(pair.0, pair.1);
    &&& net.edge_map().contains_key(k)
    &&& b.source.0 < nodes.len()
    &&& b.target.0 < nodes.len()
    &&& nodes[b.source.0 as int].0 == pair.0
    &&& nodes[b.target.0 as int].0 == pair.1
    &&& b.weight == net.edge_map()[k].weight
    &&& b.direction == net.edge_map()[k].direction
    &&& b.data@ == net.edge_map()[k].data
    &&& b.road_id@ == net.edge_map()[k].road_id
}

/// Whether `pair` is an edge that lies before the cursor.
pub open spec fn placed_before(
    net: &IntermediateNetwork,
    order: Seq<NodeId>,
    pair: (NodeId, NodeId),
    at: int,
    upto: int,
) -> bool {
    exists|a: int, x: int| #[trigger] pair_at(net, order, pair, a, x) && before_cursor(a, x, at, upto)
}

/// Whether the `x`-th edge of the `a`-th node is among `done`.
pub open spec fn covered(
    net: &IntermediateNetwork,
    order: Seq<NodeId>,
    done: Seq<(NodeId, NodeId)>,
    a: int,
    x: int,
) -> bool {
    exists|i: int| 0 <= i < done.len() && #[trigger] pair_at(net, order, done[i], a, x)
}

/// The invariant of the conversion when the cursor stands at the `upto`-th
/// edge of the `at`-th node.
pub open spec fn convert_inv(
    net: &IntermediateNetwork,
    order: Seq<NodeId>,
    nodes: Seq<IntermediateNode>,
    edges: Seq<IntermediateEdge>,
    done: Seq<(NodeId, NodeId)>,
    at: int,
    upto: int,
) -> bool {
    &&& edges.len() == done.len()
    &&& forall|i: int, j: int| 0 <= i < j < done.len() ==> #[trigger] done[i] != #[trigger] done[j]
    &&& forall|i: int, j: int| 0 <= i < j < nodes.len() ==> (#[trigger] nodes[i]).0 != (#[trigger] nodes[j]).0
    &&& forall|i: int| 0 <= i < nodes.len() ==> net.has_node((#[trigger] nodes[i]).0)
    &&& forall|i: int| 0 <= i < edges.len() ==> renamed(net, nodes, #[trigger] edges[i], done[i])
    &&& forall|i: int| 0 <= i < done.len() ==> placed_before(net, order, #[trigger] done[i], at, upto)
    &&& forall|a: int, x: int|
        0 <= a < order.len() && 0 <= x < net.out_neighbours(order[a]).len() && before_cursor(
            a,
            x,
            at,
            upto,
        ) ==> #[trigger] covered(net, order, done, a, x)
}

/// The labels of the builder's nodes.
pub open spec fn labels_of(nodes: Seq<IntermediateNode>) -> Seq<u32> {
    nodes.map_values(|n: IntermediateNode| n.0.0)
}

/// A node of the network that the builder does not know yet can still be
/// numbered.
proof fn lemma_room_for_node(net: &IntermediateNetwork, nodes: Seq<IntermediateNode>, u: NodeId)
    requires
        net.wf(),
        net.has_node(u),
        forall|i: int, j: int| 0 <= i < j < nodes.len() ==> (#[trigger] nodes[i]).0 != (#[trigger] nodes[j]).0,
        forall|i: int| 0 <= i < nodes.len() ==> net.has_node((#[trigger] nodes[i]).0),
        forall|i: int| 0 <= i < nodes.len() ==> (#[trigger] nodes[i]).0 != u,
    ensures
        nodes.len() < u32::MAX,
{
    net.lemma_wf();
    let list = labels_of(nodes).push(u.0);
    assert forall|i: int, j: int| 0 <= i < list.len() && 0 <= j < list.len() && i != j implies list[i]
        != list[j] by {
        if i < nodes.len() && j < nodes.len() {
            if i < j {
                assert(nodes[i].0 != nodes[j].0);
            } else {
                assert(nodes[j].0 != nodes[i].0);
            }
        } else if i < nodes.len() {
            assert(nodes[i].0 != u);
        } else {
            assert(nodes[j].0 != u);
        }
    }
    assert forall|i: int| 0 <= i < list.len() implies (#[trigger] list[i]) < net.slots() by {
        if i < nodes.len() {
            assert(net.has_node(nodes[i].0));
        }
    }
    assert(list_ok(list, net.slots()));
    lemma_list_len(list, net.slots());
}

/// What adding a node of the network to the builder's nodes does to them.
proof fn lemma_node_added(
    net: &IntermediateNetwork,
    nodes: Seq<IntermediateNode>,
    u: NodeId,
    place: int,
) -> (next: Seq<IntermediateNode>)
    requires
        net.has_node(u),
        forall|i: int, j: int| 0 <= i < j < nodes.len() ==> (#[trigger] nodes[i]).0 != (#[trigger] nodes[j]).0,
        forall|i: int| 0 <= i < nodes.len() ==> net.has_node((#[trigger] nodes[i]).0),
        place == label_place(nodes, u.0),
    ensures
        next == if place < nodes.len() {
            nodes
        } else {
            nodes.push(IntermediateNode(u))
        },
        0 <= place < next.len(),
        next[place].0 == u,
        forall|i: int, j: int| 0 <= i < j < next.len() ==> (#[trigger] next[i]).0 != (#[trigger] next[j]).0,
        forall|i: int| 0 <= i < next.len() ==> net.has_node((#[trigger] next[i]).0),
        forall|i: int| 0 <= i < nodes.len() ==> next[i] == nodes[i],
        next.len() >= nodes.len(),
{
    lemma_label_place(nodes, u.0);
    let next = if place < nodes.len() {
        nodes
    } else {
        nodes.push(IntermediateNode(u))
    };
    if place >= nodes.len() {
        assert forall|i: int, j: int| 0 <= i < j < next.len() implies (#[trigger] next[i]).0 != (
        #[trigger] next[j]).0 by {
            if j < nodes.len() {
                assert(nodes[i].0 != nodes[j].0);
            } else {
                assert(nodes[i].label() != u.0);
            }
        }
    }
    next
}

/// Writes `network` as an immutable graph. The nodes that have an edge are
/// numbered anew, in the order in which the edges are read: by source in
/// ascending order, the edges of one source in the order of its
/// neighbour list. Every node of the graph remembers the node of
/// `network` that it stands for.
#[verifier::rlimit(40)]
pub fn to_directed_graph(network: &IntermediateNetwork) -> (r: Result<
    DirectedNetworkGraph<IntermediateData>,
    GraphError,
>)
    requires
        network.wf(),
    ensures
        r is Ok <==> convertible(network),
        r is Ok ==> converted(network, &r->Ok_0),
        r is Err ==> r->Err_0 == GraphError::InvalidInput,
{
    let mut builder = DirectedNetworkBuilder::<IntermediateNode, IntermediateEdge>::new();
    let order = network.nodes();
    let ghost mut done: Seq<(NodeId, NodeId)> = Seq::empty();
    let mut a: usize = 0;
    proof {
        network.lemma_wf();
    }
    while a < order.len()
        invariant
            network.wf(),
            builder.wf(),
            !builder.conflicted(),
            a <= order@.len(),
            forall|v: NodeId| order@.contains(v) <==> network.has_node(v),
            forall|i: int, j: int| 0 <= i < j < order@.len() ==> order@[i].0 < order@[j].0,
            convert_inv(network, order@, builder.node_list(), builder.edge_list(), done, a as int, 0),
            forall|i: int|
                0 <= i < builder.node_list().len() ==> is_end(done, (#[trigger] builder.node_list()[i]).0),
        decreases order@.len() - a,
    {
        let u = order[a];
        let targets = network.out_targets(u);
        let mut x: usize = 0;
        proof {
            assert(order@.contains(u));
        }
        while x < targets.len()
            invariant
                network.wf(),
                builder.wf(),
                !builder.conflicted(),
                a < order@.len(),
                u == order@[a as int],
                network.has_node(u),
                targets@ == as_nodes(network.out_neighbours(u)),
                x <= targets@.len(),
                forall|v: NodeId| order@.contains(v) <==> network.has_node(v),
                forall|i: int, j: int| 0 <= i < j < order@.len() ==> order@[i].0 < order@[j].0,
                convert_inv(
                    network,
                    order@,
                    builder.node_list(),
                    builder.edge_list(),
                    done,
                    a as int,
                    x as int,
                ),
                forall|i: int|
                    0 <= i < builder.node_list().len() ==> is_end(
                        done,
                        (#[trigger] builder.node_list()[i]).0,
                    ),
            decreases targets@.len() - x,
        {
            let t = targets[x];
            let ghost nodes0 = builder.node_list();
            let ghost edges0 = builder.edge_list();
            proof {
                network.lemma_wf();
                assert(network.out_neighbours(u)[x as int] == t.0);
                assert(network.out_neighbours(u).contains(t.0));
                assert(network.edge_map().contains_key(edge_key(u, t)));
                lemma_edge_key(u, t);
                assert(network.has_node(key_target(edge_key(u, t))));
                lemma_label_place(nodes0, u.0);
                if label_place(nodes0, u.0) >= nodes0.len() {
                    lemma_room_for_node(network, nodes0, u);
                }
            }
            let found = network.edge(u, t);
            let edge = found.unwrap();
            let n1 = builder.add_node(IntermediateNode(u));
            let ghost nodes1 = builder.node_list();
            proof {
                let next = lemma_node_added(network, nodes0, u, n1.0 as int);
                assert(next == nodes1);
                lemma_label_place(nodes1, t.0);
                if label_place(nodes1, t.0) >= nodes1.len() {
                    lemma_room_for_node(network, nodes1, t);
                }
            }
            let n2 = builder.add_node(IntermediateNode(t));
            let ghost nodes2 = builder.node_list();
            let renumbered = IntermediateEdge {
                source: n1,
                target: n2,
                data: edge.data(),
                road_id: edge.road_id(),
                direction: edge.direction,
                weight: edge.weight,
            };
            proof {
                let next = lemma_node_added(network, nodes1, t, n2.0 as int);
                assert(next == nodes2);
                assert(nodes2[n1.0 as int].0 == u);
                lemma_edge_place(edges0, n1, n2);
                let at = edge_place(edges0, n1, n2);
                if at < edges0.len() {
                    // an edge between the same nodes would be the same pair
                    assert(renamed(network, nodes0, edges0[at], done[at]));
                    assert(nodes2[edges0[at].source.0 as int] == nodes0[edges0[at].source.0 as int]);
                    assert(nodes2[edges0[at].target.0 as int] == nodes0[edges0[at].target.0 as int]);
                    assert(done[at] == (u, t));
                    assert(placed_before(network, order@, done[at], a as int, x as int));
                    let (a0, x0) = choose|a0: int, x0: int|
                        #[trigger] pair_at(network, order@, done[at], a0, x0) && before_cursor(
                            a0,
                            x0,
                            a as int,
                            x as int,
                        );
                    if a0 < a {
                        assert(order@[a0].0 < order@[a as int].0);
                    }
                    assert(list_ok(network.out_neighbours(u), network.slots()));
                    assert(false);
                }
            }
            builder.add_edge(renumbered);
            proof {
                let before = done;
                done = done.push((u, t));
                let nodes = builder.node_list();
                let edges = builder.edge_list();
                assert(nodes == nodes2);
                assert(edges == edges0.push(renumbered));
                assert forall|i: int| 0 <= i < nodes.len() implies is_end(done, (#[trigger] nodes[i]).0) by {
                    if i < nodes0.len() {
                        assert(nodes[i] == nodes0[i]);
                        assert(is_end(before, nodes0[i].0));
                        let p = choose|p: int|
                            0 <= p < before.len() && ((#[trigger] before[p]).0 == nodes0[i].0
                                || before[p].1 == nodes0[i].0);
                        assert(done[p] == before[p]);
                    } else {
                        assert(nodes[i].0 == u || nodes[i].0 == t);
                        assert(done[before.len() as int] == (u, t));
                    }
                }
                assert forall|i: int, j: int| 0 <= i < j < done.len() implies #[trigger] done[i]
                    != #[trigger] done[j] by {
                    if j == before.len() {
                        if before[i] == (u, t) {
                            assert(placed_before(network, order@, before[i], a as int, x as int));
                            let (a0, x0) = choose|a0: int, x0: int|
                                #[trigger] pair_at(network, order@, before[i], a0, x0) && before_cursor(
                                    a0,
                                    x0,
                                    a as int,
                                    x as int,
                                );
                            if a0 < a {
                                assert(order@[a0].0 < order@[a as int].0);
                            }
                            assert(list_ok(network.out_neighbours(u), network.slots()));
                            assert(false);
                        }
                    } else {
                        assert(before[i] != before[j]);
                    }
                }
                assert forall|i: int| 0 <= i < edges.len() implies renamed(
                    network,
                    nodes,
                    #[trigger] edges[i],
                    done[i],
                ) by {
                    if i < edges0.len() {
                        assert(renamed(network, nodes0, edges0[i], before[i]));
                        assert(nodes[edges0[i].source.0 as int] == nodes0[edges0[i].source.0 as int]);
                        assert(nodes[edges0[i].target.0 as int] == nodes0[edges0[i].target.0 as int]);
                    }
                }
                assert forall|i: int| 0 <= i < done.len() implies placed_before(
                    network,
                    order@,
                    #[trigger] done[i],
                    a as int,
                    x + 1,
                ) by {
                    if i < before.len() {
                        assert(placed_before(network, order@, before[i], a as int, x as int));
                        let (a0, x0) = choose|a0: int, x0: int|
                            #[trigger] pair_at(network, order@, before[i], a0, x0) && before_cursor(
                                a0,
                                x0,
                                a as int,
                                x as int,
                            );
                        assert(pair_at(network, order@, done[i], a0, x0) && before_cursor(
                            a0,
                            x0,
                            a as int,
                            x + 1,
                        ));
                    } else {
                        assert(pair_at(network, order@, done[i], a as int, x as int) && before_cursor(
                            a as int,
                            x as int,
                            a as int,
                            x + 1,
                        ));
                    }
                }
                assert forall|a0: int, x0: int|
                    0 <= a0 < order@.len() && 0 <= x0 < network.out_neighbours(order@[a0]).len()
                        && before_cursor(a0, x0, a as int, x + 1) implies #[trigger] covered(
                    network,
                    order@,
                    done,
                    a0,
                    x0,
                ) by {
                    if before_cursor(a0, x0, a as int, x as int) {
                        assert(covered(network, order@, before, a0, x0));
                        let i = choose|i: int|
                            0 <= i < before.len() && #[trigger] pair_at(network, order@, before[i], a0, x0);
                        assert(pair_at(network, order@, done[i], a0, x0));
                    } else {
                        assert(pair_at(network, order@, done[before.len() as int], a0, x0));
                    }
                }
            }
            x += 1;
        }
        proof {
            let nodes = builder.node_list();
            let edges = builder.edge_list();
            assert forall|i: int| 0 <= i < done.len() implies placed_before(
                network,
                order@,
                #[trigger] done[i],
                a + 1,
                0,
            ) by {
                assert(placed_before(network, order@, done[i], a as int, x as int));
                let (a0, x0) = choose|a0: int, x0: int|
                    #[trigger] pair_at(network, order@, done[i], a0, x0) && before_cursor(
                        a0,
                        x0,
                        a as int,
                        x as int,
                    );
                assert(pair_at(network, order@, done[i], a0, x0) && before_cursor(a0, x0, a + 1, 0));
            }
            assert forall|a0: int, x0: int|
                0 <= a0 < order@.len() && 0 <= x0 < network.out_neighbours(order@[a0]).len()
                    && before_cursor(a0, x0, a + 1, 0) implies #[trigger] covered(
                network,
                order@,
                done,
                a0,
                x0,
            ) by {
                assert(before_cursor(a0, x0, a as int, x as int));
            }
        }
        a += 1;
    }
    let ghost nodes = builder.node_list();
    let ghost edges = builder.edge_list();
    proof {
        lemma_convertible(network, order@, nodes, edges, done);
    }
    let built = builder.build::<IntermediateData>();
    match built {
        Ok(graph) => {
            proof {
                lemma_nodes_are_ends(network, order@, nodes, edges, done, &graph);
                lemma_converted(network, order@, nodes, edges, done, &graph);
            }
            Ok(graph)
        },
        Err(e) => Err(e),
    }
}

/// The keys of the pairs of `done`.
pub open spec fn keys_of(done: Seq<(NodeId, NodeId)>) -> Seq<u64> {
    done.map_values(|p: (NodeId, NodeId)| edge_key(p.0, p.1))
}

/// Once the cursor has passed every edge, the builder holds one edge for
/// every edge of the network.
proof fn lemma_all_edges_done(
    net: &IntermediateNetwork,
    order: Seq<NodeId>,
    nodes: Seq<IntermediateNode>,
    edges: Seq<IntermediateEdge>,
    done: Seq<(NodeId, NodeId)>,
)
    requires
        net.wf(),
        forall|v: NodeId| order.contains(v) <==> net.has_node(v),
        convert_inv(net, order, nodes, edges, done, order.len() as int, 0),
    ensures
        edges.len() == net.edge_map().len(),
        forall|k: u64| #[trigger]
            net.edge_map().contains_key(k) ==> exists|i: int|
                0 <= i < done.len() && edge_key((#[trigger] done[i]).0, done[i].1) == k,
{
    net.lemma_wf();
    let keys = keys_of(done);
    assert forall|i: int, j: int| 0 <= i < keys.len() && 0 <= j < keys.len() && i != j implies keys[i]
        != keys[j] by {
        lemma_edge_key(done[i].0, done[i].1);
        lemma_edge_key(done[j].0, done[j].1);
        if i < j {
            assert(done[i] != done[j]);
        } else {
            assert(done[j] != done[i]);
        }
    }
    assert forall|k: u64| #[trigger] net.edge_map().contains_key(k) implies exists|i: int|
        0 <= i < done.len() && edge_key((#[trigger] done[i]).0, done[i].1) == k by {
        let s = key_source(k);
        let t = key_target(k);
        lemma_key_decodes(k);
        assert(net.has_node(s));
        assert(order.contains(s));
        let a = choose|a: int| 0 <= a < order.len() && order[a] == s;
        assert(net.out_neighbours(s).contains(t.0));
        let x = choose|x: int| 0 <= x < net.out_neighbours(s).len() && net.out_neighbours(s)[x] == t.0;
        assert(before_cursor(a, x, order.len() as int, 0));
        assert(covered(net, order, done, a, x));
        let i = choose|i: int| 0 <= i < done.len() && #[trigger] pair_at(net, order, done[i], a, x);
        assert(done[i] == (s, t));
    }
    assert(keys.to_set() =~= net.edge_map().dom()) by {
        assert forall|k: u64| keys.to_set().contains(k) <==> net.edge_map().dom().contains(k) by {
            if keys.to_set().contains(k) {
                let i = choose|i: int| 0 <= i < keys.len() && keys[i] == k;
                assert(renamed(net, nodes, edges[i], done[i]));
            }
            if net.edge_map().contains_key(k) {
                let i = choose|i: int|
                    0 <= i < done.len() && edge_key((#[trigger] done[i]).0, done[i].1) == k;
                assert(keys[i] == k);
            }
        }
    }
    keys.unique_seq_to_set();
}

/// The builder can build exactly when the network can be written as a
/// graph.
proof fn lemma_convertible(
    net: &IntermediateNetwork,
    order: Seq<NodeId>,
    nodes: Seq<IntermediateNode>,
    edges: Seq<IntermediateEdge>,
    done: Seq<(NodeId, NodeId)>,
)
    requires
        net.wf(),
        forall|v: NodeId| order.contains(v) <==> net.has_node(v),
        convert_inv(net, order, nodes, edges, done, order.len() as int, 0),
    ensures
        convertible(net) <==> (2 * edges.len() <= u32::MAX && forall|i: int|
            0 <= i < edges.len() ==> valid_edge(#[trigger] edges[i], nodes.len() as int)),
{
    lemma_all_edges_done(net, order, nodes, edges, done);
    if convertible(net) {
        assert forall|i: int| 0 <= i < edges.len() implies valid_edge(
            #[trigger] edges[i],
            nodes.len() as int,
        ) by {
            assert(renamed(net, nodes, edges[i], done[i]));
        }
    }
    if (2 * edges.len() <= u32::MAX && forall|i: int|
        0 <= i < edges.len() ==> valid_edge(#[trigger] edges[i], nodes.len() as int)) {
        assert forall|k: u64| #[trigger] net.edge_map().contains_key(k) implies 0
            < net.edge_map()[k].weight <= u32::MAX by {
            let i = choose|i: int|
                0 <= i < done.len() && edge_key((#[trigger] done[i]).0, done[i].1) == k;
            assert(renamed(net, nodes, edges[i], done[i]));
            assert(valid_edge(edges[i], nodes.len() as int));
        }
    }
}

/// Every node that the builder has numbered has an edge in the network.
proof fn lemma_nodes_are_ends(
    net: &IntermediateNetwork,
    order: Seq<NodeId>,
    nodes: Seq<IntermediateNode>,
    edges: Seq<IntermediateEdge>,
    done: Seq<(NodeId, NodeId)>,
    g: &DirectedNetworkGraph<IntermediateData>,
)
    requires
        convert_inv(net, order, nodes, edges, done, order.len() as int, 0),
        built_from(g, nodes, edges),
        forall|i: int| 0 <= i < nodes.len() ==> is_end(done, (#[trigger] nodes[i]).0),
    ensures
        forall|u: int| 0 <= u < g.node_total() ==> ends_edge(net, #[trigger] preimage(g, u)),
{
    assert forall|u: int| 0 <= u < g.node_total() implies ends_edge(net, #[trigger] preimage(g, u)) by {
        assert(node_written(&g.data, nodes, u));
        assert(preimage(g, u) == nodes[u].0);
        assert(is_end(done, nodes[u].0));
        let p = choose|p: int|
            0 <= p < done.len() && ((#[trigger] done[p]).0 == nodes[u].0 || done[p].1 == nodes[u].0);
        assert(renamed(net, nodes, edges[p], done[p]));
        lemma_edge_key(done[p].0, done[p].1);
        assert(net.edge_map().contains_key(edge_key(done[p].0, done[p].1)));
    }
}

/// What the builder has built is the immutable form of the network.
proof fn lemma_converted(
    net: &IntermediateNetwork,
    order: Seq<NodeId>,
    nodes: Seq<IntermediateNode>,
    edges: Seq<IntermediateEdge>,
    done: Seq<(NodeId, NodeId)>,
    g: &DirectedNetworkGraph<IntermediateData>,
)
    requires
        net.wf(),
        forall|v: NodeId| order.contains(v) <==> net.has_node(v),
        convert_inv(net, order, nodes, edges, done, order.len() as int, 0),
        built_from(g, nodes, edges),
        forall|i: int| 0 <= i < edges.len() ==> valid_edge(#[trigger] edges[i], nodes.len() as int),
        forall|u: int| 0 <= u < g.node_total() ==> ends_edge(net, #[trigger] preimage(g, u)),
    ensures
        converted(net, g),
{
    net.lemma_wf();
    lemma_all_edges_done(net, order, nodes, edges, done);
    let m = net.edge_map();
    assert forall|u: int| 0 <= u < g.node_total() implies g.data.has_node(NodeId(u as u32))
        && g.data.node_view(NodeId(u as u32)) == nodes[u].0 by {
        assert(node_written(&g.data, nodes, u));
    }
    assert forall|u: int, j: int, position: int, forward: bool|
        #[trigger] stems_from(g, edges, u, j, position, forward) implies image_of(
        g,
        m[edge_key(done[position].0, done[position].1)],
        u,
        j,
        forward,
    ) && m.contains_key(edge_key(done[position].0, done[position].1)) by {
        let b = edges[position];
        let pair = done[position];
        let k = edge_key(pair.0, pair.1);
        assert(renamed(net, nodes, b, pair));
        assert(valid_edge(b, nodes.len() as int));
        lemma_edge_key(pair.0, pair.1);
        let other = g.edges@[j].target_node.0 as int;
        assert(node_written(&g.data, nodes, u));
        assert(node_written(&g.data, nodes, other));
    }
    assert forall|u: int, j: int| #[trigger] g.in_range(u, j) implies record_explained(g, m, u, j) by {
        assert(record_known(g, edges, u, j));
        let (position, forward) = choose|position: int, forward: bool| #[trigger]
            stems_from(g, edges, u, j, position, forward);
        let k = edge_key(done[position].0, done[position].1);
        assert(m.contains_key(k) && image_of(g, m[k], u, j, forward));
    }
    assert forall|k: u64, forward: bool| m.contains_key(k) implies #[trigger] has_image(
        g,
        m[k],
        forward,
    ) by {
        let i = choose|i: int| 0 <= i < done.len() && edge_key((#[trigger] done[i]).0, done[i].1) == k;
        assert(has_record(g, edges, i, forward));
        let u = slot_owner(edges[i], forward) as int;
        let j = choose|j: int| #[trigger] stems_from(g, edges, u, j, i, forward);
        assert(image_of(g, m[k], u, j, forward));
    }
    assert forall|u: int| 0 <= u < g.node_total() implies #[trigger] stands_for_node(net, g, u) by {
        assert(net.has_node(nodes[u].0));
    }
    assert forall|u: int, v: int| 0 <= u < v < g.node_total() implies #[trigger] preimage(g, u)
        != #[trigger] preimage(g, v) by {
        assert(nodes[u].0 != nodes[v].0);
    }
}

/// Why a level cannot be built.
#[derive(Debug, Clone, Copy, PartialEq, Eq, Structural)]
pub enum LayerError {
    /// The graph of the level below is not well formed, or its store does
    /// not answer for all of its edges, or the neighbourhood size is below
    /// two.
    InvalidInput,
    /// A shortcut has a weight that cannot be stored, or there are more
    /// edges than can be numbered.
    Inconsistent,
    /// The contraction has left no edge.
    Empty,
}

/// The intermediate edge that stands for the record `j` of node `p`.
pub open spec fn single_edge<D: NetworkData>(g: &DirectedNetworkGraph<D>, p: NodeId, j: EdgeId) -> EdgeView {
    EdgeView {
        data: Provenance::Single(j.0),
        road_id: g.data.road_chain(j),
        direction: EdgeDirection::Forward,
        source: p,
        target: g.edges@[j.0 as int].target_node,
        weight: g.edges@[j.0 as int].edge_weight as u64,
    }
}

/// Whether the edge under key `k` stands for the record `j`, which leaves
/// the source of `k` and ends at its target.
pub open spec fn is_single<D: NetworkData>(
    g: &DirectedNetworkGraph<D>,
    m: Map<u64, EdgeView>,
    k: u64,
    j: int,
) -> bool {
    &&& 0 <= j < g.edge_total()
    &&& g.arc(EdgeDirection::Forward, key_source(k).0 as int, j)
    &&& g.edges@[j].target_node == key_target(k)
    &&& m[k] == single_edge(g, key_source(k), EdgeId(j as u32))
}

/// Whether every edge of `m` stands for one edge record of `g`.
pub open spec fn singles_of<D: NetworkData>(g: &DirectedNetworkGraph<D>, m: Map<u64, EdgeView>) -> bool {
    forall|k: u64| #[trigger] m.contains_key(k) ==> exists|j: int| #[trigger] is_single(g, m, k, j)
}

/// Whether the edge under key `k` stands for a record named in `edges`
/// with the source of `k`.
pub open spec fn from_list<D: NetworkData>(
    g: &DirectedNetworkGraph<D>,
    m: Map<u64, EdgeView>,
    k: u64,
    edges: Seq<(NodeId, EdgeId)>,
) -> bool {
    exists|i: int|
        0 <= i < edges.len() && edges[i].0 == key_source(k) && is_single(
            g,
            m,
            k,
            (#[trigger] edges[i]).1.0 as int,
        )
}

/// Whether the edge under key `k` stands for a record that the search
/// from some source has found worth keeping.
pub open spec fn retained_by<D: NetworkData>(
    g: &DirectedNetworkGraph<D>,
    forward: Seq<u64>,
    backward: Seq<u64>,
    m: Map<u64, EdgeView>,
    k: u64,
) -> bool {
    exists|s0: int, order: Seq<(NodeId, (EdgeId, u64))>, visited: Map<u32, VisitedState>|
        0 <= s0 < g.node_total() && search_outcome(
            g,
            NodeId(s0 as u32),
            forward,
            backward,
            order,
            visited,
        ) && #[trigger] from_list(g, m, k, sweep(order, visited, forward[s0], backward).1)
}

/// Whether every edge of `m` stands for a record that some search has
/// found worth keeping.
pub open spec fn all_retained<D: NetworkData>(
    g: &DirectedNetworkGraph<D>,
    forward: Seq<u64>,
    backward: Seq<u64>,
    m: Map<u64, EdgeView>,
) -> bool {
    forall|k: u64| m.contains_key(k) ==> #[trigger] retained_by(g, forward, backward, m, k)
}

/// Whether `m` holds an edge between the ends of the record `pair.1`
/// that leaves `pair.0`, no heavier than that record.
pub open spec fn entry_in<D: NetworkData>(
    g: &DirectedNetworkGraph<D>,
    m: Map<u64, EdgeView>,
    pair: (NodeId, EdgeId),
) -> bool {
    let k = edge_key(pair.0, g.edges@[pair.1.0 as int].target_node);
    m.contains_key(k) && m[k].weight <= g.edges@[pair.1.0 as int].edge_weight
}

/// Whether `m` holds every edge that the search from `s0` finds worth
/// keeping.
pub open spec fn source_covered<D: NetworkData>(
    g: &DirectedNetworkGraph<D>,
    m: Map<u64, EdgeView>,
    s0: int,
    forward: Seq<u64>,
    backward: Seq<u64>,
) -> bool {
    exists|order: Seq<(NodeId, (EdgeId, u64))>, visited: Map<u32, VisitedState>|
        search_outcome(g, NodeId(s0 as u32), forward, backward, order, visited) && #[trigger] all_entries_in(
            g,
            m,
            sweep(order, visited, forward[s0], backward).1,
        )
}

/// Whether `m` holds an edge for every pair of `retained`.
pub open spec fn all_entries_in<D: NetworkData>(
    g: &DirectedNetworkGraph<D>,
    m: Map<u64, EdgeView>,
    retained: Seq<(NodeId, EdgeId)>,
) -> bool {
    forall|i: int| 0 <= i < retained.len() ==> entry_in(g, m, #[trigger] retained[i])
}

/// Whether the tables hold the forward and backward radii of `g` for
/// neighbourhoods of `size` nodes.
pub open spec fn radii_of<D: NetworkData>(
    g: &DirectedNetworkGraph<D>,
    size: int,
    forward: Seq<u64>,
    backward: Seq<u64>,
) -> bool {
    &&& forward.len() == g.node_total()
    &&& backward.len() == g.node_total()
    &&& forall|v: int|
        0 <= v < g.node_total() ==> is_radius(
            g,
            EdgeDirection::Forward,
            v,
            size,
            #[trigger] forward[v] as int,
        )
    &&& forall|v: int|
        0 <= v < g.node_total() ==> is_radius(
            g,
            EdgeDirection::Backward,
            v,
            size,
            #[trigger] backward[v] as int,
        )
}

/// Whether every node of `net` is a node of a graph of `n` nodes.
pub open spec fn nodes_below(net: &IntermediateNetwork, n: int) -> bool {
    forall|v: NodeId| #[trigger] net.has_node(v) ==> v.0 < n
}

/// Whether every node of `next` stands for a node of `prev`.
pub open spec fn preimages_inside<D: NetworkData>(
    prev: &DirectedNetworkGraph<D>,
    next: &DirectedNetworkGraph<IntermediateData>,
) -> bool {
    forall|u: int| 0 <= u < next.node_total() ==> (#[trigger] preimage(next, u)).0 < prev.node_total()
}

/// Whether `net` is the outcome of the edge reduction of `g`: `net` holds
/// the edges that the searches from all sources find worth keeping, the
/// lightest where several join the same nodes, and no others. The edges
/// come in source by source, in ascending order of the sources, and for
/// one source in the order in which the sweep finds them, which fixes
/// the neighbour lists too.
pub open spec fn reduced_from<D: NetworkData>(
    g: &DirectedNetworkGraph<D>,
    size: int,
    net: &IntermediateNetwork,
) -> bool {
    &&& net.wf()
    &&& nodes_below(net, g.node_total())
    &&& singles_of(g, net.edge_map())
    &&& exists|forward: Seq<u64>, backward: Seq<u64>| #[trigger]
        radii_of(g, size, forward, backward) && all_retained(g, forward, backward, net.edge_map())
            && reduced_upto(g, forward, backward, g.node_total() as int, net) && forall|s0: int|
            0 <= s0 < g.node_total() ==> #[trigger] source_covered(
                g,
                net.edge_map(),
                s0,
                forward,
                backward,
            )
}

/// Whether the store of `g` answers for every edge record of `g`.
pub open spec fn data_complete<D: NetworkData>(g: &DirectedNetworkGraph<D>) -> bool {
    forall|e: EdgeId| e.0 < g.edge_total() ==> #[trigger] g.data.has_edge(e)
}

proof fn lemma_entries_stay<D: NetworkData>(
    g: &DirectedNetworkGraph<D>,
    before: Map<u64, EdgeView>,
    after: Map<u64, EdgeView>,
    retained: Seq<(NodeId, EdgeId)>,
)
    requires
        all_entries_in(g, before, retained),
        forall|k: u64| #[trigger]
            before.contains_key(k) ==> after.contains_key(k) && after[k].weight <= before[k].weight,
    ensures
        all_entries_in(g, after, retained),
{
    assert forall|i: int| 0 <= i < retained.len() implies entry_in(g, after, #[trigger] retained[i]) by {
        assert(entry_in(g, before, retained[i]));
    }
}

/// Whether every pair of `edges` names an edge record with the node that
/// it leaves.
pub open spec fn all_arcs<D: NetworkData>(
    network: &DirectedNetworkGraph<D>,
    edges: Seq<(NodeId, EdgeId)>,
) -> bool {
    forall|i: int|
        0 <= i < edges.len() ==> network.arc(
            EdgeDirection::Forward,
            (#[trigger] edges[i]).0.0 as int,
            edges[i].1.0 as int,
        )
}

/// Decides whether `edge` is an edge record that leaves `source`.
pub fn is_out_edge<D: NetworkData>(network: &DirectedNetworkGraph<D>, source: NodeId, edge: EdgeId) -> (r:
    bool)
    requires
        network.wf(),
    ensures
        r == network.arc(EdgeDirection::Forward, source.0 as int, edge.0 as int),
{
    if source.0 as usize >= network.nodes.len() {
        return false;
    }
    let range = network.nodes[source.0 as usize];
    if edge.0 < range.start_edge_index || edge.0 >= range.last_edge_index {
        return false;
    }
    network.edges[edge.0 as usize].direction.matches_search(EdgeDirection::Forward)
}

/// What `merge_edge` does is merging one edge.
proof fn lemma_edge_merged(before: &IntermediateNetwork, e: EdgeView, after: &IntermediateNetwork)
    requires
        after.edge_map() == if before.edge_map().contains_key(edge_key(e.source, e.target))
            && before.edge_map()[edge_key(e.source, e.target)].weight <= e.weight {
            before.edge_map()
        } else {
            before.edge_map().insert(edge_key(e.source, e.target), e)
        },
        forall|v: NodeId| after.has_node(v) == (before.has_node(v) || v == e.source || v == e.target),
        forall|v: NodeId| v != e.source ==> after.out_neighbours(v) == before.out_neighbours(v),
        forall|v: NodeId| v != e.target ==> after.in_neighbours(v) == before.in_neighbours(v),
        after.out_neighbours(e.source) == if before.edge_map().contains_key(
            edge_key(e.source, e.target),
        ) {
            before.out_neighbours(e.source)
        } else {
            before.out_neighbours(e.source).push(e.target.0)
        },
        after.in_neighbours(e.target) == if before.edge_map().contains_key(
            edge_key(e.source, e.target),
        ) {
            before.in_neighbours(e.target)
        } else {
            before.in_neighbours(e.target).push(e.source.0)
        },
    ensures
        merged_into(before, e, after),
{
}

/// Adds the edges of `edges` to `net`: each pair names an edge record of
/// `network` with the node that it leaves. Where an edge joins the same
/// nodes already, the lighter of the two stays. Returns `false`, and
/// leaves `net` with the edges added up to there, if a pair names no such
/// record.
#[verifier::rlimit(40)]
pub fn keep_edges<D: NetworkData>(
    net: &mut IntermediateNetwork,
    network: &DirectedNetworkGraph<D>,
    edges: &Vec<(NodeId, EdgeId)>,
) -> (r: bool)
    requires
        old(net).wf(),
        network.wf(),
        data_complete(network),
        singles_of(network, old(net).edge_map()),
        nodes_below(old(net), network.node_total()),
    ensures
        final(net).wf(),
        singles_of(network, final(net).edge_map()),
        nodes_below(final(net), network.node_total()),
        r == all_arcs(network, edges@),
        r ==> all_entries_in(network, final(net).edge_map(), edges@),
        r ==> merged_all(network, old(net), edges@, final(net)),
        forall|k: u64| #[trigger]
            old(net).edge_map().contains_key(k) ==> final(net).edge_map().contains_key(k) && final(net).edge_map()[k].weight <= old(net).edge_map()[k].weight,
        forall|k: u64| #[trigger]
            final(net).edge_map().contains_key(k) ==> (old(net).edge_map().contains_key(k) && final(net).edge_map()[k] == old(net).edge_map()[k]) || from_list(
                network,
                final(net).edge_map(),
                k,
                edges@,
            ),
{
    let mut i: usize = 0;
    let ghost mut nets: Seq<IntermediateNetwork> = seq![*net];
    proof {
        assert(edges@.subrange(0, 0) =~= Seq::<(NodeId, EdgeId)>::empty());
    }
    while i < edges.len()
        invariant
            merge_trace(network, edges@.subrange(0, i as int), nets),
            nets[0] == *old(net),
            nets[i as int] == *net,
            net.wf(),
            network.wf(),
            data_complete(network),
            i <= edges@.len(),
            singles_of(network, net.edge_map()),
            nodes_below(net, network.node_total()),
            all_arcs(network, edges@.subrange(0, i as int)),
            all_entries_in(network, net.edge_map(), edges@.subrange(0, i as int)),
            forall|k: u64| #[trigger]
                old(net).edge_map().contains_key(k) ==> net.edge_map().contains_key(k) && net.edge_map()[k].weight
                    <= old(net).edge_map()[k].weight,
            forall|k: u64| #[trigger]
                net.edge_map().contains_key(k) ==> (old(net).edge_map().contains_key(k)
                    && net.edge_map()[k] == old(net).edge_map()[k]) || from_list(
                    network,
                    net.edge_map(),
                    k,
                    edges@,
                ),
        decreases edges@.len() - i,
    {
        let (source, edge_id) = edges[i];
        if !is_out_edge(network, source, edge_id) {
            proof {
                if all_arcs(network, edges@) {
                    assert(network.arc(
                        EdgeDirection::Forward,
                        edges@[i as int].0.0 as int,
                        edges@[i as int].1.0 as int,
                    ));
                }
            }
            return false;
        }
        proof {
            assert(network.data.has_edge(edge_id));
        }
        let record = network.edges[edge_id.0 as usize];
        let kept_edge = IntermediateEdge::new(
            source,
            record.target_node,
            record.edge_weight as u64,
            ShortcutState::Single(edge_id.0),
            network.data.edge_road_id(edge_id),
            EdgeDirection::Forward,
        );
        let ghost before = net.edge_map();
        let ghost k = edge_key(source, record.target_node);
        let ghost earlier = *net;
        net.merge_edge(kept_edge);
        proof {
            let after = net.edge_map();
            lemma_edge_key(source, record.target_node);
            assert(kept_edge@ == single_edge(network, source, edge_id));
            lemma_edge_merged(&earlier, kept_edge@, net);
            lemma_merge_grows(network, edges@.subrange(0, i as int), nets, edges@[i as int], *net);
            assert(edges@.subrange(0, i as int).push(edges@[i as int]) =~= edges@.subrange(0, i + 1));
            nets = nets.push(*net);
            assert forall|k2: u64| #[trigger] after.contains_key(k2) implies exists|j: int| #[trigger]
                is_single(network, after, k2, j) by {
                if k2 == k && after[k2] == kept_edge@ {
                    assert(is_single(network, after, k2, edge_id.0 as int));
                } else {
                    assert(before.contains_key(k2));
                    let j = choose|j: int| #[trigger] is_single(network, before, k2, j);
                    assert(is_single(network, after, k2, j));
                }
            }
            let head = edges@.subrange(0, i as int);
            let next = edges@.subrange(0, i + 1);
            assert forall|a: int| 0 <= a < next.len() implies entry_in(network, after, #[trigger] next[a]) by {
                if a < i {
                    assert(next[a] == head[a]);
                    assert(entry_in(network, before, head[a]));
                }
            }
            assert forall|a: int| 0 <= a < next.len() implies network.arc(
                EdgeDirection::Forward,
                (#[trigger] next[a]).0.0 as int,
                next[a].1.0 as int,
            ) by {
                if a < i {
                    assert(next[a] == head[a]);
                }
            }
            assert forall|k2: u64| #[trigger] after.contains_key(k2) implies (old(net).edge_map().contains_key(k2) && after[k2] == old(net).edge_map()[k2]) || from_list(
                network,
                after,
                k2,
                edges@,
            ) by {
                if k2 == k && after[k2] == kept_edge@ {
                    assert(edges@[i as int].0 == key_source(k2));
                    assert(is_single(network, after, k2, edges@[i as int].1.0 as int));
                } else {
                    assert(before.contains_key(k2));
                    assert(after[k2] == before[k2]);
                    if !(old(net).edge_map().contains_key(k2) && before[k2] == old(net).edge_map()[k2]) {
                        assert(from_list(network, before, k2, edges@));
                        let a = choose|a: int|
                            0 <= a < edges@.len() && edges@[a].0 == key_source(k2) && is_single(
                                network,
                                before,
                                k2,
                                (#[trigger] edges@[a]).1.0 as int,
                            );
                        assert(is_single(network, after, k2, edges@[a].1.0 as int));
                    }
                }
            }
        }
        i += 1;
    }
    proof {
        assert(edges@.subrange(0, i as int) =~= edges@);
        assert(merge_trace(network, edges@, nets) && nets[0] == *old(net) && nets[edges@.len() as int]
            == *net);
    }
    true
}

/// The intermediate graph of the edges `edges`, each a pair of an edge
/// record of `network` and the node that it leaves; `Inconsistent` if a
/// pair names no such record.
pub fn intermediate_from_edges<D: NetworkData>(
    network: &DirectedNetworkGraph<D>,
    edges: &Vec<(NodeId, EdgeId)>,
) -> (r: Result<IntermediateNetwork, LayerError>)
    requires
        network.wf(),
        data_complete(network),
    ensures
        r is Ok <==> all_arcs(network, edges@),
        r is Ok ==> r->Ok_0.wf() && nodes_below(&r->Ok_0, network.node_total()) && singles_of(
            network,
            r->Ok_0.edge_map(),
        ) && all_entries_in(
            network,
            r->Ok_0.edge_map(),
            edges@,
        ),
        r is Err ==> r->Err_0 == LayerError::Inconsistent,
{
    let mut net = IntermediateNetwork::new();
    if keep_edges(&mut net, network, edges) {
        Ok(net)
    } else {
        Err(LayerError::Inconsistent)
    }
}

/// Edge reduction: from every node of `network` the restricted search is
/// grown and swept, and the edges that are kept make up the intermediate
/// graph. Where two kept edge records join the same nodes, the lighter
/// one stays.
#[verifier::rlimit(40)]
pub fn phase_1<D: NetworkData>(size: usize, network: &DirectedNetworkGraph<D>) -> (r:
    IntermediateNetwork)
    requires
        network.wf(),
        data_complete(network),
        size >= 1,
    ensures
        reduced_from(network, size as int, &r),
{
    let computed = ComputedState::new(size, network);
    let mut net = IntermediateNetwork::new();
    let n = network.node_count();
    let ghost forward = computed.forward@;
    let ghost backward = computed.backward@;
    let mut id: usize = 0;
    while id < n
        invariant
            network.wf(),
            data_complete(network),
            n == network.node_total(),
            id <= n,
            forward == computed.forward@,
            backward == computed.backward@,
            computed.covers(network.node_total()),
            net.wf(),
            nodes_below(&net, network.node_total()),
            singles_of(network, net.edge_map()),
            all_retained(network, forward, backward, net.edge_map()),
            reduced_upto(network, forward, backward, id as int, &net),
            forall|s0: int|
                0 <= s0 < id ==> #[trigger] source_covered(
                    network,
                    net.edge_map(),
                    s0,
                    forward,
                    backward,
                ),
        decreases n - id,
    {
        let edges = calculate_edges(NodeId(id as u32), &computed, network);
        let ghost before = net.edge_map();
        let ghost earlier = net;
        let kept = keep_edges(&mut net, network, &edges);
        assert(kept);
        proof {
            assert(reduced_upto(network, forward, backward, id as int, &earlier) && kept_from(
                network,
                NodeId(id as u32),
                forward,
                backward,
                edges@,
            ) && merged_all(network, &earlier, edges@, &net));
            assert(reduced_upto(network, forward, backward, id + 1, &net));
            let after = net.edge_map();
            assert forall|k: u64| after.contains_key(k) implies #[trigger] retained_by(
                network,
                forward,
                backward,
                after,
                k,
            ) by {
                if before.contains_key(k) && after[k] == before[k] {
                    assert(retained_by(network, forward, backward, before, k));
                    let (s0, order, visited) = choose|
                        s0: int,
                        order: Seq<(NodeId, (EdgeId, u64))>,
                        visited: Map<u32, VisitedState>,
                    |
                        0 <= s0 < network.node_total() && search_outcome(
                            network,
                            NodeId(s0 as u32),
                            forward,
                            backward,
                            order,
                            visited,
                        ) && #[trigger] from_list(
                            network,
                            before,
                            k,
                            sweep(order, visited, forward[s0], backward).1,
                        );
                    let list = sweep(order, visited, forward[s0], backward).1;
                    let a = choose|a: int|
                        0 <= a < list.len() && list[a].0 == key_source(k) && is_single(
                            network,
                            before,
                            k,
                            (#[trigger] list[a]).1.0 as int,
                        );
                    assert(is_single(network, after, k, list[a].1.0 as int));
                    assert(from_list(network, after, k, list));
                } else {
                    let (order, visited) = choose|
                        order: Seq<(NodeId, (EdgeId, u64))>,
                        visited: Map<u32, VisitedState>,
                    |
                        search_outcome(network, NodeId(id as u32), forward, backward, order, visited)
                            && edges@ == sweep(order, visited, forward[id as int], backward).1;
                    assert(from_list(
                        network,
                        after,
                        k,
                        sweep(order, visited, forward[id as int], backward).1,
                    ));
                }
            }
            assert forall|s0: int| 0 <= s0 < id + 1 implies #[trigger] source_covered(
                network,
                after,
                s0,
                forward,
                backward,
            ) by {
                if s0 < id {
                    assert(source_covered(network, before, s0, forward, backward));
                    let (order, visited) = choose|
                        order: Seq<(NodeId, (EdgeId, u64))>,
                        visited: Map<u32, VisitedState>,
                    |
                        search_outcome(network, NodeId(s0 as u32), forward, backward, order, visited)
                            && #[trigger] all_entries_in(
                            network,
                            before,
                            sweep(order, visited, forward[s0], backward).1,
                        );
                    lemma_entries_stay(
                        network,
                        before,
                        after,
                        sweep(order, visited, forward[s0], backward).1,
                    );
                } else {
                    let (order, visited) = choose|
                        order: Seq<(NodeId, (EdgeId, u64))>,
                        visited: Map<u32, VisitedState>,
                    |
                        search_outcome(network, NodeId(id as u32), forward, backward, order, visited)
                            && edges@ == sweep(order, visited, forward[id as int], backward).1;
                    assert(all_entries_in(
                        network,
                        after,
                        sweep(order, visited, forward[s0], backward).1,
                    ));
                }
            }
        }
        id += 1;
    }
    proof {
        assert(radii_of(network, size as int, forward, backward));
    }
    net
}

/// Contraction: the intermediate graph is contracted to its core.
pub fn phase_2(intermediate: IntermediateNetwork, contraction_factor: ContractionFactor) -> (r:
    IntermediateNetwork)
    requires
        intermediate.wf(),
    ensures
        r.wf(),
        core_of(&intermediate, contraction_factor, &r),
        is_contracted(&intermediate, contraction_factor) ==> r == intermediate,
{
    core_network_with_patch(intermediate, contraction_factor)
}

/// Whether record `j` of node `u` of `next` is sound: its chain is a walk in
/// `prev` between the nodes for which its two ends stand, in the direction
/// of the record, and its weight is the weight of that walk.
pub open spec fn record_sound<D: NetworkData>(
    prev: &DirectedNetworkGraph<D>,
    next: &DirectedNetworkGraph<IntermediateData>,
    u: int,
    j: int,
) -> bool {
    let chain = as_records(next.data.edge_view(EdgeId(j as u32)).chain());
    let here = preimage(next, u).0 as int;
    let there = preimage(next, next.edges@[j].target_node.0 as int).0 as int;
    &&& next.edges@[j].edge_weight == walk_weight(prev, chain)
    &&& next.edges@[j].direction != EdgeDirection::Both
    &&& next.edges@[j].direction == EdgeDirection::Forward ==> connects(
        prev,
        EdgeDirection::Forward,
        here,
        there,
        chain,
    )
    &&& next.edges@[j].direction == EdgeDirection::Backward ==> connects(
        prev,
        EdgeDirection::Forward,
        there,
        here,
        chain,
    )
}

/// Whether every edge of the level `next` expands to a walk of the same
/// weight in the level `prev` below.
pub open spec fn layer_ok<D: NetworkData>(
    prev: &DirectedNetworkGraph<D>,
    next: &DirectedNetworkGraph<IntermediateData>,
) -> bool {
    forall|u: int, j: int| #[trigger] next.in_range(u, j) ==> record_sound(prev, next, u, j)
}

/// Every edge that stands for one edge record conserves its weight and
/// expands to the walk of that one record.
pub proof fn lemma_singles_have_provenance<D: NetworkData>(
    g: &DirectedNetworkGraph<D>,
    m: Map<u64, EdgeView>,
)
    requires
        g.wf(),
        singles_of(g, m),
    ensures
        keyed(m),
        all_forward(m),
        all_conserve_weight(g, m),
        all_expand_to_walks(g, m),
{
    assert forall|k: u64| #[trigger] m.contains_key(k) implies m[k].source == key_source(k)
        && m[k].target == key_target(k) && m[k].direction == EdgeDirection::Forward
        && conserves_weight(g, m[k]) && expands_to_walk(g, m[k]) by {
        let j = choose|j: int| #[trigger] is_single(g, m, k, j);
        let e = m[k];
        let chain = as_records(e.data.chain());
        assert(chain =~= seq![j]);
        let empty = Seq::<int>::empty();
        assert(chain.drop_last() =~= empty);
        assert(is_walk(g, EdgeDirection::Forward, key_source(k).0 as int, empty));
        assert(walk_weight(g, empty) == 0);
        assert(walk_weight(g, chain) == g.edges@[j].edge_weight);
        assert(is_walk(g, EdgeDirection::Forward, key_source(k).0 as int, chain));
    }
}

/// Weight conservation and expansion soundness for one level: if the
/// edges of the intermediate graph conserve weight and expand to walks in
/// the level below, so do the records of the graph that is written from
/// it.
pub proof fn lemma_layer_is_sound<D: NetworkData>(
    prev: &DirectedNetworkGraph<D>,
    net: &IntermediateNetwork,
    next: &DirectedNetworkGraph<IntermediateData>,
)
    requires
        net.wf(),
        all_forward(net.edge_map()),
        all_conserve_weight(prev, net.edge_map()),
        all_expand_to_walks(prev, net.edge_map()),
        converted(net, next),
    ensures
        layer_ok(prev, next),
{
    let m = net.edge_map();
    assert forall|u: int, j: int| #[trigger] next.in_range(u, j) implies record_sound(
        prev,
        next,
        u,
        j,
    ) by {
        assert(record_explained(next, m, u, j));
        let (k, forward) = choose|k: u64, forward: bool|
            m.contains_key(k) && #[trigger] image_of(next, m[k], u, j, forward);
        let e = m[k];
        assert(conserves_weight(prev, e));
        assert(expands_to_walk(prev, e));
        assert(e.direction == EdgeDirection::Forward);
        let chain = as_records(next.data.edge_view(EdgeId(j as u32)).chain());
        assert(chain == as_records(e.data.chain()));
        let target = next.edges@[j].target_node;
        assert(NodeId(target.0 as int as u32) == target);
        assert(preimage(next, target.0 as int) == next.data.node_view(target));
        assert(next.edges@[j].edge_weight == e.weight);
        assert(e.weight == capped(walk_weight(prev, chain)));
        crate::paths::lemma_weight_nonnegative(prev, chain);
        assert(walk_weight(prev, chain) == e.weight);
        if forward {
            assert(next.edges@[j].direction == EdgeDirection::Forward);
            assert(preimage(next, u) == e.source);
        } else {
            assert(next.edges@[j].direction == EdgeDirection::Backward);
            assert(preimage(next, u) == e.target);
        }
    }
}

/// The store of a graph that was written from an intermediate graph
/// answers for every node and every record.
pub proof fn lemma_converted_is_complete(
    net: &IntermediateNetwork,
    g: &DirectedNetworkGraph<IntermediateData>,
)
    requires
        converted(net, g),
    ensures
        data_complete(g),
        forall|v: NodeId| v.0 < g.node_total() ==> #[trigger] g.data.has_node(v),
{
    assert forall|e: EdgeId| e.0 < g.edge_total() implies #[trigger] g.data.has_edge(e) by {
        crate::graph::lemma_record_has_owner(g, e.0 as int);
        let u = choose|u: int| #[trigger] g.in_range(u, e.0 as int);
        assert(record_explained(g, net.edge_map(), u, e.0 as int));
    }
    assert forall|v: NodeId| v.0 < g.node_total() implies #[trigger] g.data.has_node(v) by {
        assert(stands_for_node(net, g, v.0 as int));
        assert(NodeId(v.0 as int as u32) == v);
    }
}

/// Decides whether the store of `network` answers for every edge record.
fn check_data<D: NetworkData>(network: &DirectedNetworkGraph<D>) -> (r: bool)
    requires
        network.wf(),
    ensures
        r == data_complete(network),
{
    let m = network.edge_count();
    let mut j: usize = 0;
    while j < m
        invariant
            m == network.edge_total(),
            m <= u32::MAX,
            j <= m,
            forall|e: EdgeId| e.0 < j ==> #[trigger] network.data.has_edge(e),
        decreases m - j,
    {
        if !network.data.knows_edge(EdgeId(j as u32)) {
            return false;
        }
        j += 1;
    }
    true
}

/// Whether `next` is the level above `prev` that the two phases make: the
/// edges of `prev` are reduced, the outcome is contracted until no node
/// qualifies for a bypass, and the core is written as a graph.
#[verifier::opaque]
pub open spec fn layer_of<D: NetworkData>(
    prev: &DirectedNetworkGraph<D>,
    size: int,
    c: ContractionFactor,
    next: &DirectedNetworkGraph<IntermediateData>,
) -> bool {
    exists|reduced: IntermediateNetwork, core: IntermediateNetwork|
        #![trigger reduced_from(prev, size, &reduced), core_of(&reduced, c, &core)]
        reduced_from(prev, size, &reduced) && core_of(&reduced, c, &core) && converted(&core, next)
}

/// Whether the two phases leave no edge of `prev`: the edges are reduced,
/// and the outcome is contracted to a core without edges.
#[verifier::opaque]
pub open spec fn level_is_empty<D: NetworkData>(
    prev: &DirectedNetworkGraph<D>,
    size: int,
    c: ContractionFactor,
) -> bool {
    exists|reduced: IntermediateNetwork, core: IntermediateNetwork|
        #![trigger reduced_from(prev, size, &reduced), core_of(&reduced, c, &core)]
        reduced_from(prev, size, &reduced) && core_of(&reduced, c, &core) && core.edge_map().len()
            == 0
}

/// Whether the two phases leave a core of `prev` that cannot be written as
/// a graph.
#[verifier::opaque]
pub open spec fn level_is_unwritable<D: NetworkData>(
    prev: &DirectedNetworkGraph<D>,
    size: int,
    c: ContractionFactor,
) -> bool {
    exists|reduced: IntermediateNetwork, core: IntermediateNetwork|
        #![trigger reduced_from(prev, size, &reduced), core_of(&reduced, c, &core)]
        reduced_from(prev, size, &reduced) && core_of(&reduced, c, &core) && core.edge_map().len()
            > 0 && !convertible(&core)
}

/// A level has no more nodes than the graph below it: its nodes stand for
/// nodes of that graph, each for another.
pub proof fn lemma_level_has_no_more_nodes<D: NetworkData>(
    prev: &DirectedNetworkGraph<D>,
    size: int,
    c: ContractionFactor,
    next: &DirectedNetworkGraph<IntermediateData>,
)
    requires
        layer_of(prev, size, c, next),
        preimages_inside(prev, next),
    ensures
        next.node_total() <= prev.node_total(),
{
    reveal(layer_of);
    let (reduced, core) = choose|reduced: IntermediateNetwork, core: IntermediateNetwork|
        #![trigger reduced_from(prev, size, &reduced), core_of(&reduced, c, &core)]
        reduced_from(prev, size, &reduced) && core_of(&reduced, c, &core) && converted(&core, next);
    let n = next.node_total() as int;
    let below = Seq::new(n as nat, |u: int| preimage(next, u).0);
    assert forall|a: int, b: int| 0 <= a < below.len() && 0 <= b < below.len() && a != b implies below[a]
        != below[b] by {
        if a < b {
            assert(preimage(next, a) != preimage(next, b));
        } else {
            assert(preimage(next, b) != preimage(next, a));
        }
    }
    assert forall|a: int| 0 <= a < below.len() implies (#[trigger] below[a]) < prev.node_total() by {
        assert(preimage(next, a).0 < prev.node_total());
    }
    lemma_list_len(below, prev.node_total() as int);
}

/// Whether `r` is what is made of the core `core`: `Empty` if and only if
/// the core has no edge, `Inconsistent` if and only if it has edges and
/// cannot be written as a graph, and else its immutable form.
pub open spec fn level_from_core(
    core: &IntermediateNetwork,
    r: Result<DirectedNetworkGraph<IntermediateData>, LayerError>,
) -> bool {
    match r {
        Ok(next) => core.edge_map().len() > 0 && convertible(core) && converted(core, &next),
        Err(LayerError::Empty) => core.edge_map().len() == 0,
        Err(LayerError::Inconsistent) => core.edge_map().len() > 0 && !convertible(core),
        Err(LayerError::InvalidInput) => false,
    }
}

/// Whether `r` is the outcome of building the level above `prev`: the
/// edges of `prev` are reduced, the outcome is contracted to its core, and
/// `r` is what is made of that core.
#[verifier::opaque]
pub open spec fn level_outcome<D: NetworkData>(
    prev: &DirectedNetworkGraph<D>,
    size: int,
    c: ContractionFactor,
    r: Result<DirectedNetworkGraph<IntermediateData>, LayerError>,
) -> bool {
    exists|reduced: IntermediateNetwork, core: IntermediateNetwork|
        #![trigger reduced_from(prev, size, &reduced), core_of(&reduced, c, &core)]
        reduced_from(prev, size, &reduced) && core_of(&reduced, c, &core) && level_from_core(
            &core,
            r,
        )
}

/// Writes the core `core` as the graph of a level: `Empty` if the core
/// has no edge, `Inconsistent` if it cannot be written as a graph.
pub fn write_level(core: &IntermediateNetwork) -> (r: Result<
    DirectedNetworkGraph<IntermediateData>,
    LayerError,
>)
    requires
        core.wf(),
    ensures
        level_from_core(core, r),
{
    if core.edge_count() == 0 {
        return Err(LayerError::Empty);
    }
    match to_directed_graph(core) {
        Ok(graph) => Ok(graph),
        Err(_) => Err(LayerError::Inconsistent),
    }
}

/// Builds the level above `network`. Returns `InvalidInput` if and only
/// if `network` is not well formed, its store does not answer for all
/// edges, or `size` is below two. Else the edges are reduced and the
/// outcome is contracted, and the result goes by the core, which is one:
/// `Empty` if and only if the core has no edge, `Inconsistent` if and
/// only if the core has edges and cannot be written as a graph, and else
/// the graph of the core.
pub fn calculate_layer<D: NetworkData>(
    size: usize,
    network: &DirectedNetworkGraph<D>,
    contraction_factor: ContractionFactor,
) -> (r: Result<DirectedNetworkGraph<IntermediateData>, LayerError>)
    ensures
        (r is Err && r->Err_0 == LayerError::InvalidInput) <==> !(network.wf() && data_complete(
            network,
        ) && size >= 2),
        network.wf() && data_complete(network) && size >= 2 ==> level_outcome(
            network,
            size as int,
            contraction_factor,
            r,
        ),
        r is Ok ==> {
            &&& layer_of(network, size as int, contraction_factor, &r->Ok_0)
            &&& layer_ok(network, &r->Ok_0)
            &&& r->Ok_0.wf()
            &&& r->Ok_0.partitioned()
            &&& r->Ok_0.sorted()
            &&& data_complete(&r->Ok_0)
            &&& preimages_inside(network, &r->Ok_0)
            &&& forall|v: NodeId| v.0 < r->Ok_0.node_total() ==> #[trigger] r->Ok_0.data.has_node(v)
            &&& r->Ok_0.edge_total() > 0
        },
        r is Err && r->Err_0 == LayerError::Empty ==> level_is_empty(
            network,
            size as int,
            contraction_factor,
        ),
        r is Err && r->Err_0 == LayerError::Inconsistent ==> level_is_unwritable(
            network,
            size as int,
            contraction_factor,
        ),
        network.wf() && data_complete(network) && size >= 2 ==> {
            &&& level_is_empty(network, size as int, contraction_factor) ==> r is Err && r->Err_0
                == LayerError::Empty
            &&& level_is_unwritable(network, size as int, contraction_factor) ==> r is Err
                && r->Err_0 == LayerError::Inconsistent
        },
{
    if size < 2 || !network.is_valid() {
        return Err(LayerError::InvalidInput);
    }
    if !check_data(network) {
        return Err(LayerError::InvalidInput);
    }
    let intermediate = phase_1(size, network);
    let ghost reduced = intermediate;
    let core = phase_2(intermediate, contraction_factor);
    proof {
        lemma_singles_have_provenance(network, reduced.edge_map());
        let order = lemma_core_order(&reduced, contraction_factor, &core);
        lemma_bypass_all_keeps_provenance(network, reduced.edge_map(), order);
    }
    let written = write_level(&core);
    proof {
        reveal(layer_of);
        reveal(level_is_empty);
        reveal(level_is_unwritable);
        reveal(level_outcome);
        assert(reduced_from(network, size as int, &reduced) && core_of(
            &reduced,
            contraction_factor,
            &core,
        ) && level_from_core(&core, written));
        lemma_level_outcome_is_one(network, size as int, contraction_factor, written);
    }
    match written {
        Ok(graph) => {
            proof {
                let order = lemma_core_order(&reduced, contraction_factor, &core);
                lemma_layer_is_sound(network, &core, &graph);
                lemma_converted_is_complete(&core, &graph);
                assert forall|u: int| 0 <= u < graph.node_total() implies (#[trigger] preimage(
                    &graph,
                    u,
                )).0 < network.node_total() by {
                    assert(stands_for_node(&core, &graph, u));
                    assert(core.has_node(preimage(&graph, u)));
                    assert(reduced.has_node(preimage(&graph, u)));
                }
                reveal(layer_of);
                assert(reduced_from(network, size as int, &reduced) && core_of(
                    &reduced,
                    contraction_factor,
                    &core,
                ) && converted(&core, &graph));
                assert(level_from_core(&core, Ok(graph)));
            }
            Ok(graph)
        },
        Err(e) => Err(e),
    }
}

} // verus!
