//! A level is determined by the graph below it: the reduction makes one
//! intermediate graph of it, the contraction one core, and the graphs
//! that are written from that core hold the same nodes and the same
//! edges, whatever their numbers.

use vstd::prelude::*;
use crate::contraction::{
    bypass_step, contraction_trace, contracts_to, core_of, lemma_core_is_determined, same_shape,
    ContractionFactor,
};
use crate::dag::VisitedState;
use crate::direction::EdgeDirection;
use crate::graph::DirectedNetworkGraph;
use crate::ids::{EdgeId, NodeId};
use crate::intermediate::{edge_key, key_source, key_target, IntermediateNetwork};
use crate::layer::{
    all_entries_in, entry_in, source_covered, convertible, converted, ends_edge, has_image,
    image_of, layer_of, level_from_core, level_is_empty, level_is_unwritable, level_outcome,
    preimage, radii_of, record_explained, reduced_from, LayerError,
};
use crate::lists::lemma_list_len;
use crate::paths::{is_walk, walk_end, walk_weight};
use crate::phase_one::{search_outcome, sweep};
use crate::retention::lemma_shortest_path_edges_are_kept;
use crate::search_steps::lemma_retained_is_determined;
use crate::node_data::{IntermediateData, NetworkData};
use crate::reduction::{lemma_radii_are_one, lemma_reduced_upto_agrees, reduced_upto};

verus! {

/// The reduction is determined: two reductions of one graph for one size
/// make intermediate graphs that look alike.
pub proof fn lemma_reduction_is_determined<D: NetworkData>(
    g: &DirectedNetworkGraph<D>,
    size: int,
    a: &IntermediateNetwork,
    b: &IntermediateNetwork,
)
    requires
        reduced_from(g, size, a),
        reduced_from(g, size, b),
    ensures
        same_shape(a, b),
{
    let (forward_a, backward_a) = choose|forward: Seq<u64>, backward: Seq<u64>| #[trigger]
        radii_of(g, size, forward, backward) && reduced_upto(
            g,
            forward,
            backward,
            g.node_total() as int,
            a,
        );
    let (forward_b, backward_b) = choose|forward: Seq<u64>, backward: Seq<u64>| #[trigger]
        radii_of(g, size, forward, backward) && reduced_upto(
            g,
            forward,
            backward,
            g.node_total() as int,
            b,
        );
    lemma_radii_are_one(g, size, forward_a, backward_a, forward_b, backward_b);
    lemma_reduced_upto_agrees(g, forward_a, backward_a, g.node_total() as int, a, b);
}

/// The core of a well-formed graph is well formed.
pub proof fn lemma_core_is_well_formed(
    origin: &IntermediateNetwork,
    c: ContractionFactor,
    core: &IntermediateNetwork,
)
    requires
        origin.wf(),
        core_of(origin, c, core),
    ensures
        core.wf(),
{
    let (order, states) = choose|order: Seq<NodeId>, states: Seq<IntermediateNetwork>|
        {
            &&& contracts_to(origin, order, core)
            &&& #[trigger] contraction_trace(states, order, c)
            &&& states[0] == *origin
            &&& states[order.len() as int] == *core
        };
    if order.len() > 0 {
        let last = order.len() - 1;
        assert(bypass_step(&states[last], order[last], &states[last + 1]));
    }
}

/// The core of a level is determined: two reductions and contractions of
/// one graph make cores that look alike.
pub proof fn lemma_level_core_is_one<D: NetworkData>(
    g: &DirectedNetworkGraph<D>,
    size: int,
    c: ContractionFactor,
    reduced_a: &IntermediateNetwork,
    core_a: &IntermediateNetwork,
    reduced_b: &IntermediateNetwork,
    core_b: &IntermediateNetwork,
)
    requires
        reduced_from(g, size, reduced_a),
        core_of(reduced_a, c, core_a),
        reduced_from(g, size, reduced_b),
        core_of(reduced_b, c, core_b),
    ensures
        same_shape(core_a, core_b),
        core_a.wf(),
        core_b.wf(),
{
    lemma_reduction_is_determined(g, size, reduced_a, reduced_b);
    lemma_core_is_determined(reduced_a, reduced_b, c, core_a, core_b);
    lemma_core_is_well_formed(reduced_a, c, core_a);
    lemma_core_is_well_formed(reduced_b, c, core_b);
}

/// Whether a level is empty or cannot be written goes by the graph below
/// it alone: if the build of a level has one of the three outcomes, no
/// build of it has another.
pub proof fn lemma_level_outcome_is_one<D: NetworkData>(
    g: &DirectedNetworkGraph<D>,
    size: int,
    c: ContractionFactor,
    r: Result<DirectedNetworkGraph<IntermediateData>, LayerError>,
)
    requires
        level_outcome(g, size, c, r),
    ensures
        (r is Err && r->Err_0 == LayerError::Empty) <==> level_is_empty(g, size, c),
        (r is Err && r->Err_0 == LayerError::Inconsistent) <==> level_is_unwritable(g, size, c),
        r is Ok <==> !level_is_empty(g, size, c) && !level_is_unwritable(g, size, c),
{
    reveal(level_outcome);
    reveal(level_is_empty);
    reveal(level_is_unwritable);
    let (reduced, core) = choose|reduced: IntermediateNetwork, core: IntermediateNetwork|
        #![trigger reduced_from(g, size, &reduced), core_of(&reduced, c, &core)]
        reduced_from(g, size, &reduced) && core_of(&reduced, c, &core) && level_from_core(&core, r);
    if level_is_empty(g, size, c) {
        let (other, bare) = choose|reduced: IntermediateNetwork, core: IntermediateNetwork|
            #![trigger reduced_from(g, size, &reduced), core_of(&reduced, c, &core)]
            reduced_from(g, size, &reduced) && core_of(&reduced, c, &core) && core.edge_map().len()
                == 0;
        lemma_level_core_is_one(g, size, c, &reduced, &core, &other, &bare);
    }
    if level_is_unwritable(g, size, c) {
        let (other, heavy) = choose|reduced: IntermediateNetwork, core: IntermediateNetwork|
            #![trigger reduced_from(g, size, &reduced), core_of(&reduced, c, &core)]
            reduced_from(g, size, &reduced) && core_of(&reduced, c, &core) && core.edge_map().len()
                > 0 && !convertible(&core);
        lemma_level_core_is_one(g, size, c, &reduced, &core, &other, &heavy);
    }
}

/// Whether record `j` of node `u` of `a` and record `y` of node `x` of `b`
/// stand for the same edge in the same way: their ends stand for the same
/// nodes of the graph below, and they have the same direction, weight and
/// provenance.
pub open spec fn records_alike(
    a: &DirectedNetworkGraph<IntermediateData>,
    u: int,
    j: int,
    b: &DirectedNetworkGraph<IntermediateData>,
    x: int,
    y: int,
) -> bool {
    &&& b.in_range(x, y)
    &&& preimage(b, x) == preimage(a, u)
    &&& preimage(b, b.edges@[y].target_node.0 as int) == preimage(
        a,
        a.edges@[j].target_node.0 as int,
    )
    &&& b.edges@[y].direction == a.edges@[j].direction
    &&& b.edges@[y].edge_weight == a.edges@[j].edge_weight
    &&& b.data.edge_view(EdgeId(y as u32)) == a.data.edge_view(EdgeId(j as u32))
    &&& b.data.road_chain(EdgeId(y as u32)) == a.data.road_chain(EdgeId(j as u32))
}

/// Whether `b` holds every record of `a`, under some number.
pub open spec fn holds_records_of(
    b: &DirectedNetworkGraph<IntermediateData>,
    a: &DirectedNetworkGraph<IntermediateData>,
) -> bool {
    forall|u: int, j: int| #[trigger]
        a.in_range(u, j) ==> exists|x: int, y: int| #[trigger] records_alike(a, u, j, b, x, y)
}

/// Whether two levels are alike but for the numbers of their nodes and
/// records: as many nodes, as many records, and each holds the records of
/// the other.
pub open spec fn levels_alike(
    a: &DirectedNetworkGraph<IntermediateData>,
    b: &DirectedNetworkGraph<IntermediateData>,
) -> bool {
    &&& a.node_total() == b.node_total()
    &&& a.edge_total() == b.edge_total()
    &&& holds_records_of(b, a)
    &&& holds_records_of(a, b)
}

/// The place in `b` of the node that stands for what node `u` of `a`
/// stands for.
pub open spec fn twin(
    a: &DirectedNetworkGraph<IntermediateData>,
    b: &DirectedNetworkGraph<IntermediateData>,
    u: int,
) -> int {
    choose|x: int| 0 <= x < b.node_total() && preimage(b, x) == preimage(a, u)
}

/// A graph written from a core has a node for every node of another graph
/// written from a core with the same edges.
proof fn lemma_node_has_twin(
    core_a: &IntermediateNetwork,
    a: &DirectedNetworkGraph<IntermediateData>,
    core_b: &IntermediateNetwork,
    b: &DirectedNetworkGraph<IntermediateData>,
    u: int,
)
    requires
        core_a.wf(),
        core_a.edge_map() == core_b.edge_map(),
        converted(core_a, a),
        converted(core_b, b),
        0 <= u < a.node_total(),
    ensures
        0 <= twin(a, b, u) < b.node_total(),
        preimage(b, twin(a, b, u)) == preimage(a, u),
{
    let m = core_a.edge_map();
    let p = preimage(a, u);
    core_a.lemma_wf();
    assert(ends_edge(core_a, preimage(a, u)));
    let k = choose|k: u64| #[trigger] m.contains_key(k) && (key_source(k) == p || key_target(k) == p);
    let e = m[k];
    assert(has_image(b, e, true));
    let (x, y) = choose|x: int, y: int| #[trigger] image_of(b, e, x, y, true);
    if key_source(k) == p {
        assert(0 <= x < b.node_total() && preimage(b, x) == preimage(a, u));
    } else {
        let t = b.edges@[y].target_node.0 as int;
        assert(0 <= t < b.node_total() && preimage(b, t) == preimage(a, u));
    }
}

/// A graph written from a core has no more nodes than another graph
/// written from a core with the same edges.
proof fn lemma_no_more_nodes(
    core_a: &IntermediateNetwork,
    a: &DirectedNetworkGraph<IntermediateData>,
    core_b: &IntermediateNetwork,
    b: &DirectedNetworkGraph<IntermediateData>,
)
    requires
        core_a.wf(),
        core_a.edge_map() == core_b.edge_map(),
        converted(core_a, a),
        converted(core_b, b),
    ensures
        a.node_total() <= b.node_total(),
{
    let n = a.node_total() as int;
    let twins = Seq::new(n as nat, |u: int| twin(a, b, u) as u32);
    assert forall|u: int| 0 <= u < n implies 0 <= twin(a, b, u) < b.node_total() && preimage(
        b,
        twin(a, b, u),
    ) == preimage(a, u) by {
        lemma_node_has_twin(core_a, a, core_b, b, u);
    }
    assert forall|u: int, v: int| 0 <= u < twins.len() && 0 <= v < twins.len() && u != v implies twins[u]
        != twins[v] by {
        assert(preimage(b, twin(a, b, u)) == preimage(a, u));
        assert(preimage(b, twin(a, b, v)) == preimage(a, v));
        if u < v {
            assert(preimage(a, u) != preimage(a, v));
        } else {
            assert(preimage(a, v) != preimage(a, u));
        }
    }
    assert forall|u: int| 0 <= u < twins.len() implies (#[trigger] twins[u]) < b.node_total() by {
        assert(0 <= twin(a, b, u) < b.node_total());
    }
    lemma_list_len(twins, b.node_total() as int);
}

/// A graph written from a core holds the records of another graph
/// written from a core with the same edges.
proof fn lemma_holds_records(
    core_a: &IntermediateNetwork,
    a: &DirectedNetworkGraph<IntermediateData>,
    core_b: &IntermediateNetwork,
    b: &DirectedNetworkGraph<IntermediateData>,
)
    requires
        core_a.edge_map() == core_b.edge_map(),
        converted(core_a, a),
        converted(core_b, b),
    ensures
        holds_records_of(b, a),
{
    let m = core_a.edge_map();
    assert forall|u: int, j: int| #[trigger] a.in_range(u, j) implies exists|x: int, y: int| #[trigger]
        records_alike(a, u, j, b, x, y) by {
        assert(record_explained(a, m, u, j));
        let (k, forward) = choose|k: u64, forward: bool|
            m.contains_key(k) && #[trigger] image_of(a, m[k], u, j, forward);
        assert(has_image(b, m[k], forward));
        let (x, y) = choose|x: int, y: int| #[trigger] image_of(b, m[k], x, y, forward);
        assert(records_alike(a, u, j, b, x, y));
    }
}

/// Two graphs written from cores that look alike are alike.
pub proof fn lemma_written_alike(
    core_a: &IntermediateNetwork,
    a: &DirectedNetworkGraph<IntermediateData>,
    core_b: &IntermediateNetwork,
    b: &DirectedNetworkGraph<IntermediateData>,
)
    requires
        core_a.wf(),
        core_b.wf(),
        same_shape(core_a, core_b),
        converted(core_a, a),
        converted(core_b, b),
    ensures
        levels_alike(a, b),
{
    lemma_no_more_nodes(core_a, a, core_b, b);
    lemma_no_more_nodes(core_b, b, core_a, a);
    lemma_holds_records(core_a, a, core_b, b);
    lemma_holds_records(core_b, b, core_a, a);
}

/// A level is determined: two levels that are built above one graph,
/// with the same size and the same factor, are alike but for the numbers
/// of their nodes and records.
pub proof fn lemma_level_is_determined<D: NetworkData>(
    g: &DirectedNetworkGraph<D>,
    size: int,
    c: ContractionFactor,
    a: &DirectedNetworkGraph<IntermediateData>,
    b: &DirectedNetworkGraph<IntermediateData>,
)
    requires
        layer_of(g, size, c, a),
        layer_of(g, size, c, b),
    ensures
        levels_alike(a, b),
{
    reveal(layer_of);
    let (reduced_a, core_a) = choose|reduced: IntermediateNetwork, core: IntermediateNetwork|
        #![trigger reduced_from(g, size, &reduced), core_of(&reduced, c, &core)]
        reduced_from(g, size, &reduced) && core_of(&reduced, c, &core) && converted(&core, a);
    let (reduced_b, core_b) = choose|reduced: IntermediateNetwork, core: IntermediateNetwork|
        #![trigger reduced_from(g, size, &reduced), core_of(&reduced, c, &core)]
        reduced_from(g, size, &reduced) && core_of(&reduced, c, &core) && converted(&core, b);
    lemma_level_core_is_one(g, size, c, &reduced_a, &core_a, &reduced_b, &core_b);
    lemma_written_alike(&core_a, a, &core_b, b);
}

/// Retention covers shortest paths, in the reduced graph. Take a walk
/// between nodes that the search from `s0` settled, part of a shortest
/// path from `s0`. If its first record enters a node at or beyond the
/// forward radius of `s0`, and the walk weighs more than the backward
/// radius of the node where it ends, then the reduced graph joins the
/// two ends of that record by an edge that is no heavier.
#[verifier::rlimit(40)]
pub proof fn lemma_reduction_keeps_far_edges<D: NetworkData>(
    g: &DirectedNetworkGraph<D>,
    size: int,
    net: &IntermediateNetwork,
    s0: NodeId,
    forward: Seq<u64>,
    backward: Seq<u64>,
    order: Seq<(NodeId, (EdgeId, u64))>,
    visited: Map<u32, VisitedState>,
    p: u32,
    walk: Seq<int>,
)
    requires
        g.wf(),
        reduced_from(g, size, net),
        radii_of(g, size, forward, backward),
        s0.0 < g.node_total(),
        search_outcome(g, s0, forward, backward, order, visited),
        walk.len() >= 1,
        is_walk(g, EdgeDirection::Forward, p as int, walk),
        visited.contains_key(p),
        forall|k: int|
            0 <= k < walk.len() ==> visited.contains_key(g.edges@[#[trigger] walk[k]].target_node.0),
        visited[p].distance + walk_weight(g, walk) == visited[walk_end(
            g,
            p as int,
            walk,
        ) as u32].distance,
        visited[g.edges@[walk[0]].target_node.0].distance >= forward[s0.0 as int],
        walk_weight(g, walk) > backward[walk_end(g, p as int, walk)],
    ensures
        net.edge_map().contains_key(edge_key(NodeId(p), g.edges@[walk[0]].target_node)),
        net.edge_map()[edge_key(NodeId(p), g.edges@[walk[0]].target_node)].weight
            <= g.edges@[walk[0]].edge_weight,
{
    let e = lemma_shortest_path_edges_are_kept(g, s0, forward, backward, order, visited, p, walk);
    let m = net.edge_map();
    let (forward_b, backward_b) = choose|forward: Seq<u64>, backward: Seq<u64>| #[trigger]
        radii_of(g, size, forward, backward) && forall|s: int|
            0 <= s < g.node_total() ==> #[trigger] source_covered(g, m, s, forward, backward);
    lemma_radii_are_one(g, size, forward, backward, forward_b, backward_b);
    assert(source_covered(g, m, s0.0 as int, forward, backward));
    let (order_b, visited_b) = choose|
        order: Seq<(NodeId, (EdgeId, u64))>,
        visited: Map<u32, VisitedState>,
    |
        search_outcome(g, NodeId(s0.0 as int as u32), forward, backward, order, visited)
            && #[trigger] all_entries_in(
            g,
            m,
            sweep(order, visited, forward[s0.0 as int], backward).1,
        );
    reveal(search_outcome);
    lemma_retained_is_determined(
        g,
        s0,
        forward,
        backward,
        order,
        visited,
        order_b,
        visited_b,
        forward[s0.0 as int],
    );
    let list = sweep(order, visited, forward[s0.0 as int], backward).1;
    let i = choose|i: int| 0 <= i < list.len() && list[i] == (NodeId(p), e);
    assert(entry_in(g, m, list[i]));
}

} // verus!
