//! Edge reduction: the restricted search from one source, and the sweep
//! that picks the edges to keep for the next level.

use vstd::prelude::*;
use std::collections::HashMap;
use std::collections::VecDeque;
use crate::dag::{
    group, join_reference, key_of, kept, lemma_link_index, lemma_put_link, link_index, link_of,
    merge_links, DijkstraNodeState, HighwayNodeQueue, HighwayQueueEntry, ParentEntry,
    ParentLink, VisitedState,
};
use crate::dijkstra::{entry_ok, frontier_ok, relaxed, search_inv, trail_has, trail_ok};
use crate::dijkstra_laws::lemma_relax_step;
use crate::direction::EdgeDirection;
use crate::graph::DirectedNetworkGraph;
use crate::ids::{EdgeId, NodeId};
use crate::intermediate::capped_sum;
use crate::neighbourhood::ComputedState;
use crate::paths::{
    beyond, connects, is_distance, lemma_walk_positive, lemma_weight_nonnegative, walk_weight,
    within,
};

use crate::reduction::kept_from;
use crate::search_steps::{
    lemma_steps_grow, search_begins, search_goes_on, search_steps, searched, settles_key,
    SearchState,
};
use crate::phase_one_laws::{
    lemma_dag_is_ready, lemma_retained_are_arcs, lemma_search_ends, lemma_settle_carried,
    lemma_settle_prepare, lemma_settle_ready_marks, lemma_settle_ready_search, lemma_sweep,
    lemma_sweep_links,
};

verus! {

broadcast use vstd::std_specs::hash::group_hash_axioms;

/// The keys of the entries of a heap.
pub open spec fn keys(heap: Seq<DijkstraNodeState>) -> Seq<(u64, u32)> {
    heap.map_values(|e: DijkstraNodeState| key_of(e))
}

/// The index of the edge record of `link`.
pub open spec fn link_record(link: ParentLink) -> int {
    match link.edge {
        Some(e) => e.0 as int,
        None => 0,
    }
}

/// Whether `link` is an edge of a shortest path into `v`: an edge record
/// that leaves the parent, ends at `v`, has the weight that the link
/// names, and makes up the distance of `v` together with the distance of
/// the parent.
pub open spec fn link_ok<D>(
    g: &DirectedNetworkGraph<D>,
    visited: Map<u32, VisitedState>,
    v: u32,
    link: ParentLink,
) -> bool {
    &&& link.edge is Some
    &&& g.arc(EdgeDirection::Forward, link.parent.0 as int, link_record(link))
    &&& g.edges@[link_record(link)].target_node.0 == v
    &&& g.edges@[link_record(link)].edge_weight == link.weight
    &&& visited.contains_key(link.parent.0)
    &&& visited.contains_key(v)
    &&& visited[link.parent.0].distance + link.weight == visited[v].distance
}

/// Whether the entry `e` stands for an edge record that leaves a settled
/// node, at the distance that this record gives its target.
pub open spec fn entry_tight<D>(
    g: &DirectedNetworkGraph<D>,
    visited: Map<u32, VisitedState>,
    e: DijkstraNodeState,
) -> bool {
    &&& g.arc(EdgeDirection::Forward, e.parent.parent.0 as int, e.parent.parent_edge.0 as int)
    &&& g.edges@[e.parent.parent_edge.0 as int].target_node == e.current
    &&& g.edges@[e.parent.parent_edge.0 as int].edge_weight == e.parent.parent_edge_distance
    &&& visited.contains_key(e.parent.parent.0)
    &&& visited[e.parent.parent.0].distance + e.parent.parent_edge_distance == e.distance
}

/// What the search knows of its source: it lies at distance zero, its
/// border distance is zero, its reference distance is not fixed, and it is
/// its own parent.
pub open spec fn source_state(s0: NodeId, state: VisitedState) -> bool {
    &&& state.border_distance == 0
    &&& state.reference_distance is None
    &&& state.distance == 0
    &&& state.parents@ == seq![ParentLink { parent: s0, edge: None, weight: 0 }]
}

/// What holds of the settled nodes of the restricted search: they are the
/// nodes of `trail` with the distances of `trail`, and every parent link of
/// a node other than the source is an edge of a shortest path into it.
pub open spec fn visited_ok<D>(
    g: &DirectedNetworkGraph<D>,
    s0: NodeId,
    trail: Seq<(NodeId, u64)>,
    visited: Map<u32, VisitedState>,
) -> bool {
    &&& forall|v: u32| #[trigger] visited.contains_key(v) <==> trail_has(trail, v as int)
    &&& forall|i: int|
        0 <= i < trail.len() ==> visited[(#[trigger] trail[i]).0.0].distance == trail[i].1
    &&& visited.contains_key(s0.0)
    &&& source_state(s0, visited[s0.0])
    &&& forall|v: u32, a: int|
        visited.contains_key(v) && v != s0.0 && 0 <= a < visited[v].parents@.len() ==> link_ok(
            g,
            visited,
            v,
            #[trigger] visited[v].parents@[a],
        )
    &&& forall|v: u32| #[trigger] visited.contains_key(v) ==> visited[v].parents@.len() > 0
    &&& forall|v: u32, a: int|
        visited.contains_key(v) && 0 <= a < visited[v].parents@.len() ==> visited.contains_key(
            (#[trigger] visited[v].parents@[a]).parent.0,
        )
}

/// Whether the entry `e` stands for the record `j` that leaves the
/// settled node `p`.
pub open spec fn stands_for_arc<D>(
    g: &DirectedNetworkGraph<D>,
    visited: Map<u32, VisitedState>,
    e: DijkstraNodeState,
    p: u32,
    j: int,
) -> bool {
    &&& e.parent.parent.0 == p
    &&& e.current == g.edges@[j].target_node
    &&& e.distance == visited[p].distance + g.edges@[j].edge_weight
}

/// Whether an entry waits for the record `j` that leaves the settled node
/// `p`.
pub open spec fn arc_pending<D>(
    g: &DirectedNetworkGraph<D>,
    heap: Seq<DijkstraNodeState>,
    visited: Map<u32, VisitedState>,
    p: u32,
    j: int,
) -> bool {
    exists|i: int| 0 <= i < heap.len() && stands_for_arc(g, visited, #[trigger] heap[i], p, j)
}

/// Whether the record `j` that leaves the settled node `p` has been
/// followed: its target is settled, or an entry waits for it.
pub open spec fn arc_followed<D>(
    g: &DirectedNetworkGraph<D>,
    heap: Seq<DijkstraNodeState>,
    visited: Map<u32, VisitedState>,
    p: u32,
    j: int,
) -> bool {
    visited.contains_key(g.edges@[j].target_node.0) || arc_pending(g, heap, visited, p, j)
}

/// Whether every record that leaves a settled node other than `but` has
/// been followed.
pub open spec fn arcs_followed<D>(
    g: &DirectedNetworkGraph<D>,
    heap: Seq<DijkstraNodeState>,
    visited: Map<u32, VisitedState>,
    but: int,
) -> bool {
    forall|p: u32, j: int|
        visited.contains_key(p) && p != but && g.arc(EdgeDirection::Forward, p as int, j)
            ==> #[trigger] arc_followed(g, heap, visited, p, j)
}

/// Whether `links` names `p` as a parent.
pub open spec fn has_parent(links: Seq<ParentLink>, p: u32) -> bool {
    exists|a: int| 0 <= a < links.len() && (#[trigger] links[a]).parent.0 == p
}

/// Whether the parents of every settled node are all there: every settled
/// node from which an edge record leads into the node on a shortest path
/// is among them.
pub open spec fn parents_complete<D>(
    g: &DirectedNetworkGraph<D>,
    s0: NodeId,
    visited: Map<u32, VisitedState>,
) -> bool {
    forall|p: u32, j: int|
        visited.contains_key(p) && g.arc(EdgeDirection::Forward, p as int, j)
            && visited.contains_key(g.edges@[j].target_node.0) && g.edges@[j].target_node != s0
            && visited[p].distance + g.edges@[j].edge_weight
            == visited[g.edges@[j].target_node.0].distance ==> #[trigger] tight_parent_known(
            g,
            visited,
            p,
            j,
        )
}

/// Whether the node `p`, from which the record `j` leaves, is among the
/// parents of the target of `j`.
pub open spec fn tight_parent_known<D>(
    g: &DirectedNetworkGraph<D>,
    visited: Map<u32, VisitedState>,
    p: u32,
    j: int,
) -> bool {
    has_parent(visited[g.edges@[j].target_node.0].parents@, p)
}

/// Whether the node `t` at distance `d` comes after the pair `last`:
/// farther, or as far and with a larger id.
pub open spec fn after_key(last: (NodeId, u64), d: int, t: u32) -> bool {
    last.1 < d || (last.1 == d && last.0.0 < t)
}

/// Whether the entry `e` comes after the node settled last and carries
/// the activity of its parent.
pub open spec fn entry_marked(act: Map<u32, bool>, last: (NodeId, u64), e: DijkstraNodeState) -> bool {
    after_key(last, e.distance as int, e.current.0) && e.parent.active == act[e.parent.parent.0]
}

/// Whether every entry comes after the node settled last and carries the
/// activity of its parent.
pub open spec fn entries_marked(
    heap: Seq<DijkstraNodeState>,
    act: Map<u32, bool>,
    last: (NodeId, u64),
) -> bool {
    forall|i: int| 0 <= i < heap.len() ==> entry_marked(act, last, #[trigger] heap[i])
}

/// Whether an entry waits for every record that leaves a settled node
/// other than `but` and leads to a place after the node settled last.
pub open spec fn arcs_waiting<D>(
    g: &DirectedNetworkGraph<D>,
    heap: Seq<DijkstraNodeState>,
    visited: Map<u32, VisitedState>,
    last: (NodeId, u64),
    but: int,
) -> bool {
    forall|p: u32, j: int|
        visited.contains_key(p) && p != but && g.arc(EdgeDirection::Forward, p as int, j)
            && after_key(
            last,
            visited[p].distance + g.edges@[j].edge_weight,
            g.edges@[j].target_node.0,
        ) ==> #[trigger] arc_pending(g, heap, visited, p, j)
}

/// Whether `v` is among the first `m + 1` nodes of `trail`.
pub open spec fn prefix_has(trail: Seq<(NodeId, u64)>, m: int, v: int) -> bool {
    exists|i: int| 0 <= i <= m && i < trail.len() && (#[trigger] trail[i]).0.0 == v
}

/// Whether, once the first `m + 1` nodes of `trail` are settled, the
/// record `j` that leaves the settled node `p` waits to be followed: it
/// leads to a place after the node settled last.
pub open spec fn arc_waits<D>(
    g: &DirectedNetworkGraph<D>,
    trail: Seq<(NodeId, u64)>,
    visited: Map<u32, VisitedState>,
    m: int,
    p: u32,
    j: int,
) -> bool {
    &&& prefix_has(trail, m, p as int)
    &&& g.arc(EdgeDirection::Forward, p as int, j)
    &&& after_key(trail[m], visited[p].distance + g.edges@[j].edge_weight, g.edges@[j].target_node.0)
}

/// Whether, once the first `m + 1` nodes of `trail` are settled, a record
/// waits that leaves a node at which the search is active.
pub open spec fn active_waits<D>(
    g: &DirectedNetworkGraph<D>,
    trail: Seq<(NodeId, u64)>,
    visited: Map<u32, VisitedState>,
    act: Map<u32, bool>,
    m: int,
) -> bool {
    exists|p: u32, j: int| #[trigger] arc_waits(g, trail, visited, m, p, j) && act[p]
}

/// Whether, once the first `m + 1` nodes of `trail` are settled, a record
/// waits that leads to a node that is not settled.
pub open spec fn live_waits<D>(
    g: &DirectedNetworkGraph<D>,
    trail: Seq<(NodeId, u64)>,
    visited: Map<u32, VisitedState>,
    m: int,
) -> bool {
    exists|p: u32, j: int| #[trigger]
        arc_waits(g, trail, visited, m, p, j) && !prefix_has(
            trail,
            m,
            g.edges@[j].target_node.0 as int,
        )
}

/// Whether the search goes on once the first `m + 1` nodes of `trail` are
/// settled: a record waits that leaves a node at which the search is
/// active, and a record waits that leads to a node that is not settled.
pub open spec fn went_on<D>(
    g: &DirectedNetworkGraph<D>,
    trail: Seq<(NodeId, u64)>,
    visited: Map<u32, VisitedState>,
    act: Map<u32, bool>,
    m: int,
) -> bool {
    active_waits(g, trail, visited, act, m) && live_waits(g, trail, visited, m)
}

/// Whether the search is active at one of the parents named in `links`.
pub open spec fn any_link_active(links: Seq<ParentLink>, act: Map<u32, bool>) -> bool {
    exists|a: int| 0 <= a < links.len() && act[(#[trigger] links[a]).parent.0]
}

/// Whether `act` says at which settled nodes the search is active: at the
/// source, and at every other node that has a parent at which it is
/// active and at which it does not stop being so.
pub open spec fn activity_ok(
    s0: NodeId,
    backward: Seq<u64>,
    visited: Map<u32, VisitedState>,
    act: Map<u32, bool>,
) -> bool {
    &&& act[s0.0]
    &&& forall|v: u32| #[trigger]
        visited.contains_key(v) && v != s0.0 ==> act[v] == (any_link_active(
            visited[v].parents@,
            act,
        ) && !abort_rule(
            visited[v].reference_distance,
            backward[v as int],
            visited[v].distance,
        ))
}

/// How far the search goes: after every settled node but the last it went
/// on, and after the last it does not.
pub open spec fn extent_ok<D>(
    g: &DirectedNetworkGraph<D>,
    s0: NodeId,
    backward: Seq<u64>,
    trail: Seq<(NodeId, u64)>,
    visited: Map<u32, VisitedState>,
) -> bool {
    exists|act: Map<u32, bool>| #[trigger]
        activity_ok(s0, backward, visited, act) && extent_with(g, trail, visited, act)
}

/// How far the search goes, given at which nodes it is active.
pub open spec fn extent_with<D>(
    g: &DirectedNetworkGraph<D>,
    trail: Seq<(NodeId, u64)>,
    visited: Map<u32, VisitedState>,
    act: Map<u32, bool>,
) -> bool {
    &&& forall|m: int| 0 <= m < trail.len() - 1 ==> #[trigger] went_on(g, trail, visited, act, m)
    &&& !went_on(g, trail, visited, act, trail.len() - 1)
}

/// The invariant of the restricted search.
pub open spec fn dag_inv<D>(
    g: &DirectedNetworkGraph<D>,
    s0: NodeId,
    trail: Seq<(NodeId, u64)>,
    heap: Seq<DijkstraNodeState>,
    visited: Map<u32, VisitedState>,
) -> bool {
    &&& search_inv(g, EdgeDirection::Forward, s0.0 as int, trail, keys(heap))
    &&& trail.len() > 0
    &&& visited_ok(g, s0, trail, visited)
    &&& forall|i: int| 0 <= i < heap.len() ==> entry_tight(g, visited, #[trigger] heap[i])
}

/// The order in which the search settled its nodes, the source first, read
/// from the record of the search, which lists the last node first and
/// leaves the source out.
pub open spec fn settle_trail(s0: NodeId, order: Seq<(NodeId, (EdgeId, u64))>) -> Seq<(NodeId, u64)> {
    Seq::new(
        order.len() + 1,
        |i: int|
            if i == 0 {
                (s0, 0u64)
            } else {
                (order[order.len() - i].0, order[order.len() - i].1.1)
            },
    )
}

/// What holds of the outcome of the restricted search from `s0`: the nodes
/// of the record are distinct, the farthest comes first, each is listed at
/// its shortest distance from `s0`, and the parent links of each are edges
/// of shortest paths into it.
pub open spec fn dag_ok<D>(
    g: &DirectedNetworkGraph<D>,
    s0: NodeId,
    order: Seq<(NodeId, (EdgeId, u64))>,
    visited: Map<u32, VisitedState>,
) -> bool {
    &&& trail_ok(g, EdgeDirection::Forward, s0.0 as int, settle_trail(s0, order))
    &&& visited_ok(g, s0, settle_trail(s0, order), visited)
}

/// The border distance of a node: its distance plus its forward radius if
/// the source is one of its parents, else the largest border distance of a
/// parent.
pub open spec fn border_rule(
    s0: NodeId,
    parents: Seq<ParentLink>,
    forward_radius: u64,
    parent_border_distance: u64,
) -> u64 {
    let i = link_index(parents, s0);
    if i < parents.len() {
        capped_sum(parents[i].weight as u64, forward_radius)
    } else {
        parent_border_distance
    }
}

/// The largest distance of a parent named in `links`.
pub open spec fn max_distance(links: Seq<ParentLink>, visited: Map<u32, VisitedState>) -> u64
    decreases links.len(),
{
    if links.len() == 0 {
        0
    } else {
        let head = max_distance(links.drop_last(), visited);
        let last = visited[links.last().parent.0].distance;
        if head >= last {
            head
        } else {
            last
        }
    }
}

/// The largest distance of a parent of a parent named in `parents`.
pub open spec fn max_grand_distance(parents: Seq<ParentLink>, visited: Map<u32, VisitedState>) -> u64
    decreases parents.len(),
{
    if parents.len() == 0 {
        0
    } else {
        let head = max_grand_distance(parents.drop_last(), visited);
        let last = max_distance(visited[parents.last().parent.0].parents@, visited);
        if head >= last {
            head
        } else {
            last
        }
    }
}

/// The reference distance of a node: that of its parents if it is fixed or
/// the node lies within its border distance, else the largest distance of a
/// parent of a parent.
pub open spec fn reference_rule(
    distance: u64,
    reference_distance: Option<u64>,
    border_distance: u64,
    parents: Seq<ParentLink>,
    visited: Map<u32, VisitedState>,
) -> Option<u64> {
    if reference_distance is None && distance > border_distance {
        Some(max_grand_distance(parents, visited))
    } else {
        reference_distance
    }
}

/// Whether the search stops being active at a node: its reference distance
/// is fixed and lies farther behind it than its backward radius.
pub open spec fn abort_rule(reference_distance: Option<u64>, backward_radius: u64, distance: u64) -> bool {
    reference_distance is Some && reference_distance->0 + backward_radius < distance
}

/// Whether the parents named in `parents` and their parents are settled.
pub open spec fn grand_known(parents: Seq<ParentLink>, visited: Map<u32, VisitedState>) -> bool {
    forall|a: int|
        0 <= a < parents.len() ==> visited.contains_key((#[trigger] parents[a]).parent.0) && forall|
            b: int,
        |
            0 <= b < visited[parents[a].parent.0].parents@.len() ==> visited.contains_key(
                (#[trigger] visited[parents[a].parent.0].parents@[b]).parent.0,
            )
}

/// The border distance of `node`.
pub fn border_distance(
    s0: NodeId,
    node: NodeId,
    parents: &Vec<ParentLink>,
    computed: &ComputedState,
    parent_border_distance: u64,
) -> (r: u64)
    requires
        node.0 < computed.forward@.len(),
    ensures
        r == border_rule(s0, parents@, computed.forward@[node.0 as int], parent_border_distance),
{
    let mut i: usize = 0;
    proof {
        lemma_link_index(parents@, s0);
    }
    while i < parents.len()
        invariant
            i <= parents@.len(),
            forall|k: int| 0 <= k < i ==> (#[trigger] parents@[k]).parent != s0,
            node.0 < computed.forward@.len(),
        decreases parents@.len() - i,
    {
        if parents[i].parent.0 == s0.0 {
            proof {
                lemma_link_index(parents@, s0);
                let at = link_index(parents@, s0);
                if i < at {
                    assert(parents@[i as int].parent != s0);
                }
                if at < i {
                    assert(parents@[at].parent != s0);
                }
            }
            let radius = computed.forward.radius(node);
            return (parents[i].weight as u64).saturating_add(radius);
        }
        i += 1;
    }
    proof {
        lemma_link_index(parents@, s0);
        let at = link_index(parents@, s0);
        if at < parents@.len() {
            assert(parents@[at].parent != s0);
        }
    }
    parent_border_distance
}

fn largest_distance(links: &Vec<ParentLink>, visited: &HashMap<u32, VisitedState>) -> (r: u64)
    requires
        forall|b: int| 0 <= b < links@.len() ==> visited@.contains_key((#[trigger] links@[b]).parent.0),
    ensures
        r == max_distance(links@, visited@),
{
    let mut best: u64 = 0;
    let mut i: usize = 0;
    while i < links.len()
        invariant
            i <= links@.len(),
            best == max_distance(links@.subrange(0, i as int), visited@),
            forall|b: int|
                0 <= b < links@.len() ==> visited@.contains_key((#[trigger] links@[b]).parent.0),
        decreases links@.len() - i,
    {
        proof {
            assert(links@.subrange(0, i + 1).drop_last() =~= links@.subrange(0, i as int));
            assert(visited@.contains_key(links@[i as int].parent.0));
        }
        let state = visited.get(&links[i].parent.0).unwrap();
        if state.distance > best {
            best = state.distance;
        }
        i += 1;
    }
    assert(links@.subrange(0, i as int) =~= links@);
    best
}

/// The reference distance of the node of `entry`.
pub fn reference_distance(
    entry: &HighwayQueueEntry,
    border_distance: u64,
    visited: &HashMap<u32, VisitedState>,
) -> (r: Option<u64>)
    requires
        grand_known(entry.parents@, visited@),
    ensures
        r == reference_rule(
            entry.state.distance,
            entry.reference_distance,
            border_distance,
            entry.parents@,
            visited@,
        ),
{
    if entry.reference_distance.is_none() && entry.state.distance > border_distance {
        let parents = &entry.parents;
        let mut best: u64 = 0;
        let mut i: usize = 0;
        while i < parents.len()
            invariant
                i <= parents@.len(),
                best == max_grand_distance(parents@.subrange(0, i as int), visited@),
                grand_known(parents@, visited@),
            decreases parents@.len() - i,
        {
            proof {
                assert(parents@.subrange(0, i + 1).drop_last() =~= parents@.subrange(0, i as int));
                assert(visited@.contains_key(parents@[i as int].parent.0));
            }
            let state = visited.get(&parents[i].parent.0).unwrap();
            let far = largest_distance(&state.parents, visited);
            if far > best {
                best = far;
            }
            i += 1;
        }
        assert(parents@.subrange(0, i as int) =~= parents@);
        Some(best)
    } else {
        entry.reference_distance
    }
}

/// Whether the search stops being active at a node.
pub fn should_abort(reference_distance: Option<u64>, backward_radius: u64, distance: u64) -> (r: bool)
    ensures
        r == abort_rule(reference_distance, backward_radius, distance),
{
    match reference_distance {
        Some(reference) => (reference as u128) + (backward_radius as u128) < distance as u128,
        None => false,
    }
}

/// What holds between two steps of the restricted search.
#[verifier::opaque]
pub open spec fn settled_inv<D>(
    g: &DirectedNetworkGraph<D>,
    s0: NodeId,
    forward: Seq<u64>,
    backward: Seq<u64>,
    trail: Seq<(NodeId, u64)>,
    heap: Seq<DijkstraNodeState>,
    visited: Map<u32, VisitedState>,
    act: Map<u32, bool>,
) -> bool {
    &&& dag_inv(g, s0, trail, heap, visited)
    &&& arcs_followed(g, heap, visited, -1)
    &&& entries_marked(heap, act, trail.last())
    &&& arcs_waiting(g, heap, visited, trail.last(), -1)
    &&& carried(g, s0, forward, backward, trail, visited, act)
}

/// What a step of the restricted search does not touch once a node is
/// settled: the rules hold of the settled nodes, their parents are
/// complete, and the search went on after every node but the last.
#[verifier::opaque]
pub open spec fn carried<D>(
    g: &DirectedNetworkGraph<D>,
    s0: NodeId,
    forward: Seq<u64>,
    backward: Seq<u64>,
    trail: Seq<(NodeId, u64)>,
    visited: Map<u32, VisitedState>,
    act: Map<u32, bool>,
) -> bool {
    &&& trail.len() <= g.node_total()
    &&& parents_complete(g, s0, visited)
    &&& rules_ok(s0, forward, visited)
    &&& activity_ok(s0, backward, visited, act)
    &&& forall|m: int| 0 <= m < trail.len() - 1 ==> #[trigger] went_on(g, trail, visited, act, m)
}

/// The part of the invariant that tells the distances: what holds of the
/// trail, of the waiting entries and of the settled nodes once `node` is
/// settled and before the records that leave it are followed.
#[verifier::opaque]
pub open spec fn ready_search<D>(
    g: &DirectedNetworkGraph<D>,
    s0: NodeId,
    trail: Seq<(NodeId, u64)>,
    heap: Seq<DijkstraNodeState>,
    visited: Map<u32, VisitedState>,
    node: NodeId,
    distance: u64,
) -> bool {
    &&& g.wf()
    &&& s0.0 < g.node_total()
    &&& node.0 < g.node_total()
    &&& trail.len() > 0
    &&& trail.len() <= g.node_total()
    &&& trail.last() == (node, distance)
    &&& trail_ok(g, EdgeDirection::Forward, s0.0 as int, trail)
    &&& forall|i: int|
        0 <= i < heap.len() ==> entry_ok(
            g,
            EdgeDirection::Forward,
            s0.0 as int,
            trail,
            #[trigger] keys(heap)[i],
        )
    &&& forall|i: int|
        0 <= i < trail.len() - 1 ==> #[trigger] relaxed(
            g,
            EdgeDirection::Forward,
            trail,
            keys(heap),
            i,
            g.edge_total(),
        )
    &&& exists|walk: Seq<int>|
        connects(g, EdgeDirection::Forward, s0.0 as int, node.0 as int, walk) && walk_weight(g, walk)
            == distance && walk.len() < trail.len()
    &&& distance <= (trail.len() - 1) * u32::MAX
    &&& visited_ok(g, s0, trail, visited)
    &&& forall|i: int| 0 <= i < heap.len() ==> entry_tight(g, visited, #[trigger] heap[i])
}

/// The part of the invariant that tells the activity of the waiting
/// entries, once `node` is settled and before the records that leave it
/// are followed.
#[verifier::opaque]
pub open spec fn ready_marks<D>(
    g: &DirectedNetworkGraph<D>,
    trail: Seq<(NodeId, u64)>,
    heap: Seq<DijkstraNodeState>,
    visited: Map<u32, VisitedState>,
    act: Map<u32, bool>,
    node: NodeId,
    active: bool,
) -> bool {
    &&& act[node.0] == active
    &&& entries_marked(heap, act, trail.last())
    &&& arcs_waiting(g, heap, visited, trail.last(), node.0 as int)
    &&& arcs_followed(g, heap, visited, node.0 as int)
}

/// What holds when a node is settled and the records that leave it are
/// yet to be followed.
pub open spec fn relax_ready<D>(
    g: &DirectedNetworkGraph<D>,
    s0: NodeId,
    forward: Seq<u64>,
    backward: Seq<u64>,
    trail: Seq<(NodeId, u64)>,
    heap: Seq<DijkstraNodeState>,
    visited: Map<u32, VisitedState>,
    act: Map<u32, bool>,
    node: NodeId,
    distance: u64,
    active: bool,
) -> bool {
    &&& ready_search(g, s0, trail, heap, visited, node, distance)
    &&& ready_marks(g, trail, heap, visited, act, node, active)
    &&& carried(g, s0, forward, backward, trail, visited, act)
}

/// The entry that waits for the target of record `j`, which leaves `node`
/// at distance `distance`.
pub open spec fn relax_entry<D>(
    g: &DirectedNetworkGraph<D>,
    node: NodeId,
    distance: u64,
    active: bool,
    j: int,
) -> DijkstraNodeState {
    DijkstraNodeState {
        current: g.edges@[j].target_node,
        distance: (distance + g.edges@[j].edge_weight) as u64,
        parent: ParentEntry {
            parent: node,
            parent_edge_distance: g.edges@[j].edge_weight,
            parent_edge: EdgeId(j as u32),
            active,
        },
    }
}

/// The entries that following the records `from..upto` adds to the queue,
/// in the order of the records: one for every record that a forward
/// search follows.
pub open spec fn relax_entries<D>(
    g: &DirectedNetworkGraph<D>,
    node: NodeId,
    distance: u64,
    active: bool,
    from: int,
    upto: int,
) -> Seq<DijkstraNodeState>
    decreases upto - from,
{
    if upto <= from {
        Seq::empty()
    } else {
        let head = relax_entries(g, node, distance, active, from, upto - 1);
        if g.edges@[upto - 1].direction.admits(EdgeDirection::Forward) {
            head.push(relax_entry(g, node, distance, active, upto - 1))
        } else {
            head
        }
    }
}

/// The entries that following all records of `node` adds to the queue.
pub open spec fn relax_all<D>(
    g: &DirectedNetworkGraph<D>,
    node: NodeId,
    distance: u64,
    active: bool,
) -> Seq<DijkstraNodeState> {
    relax_entries(
        g,
        node,
        distance,
        active,
        g.nodes@[node.0 as int].start_edge_index as int,
        g.nodes@[node.0 as int].last_edge_index as int,
    )
}

/// Follows every edge record that leaves `node`, settled last at distance
/// `distance`: the target of each waits in the queue from then on.
#[verifier::rlimit(40)]
fn relax_node<D>(
    heap: &mut HighwayNodeQueue,
    network: &DirectedNetworkGraph<D>,
    s0: NodeId,
    node: NodeId,
    distance: u64,
    active: bool,
    Ghost(trail): Ghost<Seq<(NodeId, u64)>>,
    Ghost(act): Ghost<Map<u32, bool>>,
    Ghost(forward): Ghost<Seq<u64>>,
    Ghost(backward): Ghost<Seq<u64>>,
)
    requires
        old(heap).wf(),
        network.wf(),
        node.0 < network.node_total(),
        relax_ready(
            network,
            s0,
            forward,
            backward,
            trail,
            old(heap).entries(),
            old(heap).visited_map(),
            act,
            node,
            distance,
            active,
        ),
    ensures
        final(heap).wf(),
        final(heap).visited_map() == old(heap).visited_map(),
        final(heap).entries() == old(heap).entries() + relax_all(network, node, distance, active),
        settled_inv(
            network,
            s0,
            forward,
            backward,
            trail,
            final(heap).entries(),
            final(heap).visited_map(),
            act,
        ),
{
    let ghost g = network;
    let ghost dir = EdgeDirection::Forward;
    let ghost s = s0.0 as int;
    let ghost known = heap.visited_map();
    let range = network.nodes[node.0 as usize];
    let mut j: u32 = range.start_edge_index;
    proof {
        reveal(ready_search);
        reveal(ready_marks);
        assert(keys(heap.entries()).len() == heap.entries().len());
        assert(trail_has(trail, node.0 as int)) by {
            assert(trail[trail.len() - 1].0.0 == node.0);
        }
        assert(known[trail[trail.len() - 1].0.0].distance == distance);
    }
    proof {
        assert(heap.entries() + Seq::<DijkstraNodeState>::empty() =~= heap.entries());
    }
    while j < range.last_edge_index
        invariant
            heap.entries() == old(heap).entries() + relax_entries(
                network,
                node,
                distance,
                active,
                range.start_edge_index as int,
                j as int,
            ),
            heap.wf(),
            g == network,
            g.wf(),
            s == s0.0,
            0 <= s < g.node_total(),
            dir == EdgeDirection::Forward,
            heap.visited_map() == known,
            known.contains_key(node.0),
            known[node.0].distance == distance,
            node.0 < g.node_total(),
            range == g.nodes@[node.0 as int],
            range.start_edge_index <= j <= range.last_edge_index,
            trail.len() > 0,
            trail.last() == (node, distance),
            distance <= (trail.len() - 1) * u32::MAX,
            trail.len() <= g.node_total(),
            trail_ok(g, dir, s, trail),
            forall|i: int|
                0 <= i < heap.entries().len() ==> entry_ok(
                    g,
                    dir,
                    s,
                    trail,
                    #[trigger] keys(heap.entries())[i],
                ),
            forall|i: int|
                0 <= i < trail.len() - 1 ==> #[trigger] relaxed(
                    g,
                    dir,
                    trail,
                    keys(heap.entries()),
                    i,
                    g.edge_total(),
                ),
            relaxed(g, dir, trail, keys(heap.entries()), trail.len() - 1, j as int),
            exists|walk: Seq<int>|
                connects(g, dir, s, node.0 as int, walk) && walk_weight(g, walk) == distance
                    && walk.len() < trail.len(),
            forall|i: int|
                0 <= i < heap.entries().len() ==> entry_tight(g, known, #[trigger] heap.entries()[i]),
            arcs_followed(g, heap.entries(), known, node.0 as int),
            forall|jb: int|
                jb < j && g.arc(EdgeDirection::Forward, node.0 as int, jb) ==> #[trigger] arc_pending(
                    g,
                    heap.entries(),
                    known,
                    node.0,
                    jb,
                ),
            act[node.0] == active,
            entries_marked(heap.entries(), act, trail.last()),
            arcs_waiting(g, heap.entries(), known, trail.last(), node.0 as int),
            carried(g, s0, forward, backward, trail, known, act),
            trail.len() <= g.node_total(),
        decreases range.last_edge_index - j,
    {
        let edge = network.edges[j as usize];
        let ghost before = heap.entries();
        assert(distance + edge.edge_weight <= u64::MAX) by (nonlinear_arith)
            requires
                distance <= (trail.len() - 1) * u32::MAX,
                trail.len() <= u32::MAX,
                edge.edge_weight <= u32::MAX,
        ;
        let follow = edge.direction.matches_search(EdgeDirection::Forward);
        if follow {
            let state = DijkstraNodeState {
                current: edge.target_node,
                distance: distance + edge.edge_weight as u64,
                parent: ParentEntry {
                    parent: node,
                    parent_edge_distance: edge.edge_weight,
                    parent_edge: EdgeId(j),
                    active,
                },
            };
            heap.push(state);
            proof {
                assert(state == relax_entry(network, node, distance, active, j as int));
                let added = relax_entries(
                    network,
                    node,
                    distance,
                    active,
                    range.start_edge_index as int,
                    j as int,
                );
                assert((old(heap).entries() + added).push(state) =~= old(heap).entries()
                    + added.push(state));
                assert(keys(heap.entries()) =~= keys(before).push(key_of(state)));
                assert(entry_tight(g, known, state));
                assert forall|i: int| 0 <= i < heap.entries().len() implies entry_tight(
                    g,
                    known,
                    #[trigger] heap.entries()[i],
                ) by {
                    if i < before.len() {
                        assert(heap.entries()[i] == before[i]);
                    }
                }
            }
        }
        proof {
            let now = heap.entries();
            assert forall|p: u32, jb: int| arc_pending(g, before, known, p, jb) implies arc_pending(
                g,
                now,
                known,
                p,
                jb,
            ) by {
                let i = choose|i: int|
                    0 <= i < before.len() && stands_for_arc(g, known, #[trigger] before[i], p, jb);
                assert(now[i] == before[i]);
            }
            assert forall|p: u32, jb: int|
                known.contains_key(p) && p != node.0 as int && g.arc(
                    EdgeDirection::Forward,
                    p as int,
                    jb,
                ) implies #[trigger] arc_followed(g, now, known, p, jb) by {
                assert(arc_followed(g, before, known, p, jb));
            }
            assert forall|jb: int|
                jb < j + 1 && g.arc(EdgeDirection::Forward, node.0 as int, jb) implies #[trigger] arc_pending(
                g,
                now,
                known,
                node.0,
                jb,
            ) by {
                if jb < j {
                    assert(arc_pending(g, before, known, node.0, jb));
                } else {
                    assert(stands_for_arc(g, known, now[before.len() as int], node.0, jb));
                }
            }
            assert forall|i: int| 0 <= i < now.len() implies entry_marked(
                act,
                trail.last(),
                #[trigger] now[i],
            ) by {
                if i < before.len() {
                    assert(now[i] == before[i]);
                }
            }
            assert forall|p: u32, jb: int|
                known.contains_key(p) && p != node.0 as int && g.arc(
                    EdgeDirection::Forward,
                    p as int,
                    jb,
                ) && after_key(
                    trail.last(),
                    known[p].distance + g.edges@[jb].edge_weight,
                    g.edges@[jb].target_node.0,
                ) implies #[trigger] arc_pending(g, now, known, p, jb) by {
                assert(arc_pending(g, before, known, p, jb));
            }
            assert(keys(before).len() == before.len());
            assert forall|i: int| 0 <= i < keys(before).len() implies entry_ok(
                g,
                dir,
                s,
                trail,
                #[trigger] keys(before)[i],
            ) by {}
            assert(follow == g.arc(dir, node.0 as int, j as int));
            lemma_relax_step(g, dir, s, trail, keys(before), j as int, keys(heap.entries()));
            assert(keys(heap.entries()).len() == heap.entries().len());
        }
        j += 1;
    }
    proof {
        let ks = keys(heap.entries());
        assert(ks.len() == heap.entries().len());
        assert forall|jb: int|
            jb < g.edge_total() && #[trigger] g.arc(dir, trail[trail.len() - 1].0.0 as int, jb) implies jb
            < j by {}
        assert(relaxed(g, dir, trail, ks, trail.len() - 1, g.edge_total()));
        assert forall|i: int| 0 <= i < ks.len() implies entry_ok(g, dir, s, trail, #[trigger] ks[i]) by {}
        assert forall|i: int| 0 <= i < trail.len() implies #[trigger] relaxed(
            g,
            dir,
            trail,
            ks,
            i,
            g.edge_total(),
        ) by {}
        assert(search_inv(g, dir, s, trail, ks));
        assert forall|p: u32, jb: int|
            known.contains_key(p) && p != -1 && g.arc(EdgeDirection::Forward, p as int, jb) implies #[trigger] arc_followed(
            g,
            heap.entries(),
            known,
            p,
            jb,
        ) by {
            if p == node.0 {
                assert(jb < j);
                assert(arc_pending(g, heap.entries(), known, node.0, jb));
            }
        }
        assert forall|p: u32, jb: int|
            known.contains_key(p) && p != -1 && g.arc(EdgeDirection::Forward, p as int, jb)
                && after_key(
                trail.last(),
                known[p].distance + g.edges@[jb].edge_weight,
                g.edges@[jb].target_node.0,
            ) implies #[trigger] arc_pending(g, heap.entries(), known, p, jb) by {
            if p == node.0 {
                assert(jb < j);
            }
        }
        reveal(settled_inv);
    }
}

/// Starts the search at `s0`: the source is settled, and the targets of
/// the edges that leave it wait in the queue.
#[verifier::rlimit(40)]
fn initialize_heap<D>(
    s0: NodeId,
    network: &DirectedNetworkGraph<D>,
    heap: &mut HighwayNodeQueue,
    Ghost(forward): Ghost<Seq<u64>>,
    Ghost(backward): Ghost<Seq<u64>>,
)
    requires
        network.wf(),
        s0.0 < network.node_total(),
        old(heap).wf(),
        old(heap).entries() == Seq::<DijkstraNodeState>::empty(),
        old(heap).visited_map() == Map::<u32, VisitedState>::empty(),
    ensures
        final(heap).wf(),
        search_begins(
            network,
            s0,
            SearchState {
                heap: final(heap).entries(),
                visited: final(heap).visited_map(),
                order: Seq::empty(),
            },
        ),
        settled_inv(
            network,
            s0,
            forward,
            backward,
            seq![(s0, 0u64)],
            final(heap).entries(),
            final(heap).visited_map(),
            map![s0.0 => true],
        ),
{
    let mut parents: Vec<ParentLink> = Vec::new();
    parents.push(ParentLink { parent: s0, edge: None, weight: 0 });
    let state = VisitedState {
        border_distance: 0,
        reference_distance: None,
        distance: 0,
        parents,
    };
    heap.visited(s0, state);
    let ghost trail = seq![(s0, 0u64)];
    let ghost act: Map<u32, bool> = map![s0.0 => true];
    proof {
        let g = network;
        let s = s0.0 as int;
        let empty = Seq::<int>::empty();
        assert(connects(g, EdgeDirection::Forward, s, s, empty));
        assert(walk_weight(g, empty) == 0);
        assert(within(g, EdgeDirection::Forward, s, s, 0));
        assert forall|walk: Seq<int>| connects(g, EdgeDirection::Forward, s, s, walk) implies walk_weight(
            g,
            walk,
        ) >= 0 by {
            lemma_weight_nonnegative(g, walk);
        }
        assert(is_distance(g, EdgeDirection::Forward, s, s, 0));
        assert(trail[0] == (s0, 0u64));
        assert forall|t: int| !trail_has(trail, t) implies #[trigger] beyond(
            g,
            EdgeDirection::Forward,
            s,
            t,
            0,
        ) && (within(g, EdgeDirection::Forward, s, t, 0) ==> s0.0 < t) by {
            assert forall|walk: Seq<int>|
                connects(g, EdgeDirection::Forward, s, t, walk) implies walk_weight(g, walk) >= 0 by {
                lemma_weight_nonnegative(g, walk);
            }
            if within(g, EdgeDirection::Forward, s, t, 0) {
                let walk = choose|walk: Seq<int>|
                    connects(g, EdgeDirection::Forward, s, t, walk) && walk_weight(g, walk) <= 0;
                if walk.len() > 0 {
                    lemma_walk_positive(g, EdgeDirection::Forward, s, walk);
                }
                assert(t == s);
                assert(trail[0].0.0 == t);
            }
        }
        assert(trail.last() == (s0, 0u64));
        assert(frontier_ok(g, EdgeDirection::Forward, s, trail, trail.last()));
        assert(state.parents@ =~= seq![ParentLink { parent: s0, edge: None, weight: 0 }]);
        let known = heap.visited_map();
        assert forall|v: u32| #[trigger] known.contains_key(v) <==> trail_has(trail, v as int) by {
            if v == s0.0 {
                assert(trail[0].0.0 == v);
            }
        }
        assert(keys(heap.entries()) =~= Seq::<(u64, u32)>::empty());
        assert forall|v: u32| known.contains_key(v) implies v == s0.0 by {}
        reveal(ready_search);
        reveal(ready_marks);
        reveal(carried);
        assert(ready_search(network, s0, trail, heap.entries(), known, s0, 0));
        assert(ready_marks(network, trail, heap.entries(), known, act, s0, true));
        assert(carried(network, s0, forward, backward, trail, known, act));
    }
    let ghost settled = heap.visited_map();
    proof {
        assert(heap.entries() =~= Seq::<DijkstraNodeState>::empty());
    }
    relax_node(heap, network, s0, s0, 0, true, Ghost(trail), Ghost(act), Ghost(forward), Ghost(backward));
    proof {
        assert(Seq::<DijkstraNodeState>::empty() + relax_all(network, s0, 0, true) =~= relax_all(
            network,
            s0,
            0,
            true,
        ));
        assert forall|v: u32| heap.visited_map().contains_key(v) <==> v == s0.0 by {}
    }
}

/// Whether the record `item` of a settled node names an edge over which
/// the node was reached: the edge of one of its parent links.
pub open spec fn names_link(visited: Map<u32, VisitedState>, item: (NodeId, (EdgeId, u64))) -> bool {
    exists|a: int|
        0 <= a < visited[item.0.0].parents@.len() && (#[trigger] visited[item.0.0].parents@[a]).edge
            == Some(item.1.0)
}

/// Whether every record of `order` is the record of a settled node and
/// names an edge over which that node was reached.
pub open spec fn records_name_links(
    order: Seq<(NodeId, (EdgeId, u64))>,
    visited: Map<u32, VisitedState>,
) -> bool {
    forall|i: int|
        0 <= i < order.len() ==> visited.contains_key((#[trigger] order[i]).0.0) && names_link(
            visited,
            order[i],
        )
}

/// The record of a node that is settled from the merged entries `merged`
/// names the edge of the last of them, which is the edge of one of the
/// merged links; the records of the nodes settled before stay as they are.
proof fn lemma_record_added(
    order: Seq<(NodeId, (EdgeId, u64))>,
    visited: Map<u32, VisitedState>,
    merged: Seq<DijkstraNodeState>,
    state: VisitedState,
)
    requires
        records_name_links(order, visited),
        merged.len() > 0,
        !visited.contains_key(merged.last().current.0),
        state.parents@ == merge_links(merged),
    ensures
        records_name_links(
            seq![(merged.last().current, (merged.last().parent.parent_edge, state.distance))] + order,
            visited.insert(merged.last().current.0, state),
        ),
{
    let last = merged.last();
    let item = (last.current, (last.parent.parent_edge, state.distance));
    let next = seq![item] + order;
    let known = visited.insert(last.current.0, state);
    lemma_put_link(merge_links(merged.drop_last()), link_of(last));
    let a = choose|a: int|
        0 <= a < merge_links(merged).len() && merge_links(merged)[a] == link_of(last);
    assert forall|i: int| 0 <= i < next.len() implies known.contains_key((#[trigger] next[i]).0.0)
        && names_link(known, next[i]) by {
        if i == 0 {
            assert(known[item.0.0].parents@[a].edge == Some(item.1.0));
        } else {
            assert(next[i] == order[i - 1]);
            assert(visited.contains_key(order[i - 1].0.0));
            assert(names_link(visited, order[i - 1]));
            assert(known[order[i - 1].0.0] == visited[order[i - 1].0.0]);
        }
    }
}

/// Grows the restricted search from `s0` until no active entry waits.
/// Returns the record of the search, which lists every settled node but
/// the source with the edge over which it was reached and its distance,
/// the last settled first, and what the search knows of every settled
/// node.
#[verifier::rlimit(40)]
pub fn create_directed_acyclic_graph<D>(
    s0: NodeId,
    computed: &ComputedState,
    network: &DirectedNetworkGraph<D>,
) -> (r: (VecDeque<(NodeId, (EdgeId, u64))>, HashMap<u32, VisitedState>))
    requires
        network.wf(),
        s0.0 < network.node_total(),
        computed.covers(network.node_total()),
    ensures
        search_outcome(network, s0, computed.forward@, computed.backward@, r.0@, r.1@),
        records_name_links(r.0@, r.1@),
{
    let mut heap = HighwayNodeQueue::new(2000, 3000);
    let mut settled_order: VecDeque<(NodeId, (EdgeId, u64))> = VecDeque::with_capacity(3000);
    let ghost forward = computed.forward@;
    let ghost backward = computed.backward@;
    initialize_heap(s0, network, &mut heap, Ghost(forward), Ghost(backward));
    let ghost mut trail: Seq<(NodeId, u64)> = seq![(s0, 0u64)];
    let ghost mut act: Map<u32, bool> = map![s0.0 => true];
    let ghost mut states: Seq<SearchState> = seq![
        SearchState {
            heap: heap.entries(),
            visited: heap.visited_map(),
            order: Seq::empty(),
        },
    ];
    proof {
        assert(trail =~= settle_trail(s0, settled_order@));
        assert(settled_order@ =~= Seq::<(NodeId, (EdgeId, u64))>::empty());
    }
    loop
        invariant_except_break
            states.last().heap == heap.entries(),
            heap.wf(),
            settled_inv(
                network,
                s0,
                forward,
                backward,
                trail,
                heap.entries(),
                heap.visited_map(),
                act,
            ),
        invariant
            network.wf(),
            s0.0 < network.node_total(),
            computed.covers(network.node_total()),
            forward == computed.forward@,
            backward == computed.backward@,
            trail == settle_trail(s0, settled_order@),
            trail.len() <= network.node_total(),
            records_name_links(settled_order@, heap.visited_map()),
            search_steps(network, s0, forward, backward, states),
            states.last().visited == heap.visited_map(),
            states.last().order == settled_order@,
        ensures
            !search_goes_on(states.last()),
            trail_ok(network, EdgeDirection::Forward, s0.0 as int, trail),
            visited_ok(network, s0, trail, heap.visited_map()),
            rules_ok(s0, forward, heap.visited_map()),
            parents_complete(network, s0, heap.visited_map()),
            extent_ok(network, s0, backward, trail, heap.visited_map()),
        decreases network.node_total() - trail.len(),
    {
        let ghost h0 = heap.entries();
        let ghost v0 = heap.visited_map();
        let ghost o0 = settled_order@;
        let ghost st0 = states.last();
        let entry = match heap.pop() {
            Some(entry) => entry,
            None => {
                proof {
                    lemma_search_ends(network, s0, forward, backward, trail, h0, v0, act);
                }
                break ;
            },
        };
        let current = entry.state.current;
        let distance = entry.state.distance;
        let ghost k = key_of(entry.state);
        proof {
            lemma_settle_prepare(network, s0, forward, backward, trail, h0, v0, act, k);
        }
        let border = border_distance(s0, current, &entry.parents, computed, entry.border_distance);
        let reference = reference_distance(&entry, border, heap.visited_ref());
        let abort = should_abort(reference, computed.backward.radius(current), distance);
        let active = entry.parent_active && !abort;
        let state = VisitedState {
            distance,
            border_distance: border,
            reference_distance: reference,
            parents: entry.parents,
        };
        proof {
            lemma_settle_ready_search(network, s0, forward, backward, trail, h0, v0, act, k, state);
            lemma_settle_ready_marks(
                network,
                s0,
                forward,
                backward,
                trail,
                h0,
                v0,
                act,
                k,
                state,
                active,
            );
            lemma_settle_carried(network, s0, forward, backward, trail, h0, v0, act, k, state, active);
        }
        proof {
            let merged = group(h0, k);
            assert(!v0.contains_key(current.0));
            lemma_record_added(settled_order@, v0, merged, state);
        }
        heap.visited(current, state);
        settled_order.push_front((current, (entry.state.parent.parent_edge, distance)));
        proof {
            trail = trail.push((current, distance));
            act = act.insert(k.1, active);
            assert(trail =~= settle_trail(s0, settled_order@));
        }
        relax_node(
            &mut heap,
            network,
            s0,
            current,
            distance,
            active,
            Ghost(trail),
            Ghost(act),
            Ghost(forward),
            Ghost(backward),
        );
        proof {
            let st1 = SearchState {
                heap: heap.entries(),
                visited: heap.visited_map(),
                order: settled_order@,
            };
            assert(NodeId(k.1) == current && k.0 == distance);
            assert(st1.visited =~= st0.visited.insert(k.1, st1.visited[k.1]));
            assert(settles_key(network, s0, forward, backward, st0, st1, k));
            lemma_steps_grow(network, s0, forward, backward, states, st1);
            states = states.push(st1);
        }
    }
    proof {
        reveal(search_outcome);
    }
    (settled_order, heap.into_visited())
}

/// The slack of node `v`: the tentative slack if the sweep has met `v`,
/// else its backward radius.
pub open spec fn slack_of(slacks: Map<u32, int>, backward: Seq<u64>, v: u32) -> int {
    if slacks.contains_key(v) {
        slacks[v]
    } else {
        backward[v as int] as int
    }
}

/// The state of the sweep once one more parent link of a node with slack
/// `slack` is handled: the edge of the link is kept if the slack of the
/// node does not cover its weight, and the slack that is left bounds the
/// slack of the parent.
pub open spec fn sweep_link(
    state: (Map<u32, int>, Seq<(NodeId, EdgeId)>),
    link: ParentLink,
    slack: int,
    backward: Seq<u64>,
) -> (Map<u32, int>, Seq<(NodeId, EdgeId)>) {
    let left = slack - link.weight;
    let retained = if left < 0 && link.edge is Some {
        state.1.push((link.parent, link.edge.unwrap()))
    } else {
        state.1
    };
    let before = slack_of(state.0, backward, link.parent.0);
    let slacks = state.0.insert(
        link.parent.0,
        if left < before {
            left
        } else {
            before
        },
    );
    (slacks, retained)
}

/// The state of the sweep once the parent links `links` of a node with
/// slack `slack` are handled, in their order.
pub open spec fn sweep_links(
    state: (Map<u32, int>, Seq<(NodeId, EdgeId)>),
    links: Seq<ParentLink>,
    slack: int,
    backward: Seq<u64>,
) -> (Map<u32, int>, Seq<(NodeId, EdgeId)>)
    decreases links.len(),
{
    if links.len() == 0 {
        state
    } else {
        sweep_link(sweep_links(state, links.drop_last(), slack, backward), links.last(), slack, backward)
    }
}

/// The state of the sweep once one more settled node is handled. A node
/// that lies nearer to the source than the forward radius of the source
/// is passed over.
pub open spec fn sweep_node(
    state: (Map<u32, int>, Seq<(NodeId, EdgeId)>),
    item: (NodeId, (EdgeId, u64)),
    visited: Map<u32, VisitedState>,
    source_radius: u64,
    backward: Seq<u64>,
) -> (Map<u32, int>, Seq<(NodeId, EdgeId)>) {
    if item.1.1 < source_radius {
        state
    } else {
        let slack = slack_of(state.0, backward, item.0.0);
        sweep_links(
            (state.0.insert(item.0.0, slack), state.1),
            visited[item.0.0].parents@,
            slack,
            backward,
        )
    }
}

/// The state of the sweep once the nodes of `order` are handled, in their
/// order.
pub open spec fn sweep(
    order: Seq<(NodeId, (EdgeId, u64))>,
    visited: Map<u32, VisitedState>,
    source_radius: u64,
    backward: Seq<u64>,
) -> (Map<u32, int>, Seq<(NodeId, EdgeId)>)
    decreases order.len(),
{
    if order.len() == 0 {
        (Map::empty(), Seq::empty())
    } else {
        sweep_node(
            sweep(order.drop_last(), visited, source_radius, backward),
            order.last(),
            visited,
            source_radius,
            backward,
        )
    }
}

/// Whether the sweep can look up every node of `order` and every parent
/// of such a node.
pub open spec fn sweep_ready(
    order: Seq<(NodeId, (EdgeId, u64))>,
    visited: Map<u32, VisitedState>,
    backward: Seq<u64>,
) -> bool {
    forall|i: int|
        0 <= i < order.len() ==> {
            &&& visited.contains_key((#[trigger] order[i]).0.0)
            &&& order[i].0.0 < backward.len()
            &&& forall|a: int|
                0 <= a < visited[order[i].0.0].parents@.len() ==> (
                #[trigger] visited[order[i].0.0].parents@[a]).parent.0 < backward.len()
        }
}

/// Whether every tentative slack is at least `floor`.
pub open spec fn slacks_above(slacks: Map<u32, int>, floor: int) -> bool {
    forall|v: u32| slacks.contains_key(v) ==> #[trigger] slacks[v] >= floor
}

/// Whether the edge `e` from `p` is a parent link of a node of `order`.
pub open spec fn is_link_of(
    order: Seq<(NodeId, (EdgeId, u64))>,
    visited: Map<u32, VisitedState>,
    p: NodeId,
    e: EdgeId,
) -> bool {
    exists|i: int, a: int|
        0 <= i < order.len() && 0 <= a < visited[order[i].0.0].parents@.len() && (
        #[trigger] visited[order[i].0.0].parents@[a]).parent == p
            && visited[order[i].0.0].parents@[a].edge == Some(e)
}

/// Whether `retained` holds only edges of parent links of nodes of
/// `order`.
pub open spec fn retained_from(
    retained: Seq<(NodeId, EdgeId)>,
    order: Seq<(NodeId, (EdgeId, u64))>,
    visited: Map<u32, VisitedState>,
) -> bool {
    forall|r: int|
        0 <= r < retained.len() ==> is_link_of(
            order,
            visited,
            (#[trigger] retained[r]).0,
            retained[r].1,
        )
}

/// The tentative slacks of a table, as whole numbers.
pub open spec fn slack_values(slacks: Map<u32, i128>) -> Map<u32, int> {
    slacks.map_values(|x: i128| x as int)
}

fn read_slack(slacks: &HashMap<u32, i128>, v: u32, computed: &ComputedState) -> (r: i128)
    requires
        v < computed.backward@.len(),
    ensures
        r == slack_of(slack_values(slacks@), computed.backward@, v),
{
    match slacks.get(&v) {
        Some(x) => *x,
        None => computed.backward.radius(NodeId(v)) as i128,
    }
}

/// Sweeps the record of the search from `s0`, the farthest node first, and
/// returns the edges to keep for the next level, each with its source.
/// Every node starts with its backward radius as slack. A node hands its
/// slack, less the weight of the edge, on to each of its parents, which
/// keeps the least slack that reaches it. The edge is kept if less than
/// nothing is handed on. Nodes nearer to `s0` than its forward radius are
/// passed over.
#[verifier::rlimit(40)]
pub fn collect_next_level_edges(
    s0: NodeId,
    sorted_nodes: VecDeque<(NodeId, (EdgeId, u64))>,
    nodes: HashMap<u32, VisitedState>,
    computed: &ComputedState,
) -> (r: Vec<(NodeId, EdgeId)>)
    requires
        s0.0 < computed.forward@.len(),
        sweep_ready(sorted_nodes@, nodes@, computed.backward@),
    ensures
        r@ == sweep(
            sorted_nodes@,
            nodes@,
            computed.forward@[s0.0 as int],
            computed.backward@,
        ).1,
        retained_from(r@, sorted_nodes@, nodes@),
{
    let ghost order = sorted_nodes@;
    let ghost known = nodes@;
    let ghost backward = computed.backward@;
    let source_radius = computed.forward.radius(s0);
    let mut collected_edges: Vec<(NodeId, EdgeId)> = Vec::new();
    let mut tentative_slacks: HashMap<u32, i128> = HashMap::new();
    let mut t: usize = 0;
    proof {
        assert(slack_values(tentative_slacks@) =~= Map::<u32, int>::empty());
    }
    while t < sorted_nodes.len()
        invariant
            order == sorted_nodes@,
            known == nodes@,
            backward == computed.backward@,
            source_radius == computed.forward@[s0.0 as int],
            sweep_ready(order, known, backward),
            t <= order.len(),
            (slack_values(tentative_slacks@), collected_edges@) == sweep(
                order.subrange(0, t as int),
                known,
                source_radius,
                backward,
            ),
        decreases order.len() - t,
    {
        let (node, (_, distance)) = sorted_nodes[t];
        proof {
            let head = order.subrange(0, t as int);
            assert(order.subrange(0, t + 1).drop_last() =~= head);
            assert(order.subrange(0, t + 1).last() == order[t as int]);
            assert forall|i: int| 0 <= i < head.len() implies {
                &&& known.contains_key((#[trigger] head[i]).0.0)
                &&& head[i].0.0 < backward.len()
                &&& forall|a: int|
                    0 <= a < known[head[i].0.0].parents@.len() ==> (
                    #[trigger] known[head[i].0.0].parents@[a]).parent.0 < backward.len()
            } by {
                assert(head[i] == order[i]);
            }
            lemma_sweep(head, known, source_radius, backward);
            assert(known.contains_key(order[t as int].0.0));
        }
        if distance < source_radius {
            t += 1;
            continue ;
        }
        let slack = read_slack(&tentative_slacks, node.0, computed);
        let ghost floor = -(t as int) * 0x1_0000_0000;
        let ghost before = (slack_values(tentative_slacks@), collected_edges@);
        proof {
            assert(slack >= floor) by {
                if before.0.contains_key(node.0) {
                    assert(before.0[node.0] >= floor);
                }
            }
        }
        tentative_slacks.insert(node.0, slack);
        let ghost start = (before.0.insert(node.0, slack as int), before.1);
        proof {
            assert(slack_values(tentative_slacks@) =~= start.0);
            assert(slacks_above(start.0, floor)) by {
                assert forall|v: u32| start.0.contains_key(v) implies #[trigger] start.0[v]
                    >= floor by {
                    if v != node.0 {
                        assert(before.0.contains_key(v));
                    }
                }
            }
        }
        let state = nodes.get(&node.0).unwrap();
        let links = &state.parents;
        let mut a: usize = 0;
        while a < links.len()
            invariant
                known == nodes@,
                backward == computed.backward@,
                links@ == known[node.0].parents@,
                a <= links@.len(),
                forall|b: int| 0 <= b < links@.len() ==> (#[trigger] links@[b]).parent.0 < backward.len(),
                slacks_above(start.0, floor),
                slack >= floor,
                floor <= 0,
                floor >= -(usize::MAX as int) * 0x1_0000_0000,
                (slack_values(tentative_slacks@), collected_edges@) == sweep_links(
                    start,
                    links@.subrange(0, a as int),
                    slack as int,
                    backward,
                ),
            decreases links@.len() - a,
        {
            let link = links[a];
            proof {
                let head = links@.subrange(0, a as int);
                assert(links@.subrange(0, a + 1).drop_last() =~= head);
                assert(links@.subrange(0, a + 1).last() == link);
                assert forall|b: int| 0 <= b < head.len() implies (#[trigger] head[b]).parent.0
                    < backward.len() by {
                    assert(head[b] == links@[b]);
                }
                lemma_sweep_links(start, head, slack as int, backward, floor);
                assert(links@[a as int].parent.0 < backward.len());
            }
            let ghost mid = (slack_values(tentative_slacks@), collected_edges@);
            let left = slack - link.weight as i128;
            if left < 0 {
                match link.edge {
                    Some(edge) => {
                        collected_edges.push((link.parent, edge));
                    },
                    None => {},
                }
            }
            let held = read_slack(&tentative_slacks, link.parent.0, computed);
            proof {
                if mid.0.contains_key(link.parent.0) {
                    assert(mid.0[link.parent.0] >= floor - 0x1_0000_0000);
                }
            }
            let least = if left < held {
                left
            } else {
                held
            };
            tentative_slacks.insert(link.parent.0, least);
            proof {
                let next = sweep_link(mid, link, slack as int, backward);
                assert(slack_values(tentative_slacks@) =~= next.0);
                assert(collected_edges@ == next.1);
            }
            a += 1;
        }
        proof {
            assert(links@.subrange(0, a as int) =~= links@);
        }
        t += 1;
    }
    proof {
        assert(order.subrange(0, t as int) =~= order);
        lemma_sweep(order, known, source_radius, backward);
    }
    collected_edges
}

/// Whether `order` and `visited` are the outcome of the restricted search
/// from `s0`: the settled nodes in their order with their shortest
/// distances, their complete parents, the border and reference distances
/// that the rules give them, and the extent to which the search goes;
/// every record names an edge over which its node was reached; and the
/// search came there step by step, which makes the outcome one.
#[verifier::opaque]
pub open spec fn search_outcome<D>(
    g: &DirectedNetworkGraph<D>,
    s0: NodeId,
    forward: Seq<u64>,
    backward: Seq<u64>,
    order: Seq<(NodeId, (EdgeId, u64))>,
    visited: Map<u32, VisitedState>,
) -> bool {
    &&& dag_ok(g, s0, order, visited)
    &&& rules_ok(s0, forward, visited)
    &&& parents_complete(g, s0, visited)
    &&& extent_ok(g, s0, backward, settle_trail(s0, order), visited)
    &&& records_name_links(order, visited)
    &&& searched(g, s0, forward, backward, order, visited)
}

/// The edges that the search from `s0` finds worth keeping for the next
/// level, each with its source.
pub fn calculate_edges<D>(
    s0: NodeId,
    computed: &ComputedState,
    network: &DirectedNetworkGraph<D>,
) -> (r: Vec<(NodeId, EdgeId)>)
    requires
        network.wf(),
        s0.0 < network.node_total(),
        computed.covers(network.node_total()),
    ensures
        forall|i: int|
            0 <= i < r@.len() ==> network.arc(
                EdgeDirection::Forward,
                (#[trigger] r@[i]).0.0 as int,
                r@[i].1.0 as int,
            ),
        exists|order: Seq<(NodeId, (EdgeId, u64))>, visited: Map<u32, VisitedState>|
            search_outcome(network, s0, computed.forward@, computed.backward@, order, visited)
                && r@ == sweep(
                order,
                visited,
                computed.forward@[s0.0 as int],
                computed.backward@,
            ).1,
        kept_from(network, s0, computed.forward@, computed.backward@, r@),
{
    let (sorted_order, dag) = create_directed_acyclic_graph(s0, computed, network);
    proof {
        reveal(search_outcome);
        lemma_dag_is_ready(network, s0, sorted_order@, dag@, computed.backward@);
    }
    let ghost order = sorted_order@;
    let ghost visited = dag@;
    let edges = collect_next_level_edges(s0, sorted_order, dag, computed);
    proof {
        reveal(search_outcome);
        lemma_retained_are_arcs(network, s0, order, visited, edges@);
        assert(searched(network, s0, computed.forward@, computed.backward@, order, visited)
            && edges@ == sweep(order, visited, computed.forward@[s0.0 as int], computed.backward@).1);
        assert(search_outcome(network, s0, computed.forward@, computed.backward@, order, visited)
            && edges@ == sweep(order, visited, computed.forward@[s0.0 as int], computed.backward@).1);
    }
    edges
}

/// The largest border distance of a parent named in `links`.
pub open spec fn link_border(links: Seq<ParentLink>, visited: Map<u32, VisitedState>) -> u64
    decreases links.len(),
{
    if links.len() == 0 {
        0
    } else {
        let head = link_border(links.drop_last(), visited);
        let last = visited[links.last().parent.0].border_distance;
        if head >= last {
            head
        } else {
            last
        }
    }
}

/// The largest reference distance of a parent named in `links`.
pub open spec fn link_reference(links: Seq<ParentLink>, visited: Map<u32, VisitedState>) -> Option<u64>
    decreases links.len(),
{
    if links.len() == 0 {
        Some(0)
    } else {
        join_reference(
            link_reference(links.drop_last(), visited),
            visited[links.last().parent.0].reference_distance,
        )
    }
}

/// Whether what is known of a node follows the rules of the search: its
/// border distance and its reference distance are what its parents and
/// its own distance make them.
pub open spec fn state_ok(
    s0: NodeId,
    forward_radius: u64,
    state: VisitedState,
    visited: Map<u32, VisitedState>,
) -> bool {
    &&& state.border_distance == border_rule(
        s0,
        state.parents@,
        forward_radius,
        link_border(state.parents@, visited),
    )
    &&& state.reference_distance == reference_rule(
        state.distance,
        link_reference(state.parents@, visited),
        state.border_distance,
        state.parents@,
        visited,
    )
}

/// Whether what is known of every settled node but the source follows the
/// rules of the search.
pub open spec fn rules_ok(s0: NodeId, forward: Seq<u64>, visited: Map<u32, VisitedState>) -> bool {
    forall|v: u32| #[trigger]
        visited.contains_key(v) && v != s0.0 ==> state_ok(s0, forward[v as int], visited[v], visited)
}

} // verus!
