//! The laws of the restricted search and of the sweep: why every step
//! keeps what is claimed of them.

use vstd::prelude::*;

use crate::dag::{
    any_active, count_active, group, has_live, is_live, join_reference, key_less, key_of, kept,
    least_live, lemma_active_counted, lemma_counted_is_active, lemma_group, lemma_group_holds,
    lemma_kept, lemma_link_index, lemma_merge_links, lemma_merge_links_cover, link_index,
    link_of, max_border, max_reference, merge_links, DijkstraNodeState, ParentLink, VisitedState,
};
use crate::dijkstra::{entry_ok, relaxed, trail_has, trail_ok};
use crate::dijkstra_laws::{lemma_settle_distance, lemma_settle_kept, lemma_settle_trail};
use crate::direction::EdgeDirection;
use crate::graph::DirectedNetworkGraph;
use crate::ids::{EdgeId, NodeId};

use crate::paths::{connects, walk_weight};
use crate::phase_one::{
    abort_rule, active_waits, activity_ok, after_key, any_link_active, arc_followed,
    arc_pending, arc_waits, arcs_followed, arcs_waiting, border_distance, border_rule, carried,
    dag_inv, dag_ok, entries_marked, entry_marked, entry_tight, extent_ok, extent_with,
    grand_known, is_link_of, keys, link_border, link_ok, link_reference, live_waits,
    max_distance, max_grand_distance, parents_complete, prefix_has, ready_marks, ready_search,
    reference_distance, reference_rule, retained_from, rules_ok, settle_trail, settled_inv,
    slack_of, slacks_above, stands_for_arc, state_ok, sweep, sweep_links, sweep_ready,
    tight_parent_known, visited_ok, went_on,
};

verus! {

/// Settling the nearest waiting node keeps the search part of the
/// invariant: the node gets its shortest distance, and the entries that
/// stay are those that the next steps need.
#[verifier::rlimit(40)]
pub proof fn lemma_dag_settle_search<D>(
    g: &DirectedNetworkGraph<D>,
    s0: NodeId,
    trail: Seq<(NodeId, u64)>,
    heap: Seq<DijkstraNodeState>,
    visited: Map<u32, VisitedState>,
    k: (u64, u32),
)
    requires
        dag_inv(g, s0, trail, heap, visited),
        least_live(heap, visited, k),
    ensures
        k.1 < g.node_total(),
        !visited.contains_key(k.1),
        trail_ok(g, EdgeDirection::Forward, s0.0 as int, trail.push((NodeId(k.1), k.0))),
        trail.len() + 1 <= g.node_total(),
        k.0 <= trail.len() * u32::MAX,
        exists|walk: Seq<int>|
            connects(g, EdgeDirection::Forward, s0.0 as int, k.1 as int, walk) && walk_weight(g, walk)
                == k.0 && walk.len() < trail.len() + 1,
        forall|a: int|
            0 <= a < kept(heap, k).len() ==> entry_ok(
                g,
                EdgeDirection::Forward,
                s0.0 as int,
                trail.push((NodeId(k.1), k.0)),
                #[trigger] keys(kept(heap, k))[a],
            ),
        forall|i: int|
            0 <= i < trail.len() ==> #[trigger] relaxed(
                g,
                EdgeDirection::Forward,
                trail.push((NodeId(k.1), k.0)),
                keys(kept(heap, k)),
                i,
                g.edge_total(),
            ),
{
    let dir = EdgeDirection::Forward;
    let s = s0.0 as int;
    let ks = keys(heap);
    let part = keys(kept(heap, k));
    let m = choose|i: int| 0 <= i < heap.len() && is_live(visited, #[trigger] heap[i]) && key_of(heap[i]) == k;
    assert(ks[m] == k);
    assert(entry_ok(g, dir, s, trail, ks[m]));
    assert(!trail_has(trail, k.1 as int));
    assert forall|i: int|
        0 <= i < ks.len() && !trail_has(trail, (#[trigger] ks[i]).1 as int) implies ks[m].0
        <= ks[i].0 by {
        assert(is_live(visited, heap[i]));
        assert(!key_less(key_of(heap[i]), k));
    }
    lemma_settle_distance(g, dir, s, trail, ks, m);
    lemma_settle_trail(g, dir, s, trail, k.1, k.0);
    lemma_kept(heap, k);
    assert forall|a: int| 0 <= a < part.len() implies k.0 <= (#[trigger] part[a]).0 && exists|i: int|
        0 <= i < ks.len() && ks[i] == part[a] by {
        let e = kept(heap, k)[a];
        assert(part[a] == key_of(e));
        assert(key_less(k, key_of(e)));
        let i = choose|i: int| 0 <= i < heap.len() && heap[i] == e;
        assert(ks[i] == part[a]);
    }
    assert forall|i: int| 0 <= i < ks.len() implies (#[trigger] ks[i]).1 == k.1 || trail_has(
        trail,
        ks[i].1 as int,
    ) || exists|a: int| 0 <= a < part.len() && part[a] == ks[i] by {
        let e = heap[i];
        assert(ks[i] == key_of(e));
        if key_less(k, key_of(e)) {
            let a = choose|a: int| 0 <= a < kept(heap, k).len() && kept(heap, k)[a] == heap[i];
            assert(part[a] == ks[i]);
        } else if is_live(visited, e) {
            assert(!key_less(key_of(e), k));
        } else {
            assert(visited.contains_key(e.current.0));
        }
    }
    lemma_settle_kept(g, dir, s, trail, ks, part, k.1, k.0);
    assert(part.len() == kept(heap, k).len());
}

/// Settling the nearest waiting node keeps what holds of the settled
/// nodes: the links of the new node are edges of shortest paths into it.
#[verifier::rlimit(40)]
pub proof fn lemma_dag_settle_visited<D>(
    g: &DirectedNetworkGraph<D>,
    s0: NodeId,
    trail: Seq<(NodeId, u64)>,
    heap: Seq<DijkstraNodeState>,
    visited: Map<u32, VisitedState>,
    k: (u64, u32),
    state: VisitedState,
)
    requires
        dag_inv(g, s0, trail, heap, visited),
        least_live(heap, visited, k),
        state.distance == k.0,
        state.parents@ == merge_links(group(heap, k)),
        group(heap, k).len() > 0,
    ensures
        visited_ok(g, s0, trail.push((NodeId(k.1), k.0)), visited.insert(k.1, state)),
        forall|a: int|
            0 <= a < kept(heap, k).len() ==> entry_tight(
                g,
                visited.insert(k.1, state),
                #[trigger] kept(heap, k)[a],
            ),
        grand_known(state.parents@, visited),
{
    let next = trail.push((NodeId(k.1), k.0));
    let known = visited.insert(k.1, state);
    let merged = group(heap, k);
    let m = choose|i: int| 0 <= i < heap.len() && is_live(visited, #[trigger] heap[i]) && key_of(heap[i]) == k;
    assert(!visited.contains_key(k.1));
    lemma_group(heap, k);
    lemma_merge_links(merged);
    lemma_kept(heap, k);
    assert forall|v: u32| #[trigger] known.contains_key(v) <==> trail_has(next, v as int) by {
        if trail_has(trail, v as int) {
            let a = choose|a: int| 0 <= a < trail.len() && (#[trigger] trail[a]).0.0 == v;
            assert(next[a].0.0 == v);
        }
        if trail_has(next, v as int) && v != k.1 {
            let a = choose|a: int| 0 <= a < next.len() && (#[trigger] next[a]).0.0 == v;
            assert(trail[a].0.0 == v);
        }
        assert(next[trail.len() as int].0.0 == k.1);
    }
    assert forall|i: int| 0 <= i < next.len() implies known[(#[trigger] next[i]).0.0].distance
        == next[i].1 by {
        if i < trail.len() {
            assert(next[i] == trail[i]);
            assert(trail_has(trail, trail[i].0.0 as int));
        }
    }
    assert forall|a: int| 0 <= a < state.parents@.len() implies link_ok(
        g,
        known,
        k.1,
        #[trigger] state.parents@[a],
    ) && visited.contains_key(state.parents@[a].parent.0) by {
        let b = choose|b: int| 0 <= b < merged.len() && state.parents@[a] == link_of(merged[b]);
        let e = merged[b];
        let i = choose|i: int| 0 <= i < heap.len() && heap[i] == e;
        assert(entry_tight(g, visited, heap[i]));
        assert(key_of(e) == k);
    }
    assert forall|v: u32, a: int|
        known.contains_key(v) && v != s0.0 && 0 <= a < known[v].parents@.len() implies link_ok(
        g,
        known,
        v,
        #[trigger] known[v].parents@[a],
    ) by {
        if v != k.1 {
            assert(link_ok(g, visited, v, visited[v].parents@[a]));
        }
    }
    assert forall|v: u32, a: int|
        known.contains_key(v) && 0 <= a < known[v].parents@.len() implies known.contains_key(
        (#[trigger] known[v].parents@[a]).parent.0,
    ) by {
        if v != k.1 {
            assert(visited.contains_key(visited[v].parents@[a].parent.0));
        }
    }
    assert forall|a: int| 0 <= a < kept(heap, k).len() implies entry_tight(
        g,
        known,
        #[trigger] kept(heap, k)[a],
    ) by {
        let i = choose|i: int| 0 <= i < heap.len() && heap[i] == kept(heap, k)[a];
        assert(entry_tight(g, visited, heap[i]));
    }
    assert forall|a: int| 0 <= a < state.parents@.len() implies visited.contains_key(
        (#[trigger] state.parents@[a]).parent.0,
    ) && forall|b: int|
        0 <= b < visited[state.parents@[a].parent.0].parents@.len() ==> visited.contains_key(
            (#[trigger] visited[state.parents@[a].parent.0].parents@[b]).parent.0,
        ) by {}
}

/// The parents of the entries that reach one node at one distance, and
/// the parents of those, are settled.
pub proof fn lemma_group_links_known<D>(
    g: &DirectedNetworkGraph<D>,
    s0: NodeId,
    trail: Seq<(NodeId, u64)>,
    heap: Seq<DijkstraNodeState>,
    visited: Map<u32, VisitedState>,
    k: (u64, u32),
)
    requires
        dag_inv(g, s0, trail, heap, visited),
    ensures
        grand_known(merge_links(group(heap, k)), visited),
{
    let merged = group(heap, k);
    let links = merge_links(merged);
    lemma_group(heap, k);
    lemma_merge_links(merged);
    assert forall|a: int| 0 <= a < links.len() implies visited.contains_key(
        (#[trigger] links[a]).parent.0,
    ) && forall|b: int|
        0 <= b < visited[links[a].parent.0].parents@.len() ==> visited.contains_key(
            (#[trigger] visited[links[a].parent.0].parents@[b]).parent.0,
        ) by {
        let b0 = choose|b0: int| 0 <= b0 < merged.len() && links[a] == link_of(merged[b0]);
        let i = choose|i: int| 0 <= i < heap.len() && heap[i] == merged[b0];
        assert(entry_tight(g, visited, heap[i]));
    }
}

/// While an active entry and an entry of a node that is not settled wait,
/// the search goes on.
pub proof fn lemma_extent_step<D>(
    g: &DirectedNetworkGraph<D>,
    s0: NodeId,
    trail: Seq<(NodeId, u64)>,
    heap: Seq<DijkstraNodeState>,
    visited: Map<u32, VisitedState>,
    act: Map<u32, bool>,
    k: (u64, u32),
)
    requires
        dag_inv(g, s0, trail, heap, visited),
        entries_marked(heap, act, trail.last()),
        count_active(heap) > 0,
        least_live(heap, visited, k),
    ensures
        went_on(g, trail, visited, act, trail.len() - 1),
{
    let m = trail.len() - 1;
    assert forall|v: u32| visited.contains_key(v) implies prefix_has(trail, m, v as int) by {
        assert(trail_has(trail, v as int));
        let i = choose|i: int| 0 <= i < trail.len() && (#[trigger] trail[i]).0.0 == v;
        assert(0 <= i <= m && trail[i].0.0 == v);
    }
    assert forall|v: int| prefix_has(trail, m, v) implies trail_has(trail, v) by {
        let i = choose|i: int| 0 <= i <= m && i < trail.len() && (#[trigger] trail[i]).0.0 == v;
        assert(trail[i].0.0 == v);
    }
    lemma_counted_is_active(heap);
    let ia = choose|i: int| 0 <= i < heap.len() && (#[trigger] heap[i]).parent.active;
    let ea = heap[ia];
    assert(entry_marked(act, trail.last(), ea));
    assert(entry_tight(g, visited, ea));
    assert(arc_waits(g, trail, visited, m, ea.parent.parent.0, ea.parent.parent_edge.0 as int));
    let ib = choose|i: int| 0 <= i < heap.len() && is_live(visited, #[trigger] heap[i]) && key_of(heap[i]) == k;
    let eb = heap[ib];
    assert(entry_marked(act, trail.last(), eb));
    assert(entry_tight(g, visited, eb));
    assert(arc_waits(g, trail, visited, m, eb.parent.parent.0, eb.parent.parent_edge.0 as int));
    assert(!trail_has(trail, eb.current.0 as int));
}

/// When no active entry waits, or only entries of settled nodes wait, the
/// search does not go on.
#[verifier::rlimit(40)]
pub proof fn lemma_extent_stop<D>(
    g: &DirectedNetworkGraph<D>,
    s0: NodeId,
    trail: Seq<(NodeId, u64)>,
    heap: Seq<DijkstraNodeState>,
    visited: Map<u32, VisitedState>,
    act: Map<u32, bool>,
)
    requires
        dag_inv(g, s0, trail, heap, visited),
        entries_marked(heap, act, trail.last()),
        arcs_waiting(g, heap, visited, trail.last(), -1),
        count_active(heap) == 0 || !has_live(heap, visited),
    ensures
        !went_on(g, trail, visited, act, trail.len() - 1),
{
    let m = trail.len() - 1;
    assert forall|v: int| prefix_has(trail, m, v) implies trail_has(trail, v) by {
        let i = choose|i: int| 0 <= i <= m && i < trail.len() && (#[trigger] trail[i]).0.0 == v;
        assert(trail[i].0.0 == v);
    }
    assert forall|v: int| trail_has(trail, v) implies prefix_has(trail, m, v) by {
        let i = choose|i: int| 0 <= i < trail.len() && (#[trigger] trail[i]).0.0 == v;
        assert(0 <= i <= m && trail[i].0.0 == v);
    }
    if count_active(heap) == 0 {
        if active_waits(g, trail, visited, act, m) {
            let (p, j) = choose|p: u32, j: int| #[trigger] arc_waits(g, trail, visited, m, p, j) && act[p];
            assert(trail_has(trail, p as int));
            assert(arc_pending(g, heap, visited, p, j));
            let i = choose|i: int| 0 <= i < heap.len() && stands_for_arc(g, visited, #[trigger] heap[i], p, j);
            assert(entry_marked(act, trail.last(), heap[i]));
            lemma_active_counted(heap, i);
        }
    } else {
        if live_waits(g, trail, visited, m) {
            let (p, j) = choose|p: u32, j: int| #[trigger]
                arc_waits(g, trail, visited, m, p, j) && !prefix_has(
                    trail,
                    m,
                    g.edges@[j].target_node.0 as int,
                );
            assert(trail_has(trail, p as int));
            assert(arc_pending(g, heap, visited, p, j));
            let i = choose|i: int| 0 <= i < heap.len() && stands_for_arc(g, visited, #[trigger] heap[i], p, j);
            assert(is_live(visited, heap[i]));
        }
    }
}

/// That the search went on after a node stays true when more nodes are
/// settled.
#[verifier::rlimit(40)]
pub proof fn lemma_extent_grow<D>(
    g: &DirectedNetworkGraph<D>,
    s0: NodeId,
    trail: Seq<(NodeId, u64)>,
    visited: Map<u32, VisitedState>,
    act: Map<u32, bool>,
    u: u32,
    d: u64,
    state: VisitedState,
    active: bool,
    m: int,
)
    requires
        visited_ok(g, s0, trail, visited),
        !visited.contains_key(u),
        0 <= m < trail.len(),
        went_on(g, trail, visited, act, m),
    ensures
        went_on(g, trail.push((NodeId(u), d)), visited.insert(u, state), act.insert(u, active), m),
{
    let next = trail.push((NodeId(u), d));
    let known = visited.insert(u, state);
    let marks = act.insert(u, active);
    assert forall|v: int| prefix_has(trail, m, v) <==> prefix_has(next, m, v) by {
        if prefix_has(trail, m, v) {
            let i = choose|i: int| 0 <= i <= m && i < trail.len() && (#[trigger] trail[i]).0.0 == v;
            assert(next[i].0.0 == v);
        }
        if prefix_has(next, m, v) {
            let i = choose|i: int| 0 <= i <= m && i < next.len() && (#[trigger] next[i]).0.0 == v;
            assert(trail[i].0.0 == v);
        }
    }
    assert forall|p: u32| prefix_has(trail, m, p as int) implies visited.contains_key(p) by {
        let i = choose|i: int| 0 <= i <= m && i < trail.len() && (#[trigger] trail[i]).0.0 == p;
        assert(trail_has(trail, p as int));
    }
    assert(next[m] == trail[m]);
    let (pa, ja) = choose|p: u32, j: int| #[trigger] arc_waits(g, trail, visited, m, p, j) && act[p];
    assert(arc_waits(g, next, known, m, pa, ja) && marks[pa]);
    let (pb, jb) = choose|p: u32, j: int| #[trigger]
        arc_waits(g, trail, visited, m, p, j) && !prefix_has(
            trail,
            m,
            g.edges@[j].target_node.0 as int,
        );
    assert(arc_waits(g, next, known, m, pb, jb) && !prefix_has(
        next,
        m,
        g.edges@[jb].target_node.0 as int,
    ));
}

/// Settling the nearest waiting node keeps the account of where the
/// search is active.
#[verifier::rlimit(40)]
pub proof fn lemma_activity_step<D>(
    g: &DirectedNetworkGraph<D>,
    s0: NodeId,
    backward: Seq<u64>,
    trail: Seq<(NodeId, u64)>,
    heap: Seq<DijkstraNodeState>,
    visited: Map<u32, VisitedState>,
    act: Map<u32, bool>,
    k: (u64, u32),
    state: VisitedState,
    active: bool,
)
    requires
        dag_inv(g, s0, trail, heap, visited),
        activity_ok(s0, backward, visited, act),
        entries_marked(heap, act, trail.last()),
        least_live(heap, visited, k),
        state.parents@ == merge_links(group(heap, k)),
        active == (any_active(group(heap, k)) && !abort_rule(
            state.reference_distance,
            backward[k.1 as int],
            state.distance,
        )),
    ensures
        activity_ok(s0, backward, visited.insert(k.1, state), act.insert(k.1, active)),
{
    let known = visited.insert(k.1, state);
    let marks = act.insert(k.1, active);
    let merged = group(heap, k);
    let links = merge_links(merged);
    let m = choose|i: int| 0 <= i < heap.len() && is_live(visited, #[trigger] heap[i]) && key_of(heap[i]) == k;
    assert(!visited.contains_key(k.1));
    lemma_group(heap, k);
    lemma_merge_links(merged);
    lemma_group_links_known(g, s0, trail, heap, visited, k);
    // the new node
    if any_active(merged) {
        lemma_counted_is_active(merged);
        let b = choose|b: int| 0 <= b < merged.len() && (#[trigger] merged[b]).parent.active;
        let i = choose|i: int| 0 <= i < heap.len() && heap[i] == merged[b];
        assert(entry_marked(act, trail.last(), heap[i]));
        lemma_merge_links_cover(merged, b);
        let a = choose|a: int|
            0 <= a < links.len() && (#[trigger] links[a]).parent == merged[b].parent.parent;
        assert(marks[links[a].parent.0]);
    }
    if any_link_active(links, marks) {
        let a = choose|a: int| 0 <= a < links.len() && marks[(#[trigger] links[a]).parent.0];
        let b = choose|b: int| 0 <= b < merged.len() && links[a] == link_of(merged[b]);
        let i = choose|i: int| 0 <= i < heap.len() && heap[i] == merged[b];
        assert(entry_marked(act, trail.last(), heap[i]));
        assert(visited.contains_key(links[a].parent.0));
        lemma_active_counted(merged, b);
    }
    assert forall|v: u32| #[trigger] known.contains_key(v) && v != s0.0 implies marks[v] == (
    any_link_active(known[v].parents@, marks) && !abort_rule(
        known[v].reference_distance,
        backward[v as int],
        known[v].distance,
    )) by {
        if v != k.1 {
            let old_links = visited[v].parents@;
            if any_link_active(old_links, act) {
                let a = choose|a: int| 0 <= a < old_links.len() && act[(#[trigger] old_links[a]).parent.0];
                assert(visited.contains_key(old_links[a].parent.0));
                assert(marks[old_links[a].parent.0]);
            }
            if any_link_active(old_links, marks) {
                let a = choose|a: int| 0 <= a < old_links.len() && marks[(#[trigger] old_links[a]).parent.0];
                assert(visited.contains_key(old_links[a].parent.0));
                assert(act[old_links[a].parent.0]);
            }
        }
    }
}

/// Settling the nearest waiting node leaves the entries that come after
/// it, each with the activity of its parent, and every record that leaves
/// a node settled before and leads to a later place keeps its entry.
#[verifier::rlimit(40)]
pub proof fn lemma_marked_settle<D>(
    g: &DirectedNetworkGraph<D>,
    s0: NodeId,
    trail: Seq<(NodeId, u64)>,
    heap: Seq<DijkstraNodeState>,
    visited: Map<u32, VisitedState>,
    act: Map<u32, bool>,
    k: (u64, u32),
    state: VisitedState,
    active: bool,
)
    requires
        dag_inv(g, s0, trail, heap, visited),
        entries_marked(heap, act, trail.last()),
        arcs_waiting(g, heap, visited, trail.last(), -1),
        least_live(heap, visited, k),
        trail_ok(g, EdgeDirection::Forward, s0.0 as int, trail.push((NodeId(k.1), k.0))),
    ensures
        entries_marked(kept(heap, k), act.insert(k.1, active), (NodeId(k.1), k.0)),
        arcs_waiting(
            g,
            kept(heap, k),
            visited.insert(k.1, state),
            (NodeId(k.1), k.0),
            k.1 as int,
        ),
{
    let known = visited.insert(k.1, state);
    let marks = act.insert(k.1, active);
    let rest = kept(heap, k);
    let next = trail.push((NodeId(k.1), k.0));
    let last = trail.last();
    let m = choose|i: int| 0 <= i < heap.len() && is_live(visited, #[trigger] heap[i]) && key_of(heap[i]) == k;
    assert(!visited.contains_key(k.1));
    lemma_kept(heap, k);
    // the node settled last comes before the new one
    assert(next[trail.len() - 1] == last);
    assert(next[trail.len() as int] == (NodeId(k.1), k.0));
    assert(last.1 <= k.0 && (last.1 == k.0 ==> last.0.0 < k.1));
    assert forall|a: int| 0 <= a < rest.len() implies entry_marked(
        marks,
        (NodeId(k.1), k.0),
        #[trigger] rest[a],
    ) by {
        let i = choose|i: int| 0 <= i < heap.len() && heap[i] == rest[a];
        assert(entry_marked(act, last, heap[i]));
        assert(entry_tight(g, visited, heap[i]));
        assert(key_less(k, key_of(rest[a])));
    }
    assert forall|p: u32, j: int|
        known.contains_key(p) && p != k.1 as int && g.arc(EdgeDirection::Forward, p as int, j)
            && after_key(
            (NodeId(k.1), k.0),
            known[p].distance + g.edges@[j].edge_weight,
            g.edges@[j].target_node.0,
        ) implies #[trigger] arc_pending(g, rest, known, p, j) by {
        assert(visited.contains_key(p));
        assert(after_key(
            last,
            visited[p].distance + g.edges@[j].edge_weight,
            g.edges@[j].target_node.0,
        ));
        assert(arc_pending(g, heap, visited, p, j));
        let i = choose|i: int| 0 <= i < heap.len() && stands_for_arc(g, visited, #[trigger] heap[i], p, j);
        assert(key_less(k, key_of(heap[i])));
        let a = choose|a: int| 0 <= a < rest.len() && rest[a] == heap[i];
        assert(stands_for_arc(g, known, rest[a], p, j));
    }
}

/// What a step needs to know before it computes what it knows of the
/// node that it settles.
pub proof fn lemma_settle_prepare<D>(
    g: &DirectedNetworkGraph<D>,
    s0: NodeId,
    forward: Seq<u64>,
    backward: Seq<u64>,
    trail: Seq<(NodeId, u64)>,
    heap: Seq<DijkstraNodeState>,
    visited: Map<u32, VisitedState>,
    act: Map<u32, bool>,
    k: (u64, u32),
)
    requires
        settled_inv(g, s0, forward, backward, trail, heap, visited, act),
        least_live(heap, visited, k),
    ensures
        k.1 < g.node_total(),
        trail.len() + 1 <= g.node_total(),
        grand_known(merge_links(group(heap, k)), visited),
{
    reveal(settled_inv);
    lemma_dag_settle_search(g, s0, trail, heap, visited, k);
    lemma_group_links_known(g, s0, trail, heap, visited, k);
}

/// One step of the restricted search, for the distances.
pub proof fn lemma_settle_ready_search<D>(
    g: &DirectedNetworkGraph<D>,
    s0: NodeId,
    forward: Seq<u64>,
    backward: Seq<u64>,
    trail: Seq<(NodeId, u64)>,
    heap: Seq<DijkstraNodeState>,
    visited: Map<u32, VisitedState>,
    act: Map<u32, bool>,
    k: (u64, u32),
    state: VisitedState,
)
    requires
        settled_inv(g, s0, forward, backward, trail, heap, visited, act),
        least_live(heap, visited, k),
        group(heap, k).len() > 0,
        state.distance == k.0,
        state.parents@ == merge_links(group(heap, k)),
    ensures
        ready_search(
            g,
            s0,
            trail.push((NodeId(k.1), k.0)),
            kept(heap, k),
            visited.insert(k.1, state),
            NodeId(k.1),
            k.0,
        ),
{
    reveal(settled_inv);
    reveal(ready_search);
    let next = trail.push((NodeId(k.1), k.0));
    lemma_dag_settle_search(g, s0, trail, heap, visited, k);
    lemma_dag_settle_visited(g, s0, trail, heap, visited, k, state);
    assert(next.last() == (NodeId(k.1), k.0));
    assert(keys(kept(heap, k)).len() == kept(heap, k).len());
}

/// One step of the restricted search, for the activity of the entries.
pub proof fn lemma_settle_ready_marks<D>(
    g: &DirectedNetworkGraph<D>,
    s0: NodeId,
    forward: Seq<u64>,
    backward: Seq<u64>,
    trail: Seq<(NodeId, u64)>,
    heap: Seq<DijkstraNodeState>,
    visited: Map<u32, VisitedState>,
    act: Map<u32, bool>,
    k: (u64, u32),
    state: VisitedState,
    active: bool,
)
    requires
        settled_inv(g, s0, forward, backward, trail, heap, visited, act),
        least_live(heap, visited, k),
        state.distance == k.0,
        state.parents@ == merge_links(group(heap, k)),
    ensures
        ready_marks(
            g,
            trail.push((NodeId(k.1), k.0)),
            kept(heap, k),
            visited.insert(k.1, state),
            act.insert(k.1, active),
            NodeId(k.1),
            active,
        ),
{
    reveal(settled_inv);
    reveal(ready_marks);
    reveal(carried);
    let next = trail.push((NodeId(k.1), k.0));
    lemma_dag_settle_search(g, s0, trail, heap, visited, k);
    lemma_dag_settle_complete(g, s0, trail, heap, visited, k, state);
    lemma_marked_settle(g, s0, trail, heap, visited, act, k, state, active);
    assert(next.last() == (NodeId(k.1), k.0));
}

/// One step of the restricted search keeps the parents complete.
pub proof fn lemma_settle_parents<D>(
    g: &DirectedNetworkGraph<D>,
    s0: NodeId,
    forward: Seq<u64>,
    backward: Seq<u64>,
    trail: Seq<(NodeId, u64)>,
    heap: Seq<DijkstraNodeState>,
    visited: Map<u32, VisitedState>,
    act: Map<u32, bool>,
    k: (u64, u32),
    state: VisitedState,
    active: bool,
)
    requires
        settled_inv(g, s0, forward, backward, trail, heap, visited, act),
        count_active(heap) > 0,
        least_live(heap, visited, k),
        group(heap, k).len() > 0,
        state.distance == k.0,
        state.parents@ == merge_links(group(heap, k)),
        state.border_distance == border_rule(
            s0,
            state.parents@,
            forward[k.1 as int],
            max_border(group(heap, k), visited),
        ),
        state.reference_distance == reference_rule(
            state.distance,
            max_reference(group(heap, k), visited),
            state.border_distance,
            state.parents@,
            visited,
        ),
        active == (any_active(group(heap, k)) && !abort_rule(
            state.reference_distance,
            backward[k.1 as int],
            state.distance,
        )),
    ensures
        parents_complete(g, s0, visited.insert(k.1, state)),
{
    reveal(settled_inv);
    reveal(carried);
    lemma_dag_settle_complete(g, s0, trail, heap, visited, k, state);
}

/// One step of the restricted search keeps the rules.
#[verifier::rlimit(40)]
pub proof fn lemma_settle_rules<D>(
    g: &DirectedNetworkGraph<D>,
    s0: NodeId,
    forward: Seq<u64>,
    backward: Seq<u64>,
    trail: Seq<(NodeId, u64)>,
    heap: Seq<DijkstraNodeState>,
    visited: Map<u32, VisitedState>,
    act: Map<u32, bool>,
    k: (u64, u32),
    state: VisitedState,
    active: bool,
)
    requires
        settled_inv(g, s0, forward, backward, trail, heap, visited, act),
        count_active(heap) > 0,
        least_live(heap, visited, k),
        group(heap, k).len() > 0,
        state.distance == k.0,
        state.parents@ == merge_links(group(heap, k)),
        state.border_distance == border_rule(
            s0,
            state.parents@,
            forward[k.1 as int],
            max_border(group(heap, k), visited),
        ),
        state.reference_distance == reference_rule(
            state.distance,
            max_reference(group(heap, k), visited),
            state.border_distance,
            state.parents@,
            visited,
        ),
        active == (any_active(group(heap, k)) && !abort_rule(
            state.reference_distance,
            backward[k.1 as int],
            state.distance,
        )),
    ensures
        rules_ok(s0, forward, visited.insert(k.1, state)),
{
    reveal(settled_inv);
    reveal(carried);
    lemma_group_links_known(g, s0, trail, heap, visited, k);
    lemma_dag_settle_rules(g, s0, forward, trail, heap, visited, k, state);
}

/// One step of the restricted search keeps the account of its activity.
pub proof fn lemma_settle_activity<D>(
    g: &DirectedNetworkGraph<D>,
    s0: NodeId,
    forward: Seq<u64>,
    backward: Seq<u64>,
    trail: Seq<(NodeId, u64)>,
    heap: Seq<DijkstraNodeState>,
    visited: Map<u32, VisitedState>,
    act: Map<u32, bool>,
    k: (u64, u32),
    state: VisitedState,
    active: bool,
)
    requires
        settled_inv(g, s0, forward, backward, trail, heap, visited, act),
        count_active(heap) > 0,
        least_live(heap, visited, k),
        group(heap, k).len() > 0,
        state.distance == k.0,
        state.parents@ == merge_links(group(heap, k)),
        state.border_distance == border_rule(
            s0,
            state.parents@,
            forward[k.1 as int],
            max_border(group(heap, k), visited),
        ),
        state.reference_distance == reference_rule(
            state.distance,
            max_reference(group(heap, k), visited),
            state.border_distance,
            state.parents@,
            visited,
        ),
        active == (any_active(group(heap, k)) && !abort_rule(
            state.reference_distance,
            backward[k.1 as int],
            state.distance,
        )),
    ensures
        activity_ok(s0, backward, visited.insert(k.1, state), act.insert(k.1, active)),
{
    reveal(settled_inv);
    reveal(carried);
    lemma_activity_step(g, s0, backward, trail, heap, visited, act, k, state, active);
}

/// After the node settled last the search goes on when a step is taken.
pub proof fn lemma_settle_extent_last<D>(
    g: &DirectedNetworkGraph<D>,
    s0: NodeId,
    forward: Seq<u64>,
    backward: Seq<u64>,
    trail: Seq<(NodeId, u64)>,
    heap: Seq<DijkstraNodeState>,
    visited: Map<u32, VisitedState>,
    act: Map<u32, bool>,
    k: (u64, u32),
)
    requires
        settled_inv(g, s0, forward, backward, trail, heap, visited, act),
        count_active(heap) > 0,
        least_live(heap, visited, k),
    ensures
        trail.len() > 0,
        went_on(g, trail, visited, act, trail.len() - 1),
        visited_ok(g, s0, trail, visited),
        !visited.contains_key(k.1),
        trail.len() + 1 <= g.node_total(),
{
    reveal(settled_inv);
    lemma_dag_settle_search(g, s0, trail, heap, visited, k);
    lemma_extent_step(g, s0, trail, heap, visited, act, k);
}

/// After every node settled before the last the search went on.
pub proof fn lemma_settle_extent_old<D>(
    g: &DirectedNetworkGraph<D>,
    s0: NodeId,
    forward: Seq<u64>,
    backward: Seq<u64>,
    trail: Seq<(NodeId, u64)>,
    heap: Seq<DijkstraNodeState>,
    visited: Map<u32, VisitedState>,
    act: Map<u32, bool>,
)
    requires
        settled_inv(g, s0, forward, backward, trail, heap, visited, act),
    ensures
        forall|m: int| 0 <= m < trail.len() - 1 ==> #[trigger] went_on(g, trail, visited, act, m),
{
    reveal(settled_inv);
    reveal(carried);
}

/// That the search went on after its nodes stays true when one more node
/// is settled.
pub proof fn lemma_extent_grow_all<D>(
    g: &DirectedNetworkGraph<D>,
    s0: NodeId,
    trail: Seq<(NodeId, u64)>,
    visited: Map<u32, VisitedState>,
    act: Map<u32, bool>,
    u: u32,
    d: u64,
    state: VisitedState,
    active: bool,
)
    requires
        visited_ok(g, s0, trail, visited),
        !visited.contains_key(u),
        forall|m: int| 0 <= m < trail.len() ==> #[trigger] went_on(g, trail, visited, act, m),
    ensures
        forall|m: int|
            0 <= m < trail.len() ==> #[trigger] went_on(
                g,
                trail.push((NodeId(u), d)),
                visited.insert(u, state),
                act.insert(u, active),
                m,
            ),
{
    assert forall|m: int| 0 <= m < trail.len() implies #[trigger] went_on(
        g,
        trail.push((NodeId(u), d)),
        visited.insert(u, state),
        act.insert(u, active),
        m,
    ) by {
        lemma_extent_grow(g, s0, trail, visited, act, u, d, state, active, m);
    }
}

/// After every node settled before the new one the search went on.
pub proof fn lemma_settle_extent<D>(
    g: &DirectedNetworkGraph<D>,
    s0: NodeId,
    forward: Seq<u64>,
    backward: Seq<u64>,
    trail: Seq<(NodeId, u64)>,
    heap: Seq<DijkstraNodeState>,
    visited: Map<u32, VisitedState>,
    act: Map<u32, bool>,
    k: (u64, u32),
    state: VisitedState,
    active: bool,
)
    requires
        settled_inv(g, s0, forward, backward, trail, heap, visited, act),
        count_active(heap) > 0,
        least_live(heap, visited, k),
    ensures
        forall|m: int|
            0 <= m < trail.len() ==> #[trigger] went_on(
                g,
                trail.push((NodeId(k.1), k.0)),
                visited.insert(k.1, state),
                act.insert(k.1, active),
                m,
            ),
        trail.len() + 1 <= g.node_total(),
{
    lemma_settle_extent_last(g, s0, forward, backward, trail, heap, visited, act, k);
    lemma_settle_extent_old(g, s0, forward, backward, trail, heap, visited, act);
    assert forall|m: int| 0 <= m < trail.len() implies #[trigger] went_on(
        g,
        trail,
        visited,
        act,
        m,
    ) by {}
    lemma_extent_grow_all(g, s0, trail, visited, act, k.1, k.0, state, active);
}

/// One step of the restricted search, for what it knows of the settled
/// nodes.
#[verifier::rlimit(40)]
pub proof fn lemma_settle_carried<D>(
    g: &DirectedNetworkGraph<D>,
    s0: NodeId,
    forward: Seq<u64>,
    backward: Seq<u64>,
    trail: Seq<(NodeId, u64)>,
    heap: Seq<DijkstraNodeState>,
    visited: Map<u32, VisitedState>,
    act: Map<u32, bool>,
    k: (u64, u32),
    state: VisitedState,
    active: bool,
)
    requires
        settled_inv(g, s0, forward, backward, trail, heap, visited, act),
        count_active(heap) > 0,
        least_live(heap, visited, k),
        group(heap, k).len() > 0,
        state.distance == k.0,
        state.parents@ == merge_links(group(heap, k)),
        state.border_distance == border_rule(
            s0,
            state.parents@,
            forward[k.1 as int],
            max_border(group(heap, k), visited),
        ),
        state.reference_distance == reference_rule(
            state.distance,
            max_reference(group(heap, k), visited),
            state.border_distance,
            state.parents@,
            visited,
        ),
        active == (any_active(group(heap, k)) && !abort_rule(
            state.reference_distance,
            backward[k.1 as int],
            state.distance,
        )),
    ensures
        carried(
            g,
            s0,
            forward,
            backward,
            trail.push((NodeId(k.1), k.0)),
            visited.insert(k.1, state),
            act.insert(k.1, active),
        ),
{
    lemma_settle_parents(g, s0, forward, backward, trail, heap, visited, act, k, state, active);
    lemma_settle_rules(g, s0, forward, backward, trail, heap, visited, act, k, state, active);
    lemma_settle_activity(g, s0, forward, backward, trail, heap, visited, act, k, state, active);
    lemma_settle_extent(g, s0, forward, backward, trail, heap, visited, act, k, state, active);
    reveal(carried);
}

/// The end of the restricted search: what holds of its outcome.
pub proof fn lemma_search_ends<D>(
    g: &DirectedNetworkGraph<D>,
    s0: NodeId,
    forward: Seq<u64>,
    backward: Seq<u64>,
    trail: Seq<(NodeId, u64)>,
    heap: Seq<DijkstraNodeState>,
    visited: Map<u32, VisitedState>,
    act: Map<u32, bool>,
)
    requires
        settled_inv(g, s0, forward, backward, trail, heap, visited, act),
        count_active(heap) == 0 || !has_live(heap, visited),
    ensures
        trail_ok(g, EdgeDirection::Forward, s0.0 as int, trail),
        visited_ok(g, s0, trail, visited),
        rules_ok(s0, forward, visited),
        parents_complete(g, s0, visited),
        extent_ok(g, s0, backward, trail, visited),
{
    reveal(settled_inv);
    reveal(carried);
    lemma_extent_stop(g, s0, trail, heap, visited, act);
    assert(activity_ok(s0, backward, visited, act) && extent_with(g, trail, visited, act));
}

#[verifier::rlimit(40)]
pub proof fn lemma_sweep_links(
    state: (Map<u32, int>, Seq<(NodeId, EdgeId)>),
    links: Seq<ParentLink>,
    slack: int,
    backward: Seq<u64>,
    floor: int,
)
    requires
        slacks_above(state.0, floor),
        slack >= floor,
        floor <= 0,
        forall|a: int| 0 <= a < links.len() ==> (#[trigger] links[a]).parent.0 < backward.len(),
    ensures
        slacks_above(sweep_links(state, links, slack, backward).0, floor - 0x1_0000_0000),
        sweep_links(state, links, slack, backward).1.len() >= state.1.len(),
        forall|r: int|
            0 <= r < state.1.len() ==> sweep_links(state, links, slack, backward).1[r] == state.1[r],
        forall|r: int|
            state.1.len() <= r < sweep_links(state, links, slack, backward).1.len() ==> exists|a: int|
                0 <= a < links.len() && (#[trigger] links[a]).parent == (#[trigger] sweep_links(
                    state,
                    links,
                    slack,
                    backward,
                ).1[r]).0 && links[a].edge == Some(sweep_links(state, links, slack, backward).1[r].1),
    decreases links.len(),
{
    if links.len() > 0 {
        let head = links.drop_last();
        lemma_sweep_links(state, head, slack, backward, floor);
        let mid = sweep_links(state, head, slack, backward);
        let out = sweep_links(state, links, slack, backward);
        let link = links.last();
        assert forall|v: u32| out.0.contains_key(v) implies #[trigger] out.0[v] >= floor
            - 0x1_0000_0000 by {
            if v != link.parent.0 {
                assert(mid.0.contains_key(v));
            } else {
                assert(links[links.len() - 1] == link);
                if mid.0.contains_key(v) {
                    assert(mid.0[v] >= floor - 0x1_0000_0000);
                }
            }
        }
        assert forall|r: int| state.1.len() <= r < out.1.len() implies exists|a: int|
            0 <= a < links.len() && (#[trigger] links[a]).parent == (#[trigger] out.1[r]).0
                && links[a].edge == Some(out.1[r].1) by {
            if r < mid.1.len() {
                assert(out.1[r] == mid.1[r]);
                let a = choose|a: int|
                    0 <= a < head.len() && (#[trigger] head[a]).parent == mid.1[r].0 && head[a].edge
                        == Some(mid.1[r].1);
                assert(links[a] == head[a]);
            } else {
                assert(links[links.len() - 1] == link);
            }
        }
    }
}

/// The sweep keeps only edges of parent links of the nodes that it
/// handles, and no tentative slack falls below the number of handled nodes
/// times the largest weight.
#[verifier::rlimit(40)]
pub proof fn lemma_sweep(
    order: Seq<(NodeId, (EdgeId, u64))>,
    visited: Map<u32, VisitedState>,
    source_radius: u64,
    backward: Seq<u64>,
)
    requires
        sweep_ready(order, visited, backward),
    ensures
        slacks_above(sweep(order, visited, source_radius, backward).0, -order.len() * 0x1_0000_0000),
        retained_from(sweep(order, visited, source_radius, backward).1, order, visited),
    decreases order.len(),
{
    if order.len() > 0 {
        let head = order.drop_last();
        let item = order.last();
        assert forall|i: int| 0 <= i < head.len() implies {
            &&& visited.contains_key((#[trigger] head[i]).0.0)
            &&& head[i].0.0 < backward.len()
            &&& forall|a: int|
                0 <= a < visited[head[i].0.0].parents@.len() ==> (
                #[trigger] visited[head[i].0.0].parents@[a]).parent.0 < backward.len()
        } by {
            assert(head[i] == order[i]);
        }
        lemma_sweep(head, visited, source_radius, backward);
        let mid = sweep(head, visited, source_radius, backward);
        let out = sweep(order, visited, source_radius, backward);
        let floor = -head.len() * 0x1_0000_0000;
        assert(-order.len() * 0x1_0000_0000 == floor - 0x1_0000_0000);
        assert(slack_of(mid.0, backward, item.0.0) >= floor) by {
            if mid.0.contains_key(item.0.0) {
                assert(mid.0[item.0.0] >= floor);
            }
        }
        assert(order[order.len() - 1] == item);
        assert forall|p: NodeId, e: EdgeId| is_link_of(head, visited, p, e) implies is_link_of(
            order,
            visited,
            p,
            e,
        ) by {
            let (i, a) = choose|i: int, a: int|
                0 <= i < head.len() && 0 <= a < visited[head[i].0.0].parents@.len() && (
                #[trigger] visited[head[i].0.0].parents@[a]).parent == p
                    && visited[head[i].0.0].parents@[a].edge == Some(e);
            assert(order[i] == head[i]);
            assert(0 <= i < order.len() && 0 <= a < visited[order[i].0.0].parents@.len()
                && visited[order[i].0.0].parents@[a].parent == p
                && visited[order[i].0.0].parents@[a].edge == Some(e));
        }
        if item.1.1 >= source_radius {
            let slack = slack_of(mid.0, backward, item.0.0);
            let start = (mid.0.insert(item.0.0, slack), mid.1);
            assert(slacks_above(start.0, floor)) by {
                assert forall|v: u32| start.0.contains_key(v) implies #[trigger] start.0[v]
                    >= floor by {
                    if v != item.0.0 {
                        assert(mid.0.contains_key(v));
                    }
                }
            }
            let links = visited[item.0.0].parents@;
            lemma_sweep_links(start, links, slack, backward, floor);
            assert forall|r: int| 0 <= r < out.1.len() implies is_link_of(
                order,
                visited,
                (#[trigger] out.1[r]).0,
                out.1[r].1,
            ) by {
                if r < mid.1.len() {
                    assert(out.1[r] == mid.1[r]);
                    assert(is_link_of(head, visited, mid.1[r].0, mid.1[r].1));
                } else {
                    let a = choose|a: int|
                        0 <= a < links.len() && (#[trigger] links[a]).parent == out.1[r].0
                            && links[a].edge == Some(out.1[r].1);
                    let i = order.len() - 1;
                    assert(order[i].0.0 == item.0.0);
                    assert(0 <= i < order.len() && 0 <= a < visited[order[i].0.0].parents@.len()
                        && visited[order[i].0.0].parents@[a].parent == out.1[r].0
                        && visited[order[i].0.0].parents@[a].edge == Some(out.1[r].1));
                }
            }
        } else {
            assert(slacks_above(out.0, floor - 0x1_0000_0000)) by {
                assert forall|v: u32| out.0.contains_key(v) implies #[trigger] out.0[v] >= floor
                    - 0x1_0000_0000 by {}
            }
            assert forall|r: int| 0 <= r < out.1.len() implies is_link_of(
                order,
                visited,
                (#[trigger] out.1[r]).0,
                out.1[r].1,
            ) by {
                assert(out.1[r] == mid.1[r]);
                assert(is_link_of(head, visited, mid.1[r].0, mid.1[r].1));
            }
        }
    } else {
        assert(sweep(order, visited, source_radius, backward).1.len() == 0);
    }
}

/// Whether the outcome of a search can be swept with the radii of
/// `backward`.
pub proof fn lemma_dag_is_ready<D>(
    g: &DirectedNetworkGraph<D>,
    s0: NodeId,
    order: Seq<(NodeId, (EdgeId, u64))>,
    visited: Map<u32, VisitedState>,
    backward: Seq<u64>,
)
    requires
        dag_ok(g, s0, order, visited),
        backward.len() == g.node_total(),
    ensures
        sweep_ready(order, visited, backward),
{
    let trail = settle_trail(s0, order);
    assert forall|i: int| 0 <= i < order.len() implies {
        &&& visited.contains_key((#[trigger] order[i]).0.0)
        &&& order[i].0.0 < backward.len()
        &&& forall|a: int|
            0 <= a < visited[order[i].0.0].parents@.len() ==> (
            #[trigger] visited[order[i].0.0].parents@[a]).parent.0 < backward.len()
    } by {
        let at = order.len() - i;
        assert(trail[at].0 == order[i].0);
        assert(trail_has(trail, order[i].0.0 as int));
        assert(trail[at].0.0 < g.node_total());
        assert forall|a: int| 0 <= a < visited[order[i].0.0].parents@.len() implies (
        #[trigger] visited[order[i].0.0].parents@[a]).parent.0 < backward.len() by {
            let p = visited[order[i].0.0].parents@[a].parent.0;
            assert(visited.contains_key(p));
            assert(trail_has(trail, p as int));
            let b = choose|b: int| 0 <= b < trail.len() && (#[trigger] trail[b]).0.0 == p;
            assert(trail[b].0.0 < g.node_total());
        }
    }
}

/// Every edge that the sweep keeps is an edge record of the graph that
/// leaves the node with which it is listed.
pub proof fn lemma_retained_are_arcs<D>(
    g: &DirectedNetworkGraph<D>,
    s0: NodeId,
    order: Seq<(NodeId, (EdgeId, u64))>,
    visited: Map<u32, VisitedState>,
    retained: Seq<(NodeId, EdgeId)>,
)
    requires
        dag_ok(g, s0, order, visited),
        retained_from(retained, order, visited),
    ensures
        forall|r: int|
            0 <= r < retained.len() ==> g.arc(
                EdgeDirection::Forward,
                (#[trigger] retained[r]).0.0 as int,
                retained[r].1.0 as int,
            ),
{
    let trail = settle_trail(s0, order);
    assert forall|r: int| 0 <= r < retained.len() implies g.arc(
        EdgeDirection::Forward,
        (#[trigger] retained[r]).0.0 as int,
        retained[r].1.0 as int,
    ) by {
        assert(is_link_of(order, visited, retained[r].0, retained[r].1));
        let (i, a) = choose|i: int, a: int|
            0 <= i < order.len() && 0 <= a < visited[order[i].0.0].parents@.len() && (
            #[trigger] visited[order[i].0.0].parents@[a]).parent == retained[r].0
                && visited[order[i].0.0].parents@[a].edge == Some(retained[r].1);
        let v = order[i].0.0;
        let at = order.len() - i;
        assert(trail[at].0 == order[i].0);
        assert(trail_has(trail, v as int));
        assert(visited.contains_key(v));
        if v == s0.0 {
            assert(visited[v].parents@[a].edge is None);
        } else {
            assert(link_ok(g, visited, v, visited[v].parents@[a]));
        }
    }
}

pub proof fn lemma_link_border_bounds(links: Seq<ParentLink>, visited: Map<u32, VisitedState>, i: int)
    requires
        0 <= i < links.len(),
    ensures
        link_border(links, visited) >= visited[links[i].parent.0].border_distance,
    decreases links.len(),
{
    if i < links.len() - 1 {
        lemma_link_border_bounds(links.drop_last(), visited, i);
    }
}

pub proof fn lemma_link_reference_absorbs(links: Seq<ParentLink>, visited: Map<u32, VisitedState>, i: int)
    requires
        0 <= i < links.len(),
    ensures
        join_reference(link_reference(links, visited), visited[links[i].parent.0].reference_distance)
            == link_reference(links, visited),
    decreases links.len(),
{
    if i < links.len() - 1 {
        lemma_link_reference_absorbs(links.drop_last(), visited, i);
    }
}

/// A link in the place of a link from the same parent changes neither the
/// largest border distance nor the largest reference distance.
pub proof fn lemma_link_update(
    links: Seq<ParentLink>,
    visited: Map<u32, VisitedState>,
    i: int,
    link: ParentLink,
)
    requires
        0 <= i < links.len(),
        links[i].parent == link.parent,
    ensures
        link_border(links.update(i, link), visited) == link_border(links, visited),
        link_reference(links.update(i, link), visited) == link_reference(links, visited),
    decreases links.len(),
{
    let next = links.update(i, link);
    if i == links.len() - 1 {
        assert(next.drop_last() =~= links.drop_last());
    } else {
        lemma_link_update(links.drop_last(), visited, i, link);
        assert(next.drop_last() =~= links.drop_last().update(i, link));
    }
}

/// The largest border and reference distances of the parents of merged
/// entries are those of the parents of the merged links.
pub proof fn lemma_merged_maxima(entries: Seq<DijkstraNodeState>, visited: Map<u32, VisitedState>)
    ensures
        max_border(entries, visited) == link_border(merge_links(entries), visited),
        max_reference(entries, visited) == link_reference(merge_links(entries), visited),
    decreases entries.len(),
{
    if entries.len() > 0 {
        let head = entries.drop_last();
        lemma_merged_maxima(head, visited);
        let links = merge_links(head);
        let link = link_of(entries.last());
        lemma_link_index(links, link.parent);
        let i = link_index(links, link.parent);
        if i < links.len() {
            lemma_link_update(links, visited, i, link);
            lemma_link_border_bounds(links, visited, i);
            lemma_link_reference_absorbs(links, visited, i);
        } else {
            assert(links.push(link).drop_last() =~= links);
        }
    }
}

/// What is known of one more node does not change what the rules make of
/// links whose parents, and the parents of those, are known already.
pub proof fn lemma_links_stable(
    links: Seq<ParentLink>,
    visited: Map<u32, VisitedState>,
    u: u32,
    state: VisitedState,
)
    requires
        !visited.contains_key(u),
        forall|a: int| 0 <= a < links.len() ==> visited.contains_key((#[trigger] links[a]).parent.0),
    ensures
        link_border(links, visited.insert(u, state)) == link_border(links, visited),
        link_reference(links, visited.insert(u, state)) == link_reference(links, visited),
        max_distance(links, visited.insert(u, state)) == max_distance(links, visited),
    decreases links.len(),
{
    if links.len() > 0 {
        let head = links.drop_last();
        assert forall|a: int| 0 <= a < head.len() implies visited.contains_key(
            (#[trigger] head[a]).parent.0,
        ) by {
            assert(head[a] == links[a]);
        }
        lemma_links_stable(head, visited, u, state);
        assert(visited.contains_key(links[links.len() - 1].parent.0));
    }
}

pub proof fn lemma_grand_stable(
    links: Seq<ParentLink>,
    visited: Map<u32, VisitedState>,
    u: u32,
    state: VisitedState,
)
    requires
        !visited.contains_key(u),
        grand_known(links, visited),
    ensures
        max_grand_distance(links, visited.insert(u, state)) == max_grand_distance(links, visited),
    decreases links.len(),
{
    if links.len() > 0 {
        let head = links.drop_last();
        assert forall|a: int| 0 <= a < head.len() implies visited.contains_key(
            (#[trigger] head[a]).parent.0,
        ) && forall|b: int|
            0 <= b < visited[head[a].parent.0].parents@.len() ==> visited.contains_key(
                (#[trigger] visited[head[a].parent.0].parents@[b]).parent.0,
            ) by {
            assert(head[a] == links[a]);
        }
        lemma_grand_stable(head, visited, u, state);
        let last = links[links.len() - 1];
        assert(visited.contains_key(last.parent.0));
        lemma_links_stable(visited[last.parent.0].parents@, visited, u, state);
    }
}

/// What follows the rules keeps following them when one more node is
/// known.
pub proof fn lemma_state_stable(
    s0: NodeId,
    forward_radius: u64,
    old_state: VisitedState,
    visited: Map<u32, VisitedState>,
    u: u32,
    state: VisitedState,
)
    requires
        !visited.contains_key(u),
        grand_known(old_state.parents@, visited),
        state_ok(s0, forward_radius, old_state, visited),
    ensures
        state_ok(s0, forward_radius, old_state, visited.insert(u, state)),
{
    lemma_links_stable(old_state.parents@, visited, u, state);
    lemma_grand_stable(old_state.parents@, visited, u, state);
}

/// Settling the nearest waiting node by the rules keeps the rules.
#[verifier::rlimit(40)]
pub proof fn lemma_dag_settle_rules<D>(
    g: &DirectedNetworkGraph<D>,
    s0: NodeId,
    forward: Seq<u64>,
    trail: Seq<(NodeId, u64)>,
    heap: Seq<DijkstraNodeState>,
    visited: Map<u32, VisitedState>,
    k: (u64, u32),
    state: VisitedState,
)
    requires
        dag_inv(g, s0, trail, heap, visited),
        rules_ok(s0, forward, visited),
        least_live(heap, visited, k),
        state.distance == k.0,
        state.parents@ == merge_links(group(heap, k)),
        group(heap, k).len() > 0,
        state.border_distance == border_rule(
            s0,
            state.parents@,
            forward[k.1 as int],
            max_border(group(heap, k), visited),
        ),
        state.reference_distance == reference_rule(
            state.distance,
            max_reference(group(heap, k), visited),
            state.border_distance,
            state.parents@,
            visited,
        ),
        grand_known(state.parents@, visited),
    ensures
        rules_ok(s0, forward, visited.insert(k.1, state)),
{
    let known = visited.insert(k.1, state);
    let m = choose|i: int| 0 <= i < heap.len() && is_live(visited, #[trigger] heap[i]) && key_of(heap[i]) == k;
    assert(!visited.contains_key(k.1));
    lemma_merged_maxima(group(heap, k), visited);
    assert(state_ok(s0, forward[k.1 as int], state, visited));
    lemma_state_stable(s0, forward[k.1 as int], state, visited, k.1, state);
    assert forall|v: u32| #[trigger] known.contains_key(v) && v != s0.0 implies state_ok(
        s0,
        forward[v as int],
        known[v],
        known,
    ) by {
        if v != k.1 {
            assert(visited.contains_key(v));
            assert(state_ok(s0, forward[v as int], visited[v], visited));
            assert forall|a: int| 0 <= a < visited[v].parents@.len() implies visited.contains_key(
                (#[trigger] visited[v].parents@[a]).parent.0,
            ) && forall|b: int|
                0 <= b < visited[visited[v].parents@[a].parent.0].parents@.len()
                    ==> visited.contains_key(
                    (#[trigger] visited[visited[v].parents@[a].parent.0].parents@[b]).parent.0,
                ) by {
                let p = visited[v].parents@[a].parent.0;
                assert(visited.contains_key(p));
            }
            lemma_state_stable(s0, forward[v as int], visited[v], visited, k.1, state);
        }
    }
}

/// Settling the nearest waiting node keeps the parents complete, and
/// keeps an entry waiting for every record that leaves a node settled
/// before and leads to a node that is not settled.
#[verifier::rlimit(40)]
pub proof fn lemma_dag_settle_complete<D>(
    g: &DirectedNetworkGraph<D>,
    s0: NodeId,
    trail: Seq<(NodeId, u64)>,
    heap: Seq<DijkstraNodeState>,
    visited: Map<u32, VisitedState>,
    k: (u64, u32),
    state: VisitedState,
)
    requires
        dag_inv(g, s0, trail, heap, visited),
        arcs_followed(g, heap, visited, -1),
        parents_complete(g, s0, visited),
        least_live(heap, visited, k),
        state.distance == k.0,
        state.parents@ == merge_links(group(heap, k)),
    ensures
        arcs_followed(g, kept(heap, k), visited.insert(k.1, state), k.1 as int),
        parents_complete(g, s0, visited.insert(k.1, state)),
{
    let known = visited.insert(k.1, state);
    let rest = kept(heap, k);
    let m = choose|i: int| 0 <= i < heap.len() && is_live(visited, #[trigger] heap[i]) && key_of(heap[i]) == k;
    assert(!visited.contains_key(k.1));
    lemma_kept(heap, k);
    assert(entry_ok(g, EdgeDirection::Forward, s0.0 as int, trail, keys(heap)[m]));
    assert forall|p: u32, j: int|
        known.contains_key(p) && p != k.1 as int && g.arc(EdgeDirection::Forward, p as int, j) implies #[trigger] arc_followed(
        g,
        rest,
        known,
        p,
        j,
    ) by {
        assert(visited.contains_key(p));
        assert(arc_followed(g, heap, visited, p, j));
        let t = g.edges@[j].target_node.0;
        if !known.contains_key(t) {
            let i = choose|i: int| 0 <= i < heap.len() && stands_for_arc(g, visited, #[trigger] heap[i], p, j);
            let e = heap[i];
            assert(is_live(visited, e));
            assert(!key_less(key_of(e), k));
            assert(key_less(k, key_of(e)));
            let a = choose|a: int| 0 <= a < rest.len() && rest[a] == heap[i];
            assert(stands_for_arc(g, known, rest[a], p, j));
        }
    }
    // the distance of the new node is the largest so far
    assert forall|v: u32| visited.contains_key(v) implies visited[v].distance <= k.0 by {
        assert(trail_has(trail, v as int));
        let i = choose|i: int| 0 <= i < trail.len() && (#[trigger] trail[i]).0.0 == v;
        assert(visited[trail[i].0.0].distance == trail[i].1);
        if i < trail.len() - 1 {
            assert(trail[i].1 <= trail[trail.len() - 1].1);
        }
    }
    assert forall|p: u32, j: int|
        known.contains_key(p) && g.arc(EdgeDirection::Forward, p as int, j)
            && known.contains_key(g.edges@[j].target_node.0) && g.edges@[j].target_node != s0
            && known[p].distance + g.edges@[j].edge_weight
            == known[g.edges@[j].target_node.0].distance implies #[trigger] tight_parent_known(
        g,
        known,
        p,
        j,
    ) by {
        let v = g.edges@[j].target_node.0;
        assert(g.edges@[j].edge_weight > 0);
        if p == k.1 {
            if v != k.1 {
                assert(visited[v].distance <= k.0);
            }
            assert(false);
        } else if v == k.1 {
            assert(arc_followed(g, heap, visited, p, j));
            let i = choose|i: int| 0 <= i < heap.len() && stands_for_arc(g, visited, #[trigger] heap[i], p, j);
            assert(key_of(heap[i]) == k);
            lemma_group_holds(heap, k, i);
            let b = choose|b: int| 0 <= b < group(heap, k).len() && group(heap, k)[b] == heap[i];
            lemma_merge_links_cover(group(heap, k), b);
        } else {
            assert(tight_parent_known(g, visited, p, j));
        }
    }
}

} // verus!
