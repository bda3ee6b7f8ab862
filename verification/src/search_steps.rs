//! The restricted search, step by step. Every step settles the nearest
//! node that waits, from the entries that wait for it, and follows the
//! edges that leave it. What a step makes of the state of the search is
//! one thing, so the search from a source has one outcome.

use vstd::prelude::*;
use crate::dag::{
    any_active, count_active, group, has_live, is_live, key_less, key_of, kept, least_live,
    lemma_group, lemma_kept, lemma_merge_links, link_of, max_border, max_reference, merge_links,
    DijkstraNodeState, ParentLink, VisitedState,
};
use crate::graph::DirectedNetworkGraph;
use crate::ids::{EdgeId, NodeId};
use crate::phase_one::{
    abort_rule, border_rule, max_distance, max_grand_distance, reference_rule, relax_all,
    relax_entries, relax_entry, source_state, sweep, sweep_node,
};

verus! {

/// The state of the search: the entries that wait, what is known of the
/// settled nodes, and the record of the search, the last node first.
pub ghost struct SearchState {
    pub heap: Seq<DijkstraNodeState>,
    pub visited: Map<u32, VisitedState>,
    pub order: Seq<(NodeId, (EdgeId, u64))>,
}

/// Whether `state` is the state in which the search from `s0` begins:
/// the source alone is settled, and the targets of its edges wait.
pub open spec fn search_begins<D>(g: &DirectedNetworkGraph<D>, s0: NodeId, state: SearchState) -> bool {
    &&& forall|v: u32| state.visited.contains_key(v) <==> v == s0.0
    &&& source_state(s0, state.visited[s0.0])
    &&& state.heap == relax_all(g, s0, 0, true)
    &&& state.order == Seq::<(NodeId, (EdgeId, u64))>::empty()
}

/// Whether the search goes on from `state`: an active entry waits, and
/// an entry waits for a node that is not settled.
pub open spec fn search_goes_on(state: SearchState) -> bool {
    count_active(state.heap) > 0 && has_live(state.heap, state.visited)
}

/// The border distance that the node with key `k` gets in `state`.
pub open spec fn step_border(s0: NodeId, forward: Seq<u64>, state: SearchState, k: (u64, u32)) -> u64 {
    border_rule(
        s0,
        merge_links(group(state.heap, k)),
        forward[k.1 as int],
        max_border(group(state.heap, k), state.visited),
    )
}

/// The reference distance that the node with key `k` gets in `state`.
pub open spec fn step_reference(
    s0: NodeId,
    forward: Seq<u64>,
    state: SearchState,
    k: (u64, u32),
) -> Option<u64> {
    reference_rule(
        k.0,
        max_reference(group(state.heap, k), state.visited),
        step_border(s0, forward, state, k),
        merge_links(group(state.heap, k)),
        state.visited,
    )
}

/// Whether the search stays active at the node with key `k`.
pub open spec fn step_active(
    s0: NodeId,
    forward: Seq<u64>,
    backward: Seq<u64>,
    state: SearchState,
    k: (u64, u32),
) -> bool {
    any_active(group(state.heap, k)) && !abort_rule(
        step_reference(s0, forward, state, k),
        backward[k.1 as int],
        k.0,
    )
}

/// Whether settling the node with key `k` makes `after` of `before`.
pub open spec fn settles_key<D>(
    g: &DirectedNetworkGraph<D>,
    s0: NodeId,
    forward: Seq<u64>,
    backward: Seq<u64>,
    before: SearchState,
    after: SearchState,
    k: (u64, u32),
) -> bool {
    let merged = group(before.heap, k);
    &&& least_live(before.heap, before.visited, k)
    &&& merged.len() > 0
    &&& after.visited == before.visited.insert(k.1, after.visited[k.1])
    &&& after.visited.contains_key(k.1)
    &&& after.visited[k.1].distance == k.0
    &&& after.visited[k.1].border_distance == step_border(s0, forward, before, k)
    &&& after.visited[k.1].reference_distance == step_reference(s0, forward, before, k)
    &&& after.visited[k.1].parents@ == merge_links(merged)
    &&& after.heap == kept(before.heap, k) + relax_all(
        g,
        NodeId(k.1),
        k.0,
        step_active(s0, forward, backward, before, k),
    )
    &&& after.order == seq![(NodeId(k.1), (merged.last().parent.parent_edge, k.0))] + before.order
}

/// Whether one step of the search makes `after` of `before`.
pub open spec fn settles<D>(
    g: &DirectedNetworkGraph<D>,
    s0: NodeId,
    forward: Seq<u64>,
    backward: Seq<u64>,
    before: SearchState,
    after: SearchState,
) -> bool {
    exists|k: (u64, u32)| #[trigger] settles_key(g, s0, forward, backward, before, after, k)
}

/// Whether `states` are the states that the search from `s0` goes
/// through, as far as they go.
pub open spec fn search_steps<D>(
    g: &DirectedNetworkGraph<D>,
    s0: NodeId,
    forward: Seq<u64>,
    backward: Seq<u64>,
    states: Seq<SearchState>,
) -> bool {
    &&& states.len() >= 1
    &&& search_begins(g, s0, states[0])
    &&& forall|i: int|
        0 <= i < states.len() - 1 ==> search_goes_on(#[trigger] states[i]) && settles(
            g,
            s0,
            forward,
            backward,
            states[i],
            states[i + 1],
        )
}

/// Whether `order` and `visited` are what the search from `s0` ends
/// with: the search went step by step until it did not go on.
pub open spec fn searched<D>(
    g: &DirectedNetworkGraph<D>,
    s0: NodeId,
    forward: Seq<u64>,
    backward: Seq<u64>,
    order: Seq<(NodeId, (EdgeId, u64))>,
    visited: Map<u32, VisitedState>,
) -> bool {
    exists|states: Seq<SearchState>| #[trigger]
        search_steps(g, s0, forward, backward, states) && !search_goes_on(states.last())
            && states.last().order == order && states.last().visited == visited
}

/// The states go on by one step.
pub proof fn lemma_steps_grow<D>(
    g: &DirectedNetworkGraph<D>,
    s0: NodeId,
    forward: Seq<u64>,
    backward: Seq<u64>,
    states: Seq<SearchState>,
    next: SearchState,
)
    requires
        search_steps(g, s0, forward, backward, states),
        search_goes_on(states.last()),
        settles(g, s0, forward, backward, states.last(), next),
    ensures
        search_steps(g, s0, forward, backward, states.push(next)),
        states.push(next).last() == next,
{
    let longer = states.push(next);
    assert(longer[0] == states[0]);
    assert forall|i: int| 0 <= i < longer.len() - 1 implies search_goes_on(#[trigger] longer[i])
        && settles(g, s0, forward, backward, longer[i], longer[i + 1]) by {
        assert(longer[i] == states[i]);
        if i < states.len() - 1 {
            assert(longer[i + 1] == states[i + 1]);
        } else {
            assert(states[i] == states.last());
            assert(longer[i + 1] == next);
        }
    }
}

/// Whether `a` and `b` know the same of the same nodes: the distance,
/// the border distance, the reference distance and the parent links.
pub open spec fn same_knowledge(a: Map<u32, VisitedState>, b: Map<u32, VisitedState>) -> bool {
    &&& forall|v: u32| a.contains_key(v) == b.contains_key(v)
    &&& forall|v: u32| #[trigger]
        a.contains_key(v) ==> {
            &&& a[v].distance == b[v].distance
            &&& a[v].border_distance == b[v].border_distance
            &&& a[v].reference_distance == b[v].reference_distance
            &&& a[v].parents@ == b[v].parents@
        }
}

/// Whether two states of the search are alike.
pub open spec fn states_agree(a: SearchState, b: SearchState) -> bool {
    a.heap == b.heap && a.order == b.order && same_knowledge(a.visited, b.visited)
}

/// Whether every node that `state` names is settled: the parent of every
/// entry that waits, the parents of every settled node, and the nodes of
/// the record.
pub open spec fn knowledge_closed(state: SearchState) -> bool {
    &&& forall|i: int|
        0 <= i < state.heap.len() ==> state.visited.contains_key(
            (#[trigger] state.heap[i]).parent.parent.0,
        )
    &&& forall|v: u32, a: int|
        state.visited.contains_key(v) && 0 <= a < state.visited[v].parents@.len()
            ==> state.visited.contains_key((#[trigger] state.visited[v].parents@[a]).parent.0)
    &&& forall|i: int|
        0 <= i < state.order.len() ==> state.visited.contains_key((#[trigger] state.order[i]).0.0)
}

/// Every entry that following the records of `node` adds names `node`
/// as its parent.
proof fn lemma_relax_parent<D>(
    g: &DirectedNetworkGraph<D>,
    node: NodeId,
    distance: u64,
    active: bool,
    from: int,
    upto: int,
)
    ensures
        forall|i: int|
            0 <= i < relax_entries(g, node, distance, active, from, upto).len() ==> (
            #[trigger] relax_entries(g, node, distance, active, from, upto)[i]).parent.parent == node,
    decreases upto - from,
{
    if upto > from {
        lemma_relax_parent(g, node, distance, active, from, upto - 1);
        let head = relax_entries(g, node, distance, active, from, upto - 1);
        let all = relax_entries(g, node, distance, active, from, upto);
        assert forall|i: int| 0 <= i < all.len() implies (#[trigger] all[i]).parent.parent == node by {
            if i < head.len() {
                assert(all[i] == head[i]);
            } else {
                assert(all[i] == relax_entry(g, node, distance, active, upto - 1));
            }
        }
    }
}

/// The least key of an entry that waits for a node not yet settled is
/// one key.
proof fn lemma_least_is_one(
    heap: Seq<DijkstraNodeState>,
    visited: Map<u32, VisitedState>,
    a: (u64, u32),
    b: (u64, u32),
)
    requires
        least_live(heap, visited, a),
        least_live(heap, visited, b),
    ensures
        a == b,
{
    let i = choose|i: int| 0 <= i < heap.len() && is_live(visited, #[trigger] heap[i]) && key_of(heap[i]) == a;
    let j = choose|j: int| 0 <= j < heap.len() && is_live(visited, #[trigger] heap[j]) && key_of(heap[j]) == b;
    assert(!key_less(key_of(heap[i]), b));
    assert(!key_less(key_of(heap[j]), a));
}

/// Where the same nodes are settled, the same entries wait for a node
/// that is not.
proof fn lemma_live_agrees(
    heap: Seq<DijkstraNodeState>,
    a: Map<u32, VisitedState>,
    b: Map<u32, VisitedState>,
    k: (u64, u32),
)
    requires
        forall|v: u32| a.contains_key(v) == b.contains_key(v),
    ensures
        has_live(heap, a) == has_live(heap, b),
        least_live(heap, a, k) == least_live(heap, b, k),
{
    assert forall|i: int| 0 <= i < heap.len() implies is_live(a, #[trigger] heap[i]) == is_live(
        b,
        heap[i],
    ) by {}
    if has_live(heap, a) {
        let i = choose|i: int| 0 <= i < heap.len() && is_live(a, #[trigger] heap[i]);
        assert(is_live(b, heap[i]));
    }
    if has_live(heap, b) {
        let i = choose|i: int| 0 <= i < heap.len() && is_live(b, #[trigger] heap[i]);
        assert(is_live(a, heap[i]));
    }
    if least_live(heap, a, k) {
        let i = choose|i: int| 0 <= i < heap.len() && is_live(a, #[trigger] heap[i]) && key_of(heap[i]) == k;
        assert(is_live(b, heap[i]));
        assert forall|i: int| 0 <= i < heap.len() && is_live(b, #[trigger] heap[i]) implies !key_less(
            key_of(heap[i]),
            k,
        ) by {
            assert(is_live(a, heap[i]));
        }
    }
    if least_live(heap, b, k) {
        let i = choose|i: int| 0 <= i < heap.len() && is_live(b, #[trigger] heap[i]) && key_of(heap[i]) == k;
        assert(is_live(a, heap[i]));
        assert forall|i: int| 0 <= i < heap.len() && is_live(a, #[trigger] heap[i]) implies !key_less(
            key_of(heap[i]),
            k,
        ) by {
            assert(is_live(b, heap[i]));
        }
    }
}

/// The largest border distance and the largest reference distance of the
/// parents of some entries go by what is known of those parents.
proof fn lemma_maxima_agree(
    entries: Seq<DijkstraNodeState>,
    a: Map<u32, VisitedState>,
    b: Map<u32, VisitedState>,
)
    requires
        same_knowledge(a, b),
        forall|i: int| 0 <= i < entries.len() ==> a.contains_key((#[trigger] entries[i]).parent.parent.0),
    ensures
        max_border(entries, a) == max_border(entries, b),
        max_reference(entries, a) == max_reference(entries, b),
    decreases entries.len(),
{
    if entries.len() > 0 {
        let head = entries.drop_last();
        assert forall|i: int| 0 <= i < head.len() implies a.contains_key(
            (#[trigger] head[i]).parent.parent.0,
        ) by {
            assert(head[i] == entries[i]);
        }
        lemma_maxima_agree(head, a, b);
        assert(a.contains_key(entries[entries.len() - 1].parent.parent.0));
    }
}

/// The largest distance of the parents named in `links` goes by what is
/// known of those parents.
proof fn lemma_max_distance_agrees(
    links: Seq<ParentLink>,
    a: Map<u32, VisitedState>,
    b: Map<u32, VisitedState>,
)
    requires
        same_knowledge(a, b),
        forall|i: int| 0 <= i < links.len() ==> a.contains_key((#[trigger] links[i]).parent.0),
    ensures
        max_distance(links, a) == max_distance(links, b),
    decreases links.len(),
{
    if links.len() > 0 {
        let head = links.drop_last();
        assert forall|i: int| 0 <= i < head.len() implies a.contains_key((#[trigger] head[i]).parent.0) by {
            assert(head[i] == links[i]);
        }
        lemma_max_distance_agrees(head, a, b);
        assert(a.contains_key(links[links.len() - 1].parent.0));
    }
}

/// The largest distance of the parents of the parents named in `links`
/// goes by what is known of them.
proof fn lemma_max_grand_agrees(
    links: Seq<ParentLink>,
    a: Map<u32, VisitedState>,
    b: Map<u32, VisitedState>,
)
    requires
        same_knowledge(a, b),
        forall|i: int| 0 <= i < links.len() ==> a.contains_key((#[trigger] links[i]).parent.0),
        forall|v: u32, x: int|
            a.contains_key(v) && 0 <= x < a[v].parents@.len() ==> a.contains_key(
                (#[trigger] a[v].parents@[x]).parent.0,
            ),
    ensures
        max_grand_distance(links, a) == max_grand_distance(links, b),
    decreases links.len(),
{
    if links.len() > 0 {
        let head = links.drop_last();
        assert forall|i: int| 0 <= i < head.len() implies a.contains_key((#[trigger] head[i]).parent.0) by {
            assert(head[i] == links[i]);
        }
        lemma_max_grand_agrees(head, a, b);
        let p = links[links.len() - 1].parent.0;
        assert(a.contains_key(p));
        assert(a[p].parents@ == b[p].parents@);
        lemma_max_distance_agrees(a[p].parents@, a, b);
    }
}

/// The entries that wait for one node name settled parents, and so do
/// the links that are merged from them.
proof fn lemma_merged_parents(state: SearchState, k: (u64, u32))
    requires
        knowledge_closed(state),
    ensures
        forall|i: int|
            0 <= i < group(state.heap, k).len() ==> state.visited.contains_key(
                (#[trigger] group(state.heap, k)[i]).parent.parent.0,
            ),
        forall|a: int|
            0 <= a < merge_links(group(state.heap, k)).len() ==> state.visited.contains_key(
                (#[trigger] merge_links(group(state.heap, k))[a]).parent.0,
            ),
{
    let merged = group(state.heap, k);
    lemma_group(state.heap, k);
    lemma_merge_links(merged);
    assert forall|i: int| 0 <= i < merged.len() implies state.visited.contains_key(
        (#[trigger] merged[i]).parent.parent.0,
    ) by {
        let x = choose|x: int| 0 <= x < state.heap.len() && state.heap[x] == merged[i];
        assert(state.visited.contains_key(state.heap[x].parent.parent.0));
    }
    assert forall|a: int| 0 <= a < merge_links(merged).len() implies state.visited.contains_key(
        (#[trigger] merge_links(merged)[a]).parent.0,
    ) by {
        let b = choose|b: int| 0 <= b < merged.len() && merge_links(merged)[a] == link_of(merged[b]);
        assert(state.visited.contains_key(merged[b].parent.parent.0));
    }
}

/// The search begins with every named node settled.
proof fn lemma_begins_closed<D>(g: &DirectedNetworkGraph<D>, s0: NodeId, state: SearchState)
    requires
        search_begins(g, s0, state),
    ensures
        knowledge_closed(state),
{
    let node = g.nodes@[s0.0 as int];
    lemma_relax_parent(g, s0, 0, true, node.start_edge_index as int, node.last_edge_index as int);
    assert forall|v: u32, a: int|
        state.visited.contains_key(v) && 0 <= a < state.visited[v].parents@.len()
            implies state.visited.contains_key((#[trigger] state.visited[v].parents@[a]).parent.0) by {
        assert(v == s0.0);
        assert(state.visited[v].parents@[a] == ParentLink { parent: s0, edge: None, weight: 0 });
    }
}

/// A step of the search leaves every named node settled.
#[verifier::rlimit(40)]
proof fn lemma_step_closed<D>(
    g: &DirectedNetworkGraph<D>,
    s0: NodeId,
    forward: Seq<u64>,
    backward: Seq<u64>,
    before: SearchState,
    after: SearchState,
    k: (u64, u32),
)
    requires
        knowledge_closed(before),
        settles_key(g, s0, forward, backward, before, after, k),
    ensures
        knowledge_closed(after),
{
    let node = g.nodes@[k.1 as int];
    let active = step_active(s0, forward, backward, before, k);
    let added = relax_all(g, NodeId(k.1), k.0, active);
    let stay = kept(before.heap, k);
    lemma_relax_parent(
        g,
        NodeId(k.1),
        k.0,
        active,
        node.start_edge_index as int,
        node.last_edge_index as int,
    );
    lemma_kept(before.heap, k);
    lemma_merged_parents(before, k);
    assert forall|v: u32| before.visited.contains_key(v) implies after.visited.contains_key(v) by {}
    assert forall|i: int| 0 <= i < after.heap.len() implies after.visited.contains_key(
        (#[trigger] after.heap[i]).parent.parent.0,
    ) by {
        if i < stay.len() {
            assert(after.heap[i] == stay[i]);
            let x = choose|x: int| 0 <= x < before.heap.len() && before.heap[x] == stay[i];
            assert(before.visited.contains_key(before.heap[x].parent.parent.0));
        } else {
            assert(after.heap[i] == added[i - stay.len()]);
            assert(added[i - stay.len()].parent.parent == NodeId(k.1));
        }
    }
    assert forall|v: u32, a: int|
        after.visited.contains_key(v) && 0 <= a < after.visited[v].parents@.len()
            implies after.visited.contains_key((#[trigger] after.visited[v].parents@[a]).parent.0) by {
        if v == k.1 {
            assert(before.visited.contains_key(merge_links(group(before.heap, k))[a].parent.0));
        } else {
            assert(before.visited.contains_key(v));
            assert(after.visited[v] == before.visited[v]);
            assert(before.visited.contains_key(before.visited[v].parents@[a].parent.0));
        }
    }
    assert forall|i: int| 0 <= i < after.order.len() implies after.visited.contains_key(
        (#[trigger] after.order[i]).0.0,
    ) by {
        if i > 0 {
            assert(after.order[i] == before.order[i - 1]);
            assert(before.visited.contains_key(before.order[i - 1].0.0));
        }
    }
}

/// A step of the search makes like states of like states.
proof fn lemma_step_agrees<D>(
    g: &DirectedNetworkGraph<D>,
    s0: NodeId,
    forward: Seq<u64>,
    backward: Seq<u64>,
    a: SearchState,
    b: SearchState,
    a_next: SearchState,
    b_next: SearchState,
)
    requires
        states_agree(a, b),
        knowledge_closed(a),
        knowledge_closed(b),
        settles(g, s0, forward, backward, a, a_next),
        settles(g, s0, forward, backward, b, b_next),
    ensures
        states_agree(a_next, b_next),
        knowledge_closed(a_next),
        knowledge_closed(b_next),
{
    let ka = choose|k: (u64, u32)| #[trigger] settles_key(g, s0, forward, backward, a, a_next, k);
    let kb = choose|k: (u64, u32)| #[trigger] settles_key(g, s0, forward, backward, b, b_next, k);
    lemma_live_agrees(a.heap, a.visited, b.visited, kb);
    lemma_least_is_one(a.heap, a.visited, ka, kb);
    let k = ka;
    let merged = group(a.heap, k);
    let links = merge_links(merged);
    lemma_merged_parents(a, k);
    lemma_maxima_agree(merged, a.visited, b.visited);
    lemma_max_grand_agrees(links, a.visited, b.visited);
    assert(step_border(s0, forward, a, k) == step_border(s0, forward, b, k));
    assert(step_reference(s0, forward, a, k) == step_reference(s0, forward, b, k));
    assert(step_active(s0, forward, backward, a, k) == step_active(s0, forward, backward, b, k));
    lemma_step_closed(g, s0, forward, backward, a, a_next, k);
    lemma_step_closed(g, s0, forward, backward, b, b_next, k);
    assert forall|v: u32| a_next.visited.contains_key(v) == b_next.visited.contains_key(v) by {
        assert(a.visited.contains_key(v) == b.visited.contains_key(v));
    }
    assert forall|v: u32| #[trigger] a_next.visited.contains_key(v) implies {
        &&& a_next.visited[v].distance == b_next.visited[v].distance
        &&& a_next.visited[v].border_distance == b_next.visited[v].border_distance
        &&& a_next.visited[v].reference_distance == b_next.visited[v].reference_distance
        &&& a_next.visited[v].parents@ == b_next.visited[v].parents@
    } by {
        if v != k.1 {
            assert(a.visited.contains_key(v));
            assert(a_next.visited[v] == a.visited[v]);
            assert(b_next.visited[v] == b.visited[v]);
        }
    }
}

/// Two searches from one source agree as far as both go.
proof fn lemma_searches_agree<D>(
    g: &DirectedNetworkGraph<D>,
    s0: NodeId,
    forward: Seq<u64>,
    backward: Seq<u64>,
    states_a: Seq<SearchState>,
    states_b: Seq<SearchState>,
    i: int,
)
    requires
        search_steps(g, s0, forward, backward, states_a),
        search_steps(g, s0, forward, backward, states_b),
        0 <= i < states_a.len(),
        i < states_b.len(),
    ensures
        states_agree(states_a[i], states_b[i]),
        knowledge_closed(states_a[i]),
        knowledge_closed(states_b[i]),
    decreases i,
{
    if i == 0 {
        lemma_begins_closed(g, s0, states_a[0]);
        lemma_begins_closed(g, s0, states_b[0]);
        let a = states_a[0].visited;
        let b = states_b[0].visited;
        assert forall|v: u32| a.contains_key(v) == b.contains_key(v) by {}
    } else {
        lemma_searches_agree(g, s0, forward, backward, states_a, states_b, i - 1);
        assert(search_goes_on(states_a[i - 1]) && settles(
            g,
            s0,
            forward,
            backward,
            states_a[i - 1],
            states_a[i - 1 + 1],
        ));
        assert(search_goes_on(states_b[i - 1]) && settles(
            g,
            s0,
            forward,
            backward,
            states_b[i - 1],
            states_b[i - 1 + 1],
        ));
        lemma_step_agrees(
            g,
            s0,
            forward,
            backward,
            states_a[i - 1],
            states_b[i - 1],
            states_a[i],
            states_b[i],
        );
    }
}

/// The search is determined: two searches from one source in one graph,
/// with the same radii, end with the same record and know the same of
/// the same nodes.
pub proof fn lemma_search_is_determined<D>(
    g: &DirectedNetworkGraph<D>,
    s0: NodeId,
    forward: Seq<u64>,
    backward: Seq<u64>,
    order_a: Seq<(NodeId, (EdgeId, u64))>,
    visited_a: Map<u32, VisitedState>,
    order_b: Seq<(NodeId, (EdgeId, u64))>,
    visited_b: Map<u32, VisitedState>,
)
    requires
        searched(g, s0, forward, backward, order_a, visited_a),
        searched(g, s0, forward, backward, order_b, visited_b),
    ensures
        order_a == order_b,
        same_knowledge(visited_a, visited_b),
        forall|i: int| 0 <= i < order_a.len() ==> visited_a.contains_key((#[trigger] order_a[i]).0.0),
{
    let states_a = choose|states: Seq<SearchState>| #[trigger]
        search_steps(g, s0, forward, backward, states) && !search_goes_on(states.last())
            && states.last().order == order_a && states.last().visited == visited_a;
    let states_b = choose|states: Seq<SearchState>| #[trigger]
        search_steps(g, s0, forward, backward, states) && !search_goes_on(states.last())
            && states.last().order == order_b && states.last().visited == visited_b;
    let n = states_a.len() as int;
    let m = states_b.len() as int;
    if n < m {
        lemma_searches_agree(g, s0, forward, backward, states_a, states_b, n - 1);
        assert(search_goes_on(states_b[n - 1]));
        lemma_live_agrees(states_a[n - 1].heap, states_a[n - 1].visited, states_b[n - 1].visited, (0, 0));
        assert(false);
    } else if m < n {
        lemma_searches_agree(g, s0, forward, backward, states_a, states_b, m - 1);
        assert(search_goes_on(states_a[m - 1]));
        lemma_live_agrees(states_a[m - 1].heap, states_a[m - 1].visited, states_b[m - 1].visited, (0, 0));
        assert(false);
    } else {
        lemma_searches_agree(g, s0, forward, backward, states_a, states_b, n - 1);
    }
}

/// The sweep goes by the record of the search and by the parent links of
/// its nodes.
pub proof fn lemma_sweep_agrees(
    order: Seq<(NodeId, (EdgeId, u64))>,
    a: Map<u32, VisitedState>,
    b: Map<u32, VisitedState>,
    source_radius: u64,
    backward: Seq<u64>,
)
    requires
        same_knowledge(a, b),
        forall|i: int| 0 <= i < order.len() ==> a.contains_key((#[trigger] order[i]).0.0),
    ensures
        sweep(order, a, source_radius, backward) == sweep(order, b, source_radius, backward),
    decreases order.len(),
{
    if order.len() > 0 {
        let head = order.drop_last();
        assert forall|i: int| 0 <= i < head.len() implies a.contains_key((#[trigger] head[i]).0.0) by {
            assert(head[i] == order[i]);
        }
        lemma_sweep_agrees(head, a, b, source_radius, backward);
        let item = order.last();
        assert(item == order[order.len() - 1]);
        assert(a.contains_key(item.0.0));
        assert(a[item.0.0].parents@ == b[item.0.0].parents@);
        let state = sweep(head, a, source_radius, backward);
        assert(sweep_node(state, item, a, source_radius, backward) == sweep_node(
            state,
            item,
            b,
            source_radius,
            backward,
        ));
    }
}

/// The edges that a search finds worth keeping are determined: two
/// searches from one source keep the same edges in the same order.
pub proof fn lemma_retained_is_determined<D>(
    g: &DirectedNetworkGraph<D>,
    s0: NodeId,
    forward: Seq<u64>,
    backward: Seq<u64>,
    order_a: Seq<(NodeId, (EdgeId, u64))>,
    visited_a: Map<u32, VisitedState>,
    order_b: Seq<(NodeId, (EdgeId, u64))>,
    visited_b: Map<u32, VisitedState>,
    source_radius: u64,
)
    requires
        searched(g, s0, forward, backward, order_a, visited_a),
        searched(g, s0, forward, backward, order_b, visited_b),
    ensures
        sweep(order_a, visited_a, source_radius, backward) == sweep(
            order_b,
            visited_b,
            source_radius,
            backward,
        ),
{
    lemma_search_is_determined(g, s0, forward, backward, order_a, visited_a, order_b, visited_b);
    lemma_sweep_agrees(order_a, visited_a, visited_b, source_radius, backward);
}

} // verus!
