//! Why each step of the search keeps its invariant.

use vstd::prelude::*;

use crate::direction::EdgeDirection;
use crate::graph::DirectedNetworkGraph;
use crate::ids::NodeId;
use crate::lists::{lemma_list_len, list_ok};
use crate::paths::{
    beyond, connects, is_distance, is_walk, lemma_walk_ends_inside, lemma_walk_step,
    lemma_weight_bound, lemma_weight_nonnegative, walk_end, walk_weight, within,
};
use crate::dijkstra::{
    entry_ok, frontier_ok, heap_has, heap_without, relaxed, search_inv, trail_floor, trail_has,
    trail_ok,
};

verus! {

/// Every walk from `s` that ends at a node not yet settled weighs at least
/// as much as some entry of the heap.
#[verifier::rlimit(40)]
pub proof fn lemma_frontier<D>(
    g: &DirectedNetworkGraph<D>,
    dir: EdgeDirection,
    s: int,
    trail: Seq<(NodeId, u64)>,
    heap: Seq<(u64, u32)>,
    walk: Seq<int>,
)
    requires
        search_inv(g, dir, s, trail, heap),
        is_walk(g, dir, s, walk),
        !trail_has(trail, walk_end(g, s, walk)),
    ensures
        exists|i: int|
            0 <= i < heap.len() && (#[trigger] heap[i]).0 <= walk_weight(g, walk) && !trail_has(
                trail,
                heap[i].1 as int,
            ) && (heap[i].0 == walk_weight(g, walk) ==> heap[i].1 == walk_end(g, s, walk)),
    decreases walk.len(),
{
    if walk.len() == 0 {
        if trail.len() > 0 {
            assert(trail[0].0.0 == s);
            assert(false);
        }
        assert(heap[0].0 == 0 && heap[0].1 == s);
    } else {
        let head = walk.drop_last();
        let j = walk.last();
        let x = walk_end(g, s, head);
        let t = walk_end(g, s, walk);
        lemma_weight_nonnegative(g, head);
        if trail_has(trail, x) {
            let i = choose|i: int| 0 <= i < trail.len() && (#[trigger] trail[i]).0.0 == x;
            assert(relaxed(g, dir, trail, heap, i, g.edge_total()));
            assert(g.arc(dir, trail[i].0.0 as int, j));
            lemma_walk_ends_inside(g, dir, s, head);
            let key = trail[i].1 + g.edges@[j].edge_weight;
            assert(heap_has(heap, key, t));
            let k = choose|k: int|
                0 <= k < heap.len() && (#[trigger] heap[k]).0 == key && heap[k].1 == t;
            assert(connects(g, dir, s, x, head));
            assert(beyond(g, dir, s, x, trail[i].1 as int));
            assert(heap[k].0 <= walk_weight(g, walk) && !trail_has(trail, heap[k].1 as int)
                && heap[k].1 == t);
        } else {
            lemma_frontier(g, dir, s, trail, heap, head);
            let k = choose|k: int|
                0 <= k < heap.len() && (#[trigger] heap[k]).0 <= walk_weight(g, head) && !trail_has(
                    trail,
                    heap[k].1 as int,
                );
            assert(g.arc(dir, x, j));
            assert(g.edges@[j].edge_weight > 0);
            assert(heap[k].0 < walk_weight(g, walk));
        }
    }
}

/// The settled nodes are distinct nodes of the graph, so there are no more
/// of them than the graph has nodes.
pub proof fn lemma_trail_len<D>(
    g: &DirectedNetworkGraph<D>,
    dir: EdgeDirection,
    s: int,
    trail: Seq<(NodeId, u64)>,
)
    requires
        trail_ok(g, dir, s, trail),
    ensures
        trail.len() <= g.node_total(),
{
    let list = trail.map_values(|e: (NodeId, u64)| e.0.0);
    assert forall|i: int, j: int| 0 <= i < list.len() && 0 <= j < list.len() && i != j implies list[i]
        != list[j] by {
        if i < j {
            assert(trail[i].0 != trail[j].0);
        } else {
            assert(trail[j].0 != trail[i].0);
        }
    }
    assert forall|i: int| 0 <= i < list.len() implies (#[trigger] list[i]) < g.node_total() by {
        assert(trail[i].0.0 < g.node_total());
    }
    assert(list_ok(list, g.node_total()));
    lemma_list_len(list, g.node_total());
}

pub proof fn lemma_heap_without(heap: Seq<(u64, u32)>, m: int)
    requires
        0 <= m < heap.len(),
    ensures
        forall|k: int|
            0 <= k < heap_without(heap, m).len() ==> exists|i: int|
                0 <= i < heap.len() && i != m && heap[i] == #[trigger] heap_without(heap, m)[k],
        forall|i: int|
            0 <= i < heap.len() && i != m ==> exists|k: int|
                0 <= k < heap_without(heap, m).len() && heap_without(heap, m)[k] == #[trigger] heap[i],
{
    let rest = heap_without(heap, m);
    assert forall|k: int| 0 <= k < rest.len() implies exists|i: int|
        0 <= i < heap.len() && i != m && heap[i] == #[trigger] rest[k] by {
        if k == m {
            assert(heap[heap.len() - 1] == rest[k]);
        } else {
            assert(heap[k] == rest[k]);
        }
    }
    assert forall|i: int| 0 <= i < heap.len() && i != m implies exists|k: int|
        0 <= k < rest.len() && rest[k] == #[trigger] heap[i] by {
        if i == heap.len() - 1 {
            assert(rest[m] == heap[i]);
        } else {
            assert(rest[i] == heap[i]);
        }
    }
}

/// A stale entry, one of a node that is settled already, can be dropped.
#[verifier::rlimit(40)]
pub proof fn lemma_drop_stale<D>(
    g: &DirectedNetworkGraph<D>,
    dir: EdgeDirection,
    s: int,
    trail: Seq<(NodeId, u64)>,
    heap: Seq<(u64, u32)>,
    m: int,
)
    requires
        search_inv(g, dir, s, trail, heap),
        0 <= m < heap.len(),
        trail_has(trail, heap[m].1 as int),
    ensures
        search_inv(g, dir, s, trail, heap_without(heap, m)),
{
    let rest = heap_without(heap, m);
    lemma_heap_without(heap, m);
    assert forall|k: int| 0 <= k < rest.len() implies entry_ok(g, dir, s, trail, #[trigger] rest[k]) by {
        let i = choose|i: int| 0 <= i < heap.len() && i != m && heap[i] == rest[k];
        assert(entry_ok(g, dir, s, trail, heap[i]));
    }
    assert forall|i: int| 0 <= i < trail.len() implies #[trigger] relaxed(
        g,
        dir,
        trail,
        rest,
        i,
        g.edge_total(),
    ) by {
        assert(relaxed(g, dir, trail, heap, i, g.edge_total()));
        assert forall|j: int|
            j < g.edge_total() && #[trigger] g.arc(dir, trail[i].0.0 as int, j) implies trail_has(
            trail,
            g.edges@[j].target_node.0 as int,
        ) || heap_has(
            rest,
            trail[i].1 + g.edges@[j].edge_weight,
            g.edges@[j].target_node.0 as int,
        ) by {
            let t = g.edges@[j].target_node.0 as int;
            let key = trail[i].1 + g.edges@[j].edge_weight;
            if !trail_has(trail, t) {
                let a = choose|a: int|
                    0 <= a < heap.len() && (#[trigger] heap[a]).0 == key && heap[a].1 == t;
                assert(a != m);
                let k = choose|k: int| 0 <= k < rest.len() && rest[k] == heap[a];
                assert(rest[k].0 == key && rest[k].1 == t);
            }
        }
    }
    if trail.len() == 0 {
        let i = choose|i: int| 0 <= i < trail.len() && (#[trigger] trail[i]).0.0 == heap[m].1;
        assert(false);
    }
}

/// The least entry of the heap, if its node is not settled yet, gives that
/// node its shortest distance, and no node that is not settled lies nearer.
#[verifier::rlimit(40)]
pub proof fn lemma_settle_distance<D>(
    g: &DirectedNetworkGraph<D>,
    dir: EdgeDirection,
    s: int,
    trail: Seq<(NodeId, u64)>,
    heap: Seq<(u64, u32)>,
    m: int,
)
    requires
        search_inv(g, dir, s, trail, heap),
        0 <= m < heap.len(),
        forall|i: int|
            0 <= i < heap.len() && !trail_has(trail, (#[trigger] heap[i]).1 as int) ==> heap[m].0
                < heap[i].0 || (heap[m].0 == heap[i].0 && heap[m].1 <= heap[i].1),
        !trail_has(trail, heap[m].1 as int),
    ensures
        is_distance(g, dir, s, heap[m].1 as int, heap[m].0 as int),
        forall|t: int| !trail_has(trail, t) ==> beyond(g, dir, s, t, heap[m].0 as int),
        forall|t: int|
            !trail_has(trail, t) && #[trigger] within(g, dir, s, t, heap[m].0 as int) ==> heap[m].1
                <= t,
        heap[m].0 <= trail.len() * u32::MAX,
        heap[m].0 >= trail_floor(trail),
        heap[m].1 < g.node_total(),
        trail.len() == 0 ==> heap[m] == (0u64, s as u32),
        exists|walk: Seq<int>|
            connects(g, dir, s, heap[m].1 as int, walk) && walk_weight(g, walk) == heap[m].0
                && walk.len() < trail.len() + 1,
{
    let d = heap[m].0;
    let u = heap[m].1;
    assert(entry_ok(g, dir, s, trail, heap[m]));
    assert forall|t: int| !trail_has(trail, t) implies beyond(g, dir, s, t, d as int) by {
        assert forall|walk: Seq<int>| connects(g, dir, s, t, walk) implies walk_weight(g, walk)
            >= d by {
            lemma_frontier(g, dir, s, trail, heap, walk);
            let i = choose|i: int|
                0 <= i < heap.len() && (#[trigger] heap[i]).0 <= walk_weight(g, walk) && !trail_has(
                    trail,
                    heap[i].1 as int,
                );
            assert(heap[m].0 <= heap[i].0);
        }
    }
    assert forall|t: int|
        !trail_has(trail, t) && #[trigger] within(g, dir, s, t, d as int) implies u <= t by {
        let walk = choose|walk: Seq<int>|
            connects(g, dir, s, t, walk) && walk_weight(g, walk) <= d;
        lemma_frontier(g, dir, s, trail, heap, walk);
        let i = choose|i: int|
            0 <= i < heap.len() && (#[trigger] heap[i]).0 <= walk_weight(g, walk) && !trail_has(
                trail,
                heap[i].1 as int,
            ) && (heap[i].0 == walk_weight(g, walk) ==> heap[i].1 == walk_end(g, s, walk));
        assert(heap[m].0 < heap[i].0 || (heap[m].0 == heap[i].0 && heap[m].1 <= heap[i].1));
    }
    let path = choose|walk: Seq<int>|
        connects(g, dir, s, u as int, walk) && walk_weight(g, walk) == d && walk.len()
            <= trail.len();
    lemma_weight_bound(g, path);
    assert(path.len() * u32::MAX <= trail.len() * u32::MAX) by (nonlinear_arith)
        requires
            path.len() <= trail.len(),
    ;
    assert(within(g, dir, s, u as int, d as int));
    assert(beyond(g, dir, s, u as int, d as int));
}

/// The trail with one more settled node is a trail again.
#[verifier::rlimit(40)]
pub proof fn lemma_settle_trail<D>(
    g: &DirectedNetworkGraph<D>,
    dir: EdgeDirection,
    s: int,
    trail: Seq<(NodeId, u64)>,
    u: u32,
    d: u64,
)
    requires
        trail_ok(g, dir, s, trail),
        !trail_has(trail, u as int),
        u < g.node_total(),
        is_distance(g, dir, s, u as int, d as int),
        d >= trail_floor(trail),
        trail.len() == 0 ==> u == s && d == 0,
        forall|t: int| !trail_has(trail, t) ==> beyond(g, dir, s, t, d as int),
        forall|t: int| !trail_has(trail, t) && #[trigger] within(g, dir, s, t, d as int) ==> u <= t,
    ensures
        trail_ok(g, dir, s, trail.push((NodeId(u), d))),
        trail.len() + 1 <= g.node_total(),
{
    let next = trail.push((NodeId(u), d));
    assert(within(g, dir, s, u as int, d as int));
    assert forall|t: int| !trail_has(next, t) implies #[trigger] beyond(g, dir, s, t, d as int) && (
    within(g, dir, s, t, d as int) ==> u < t) by {
        if trail_has(trail, t) {
            let a = choose|a: int| 0 <= a < trail.len() && (#[trigger] trail[a]).0.0 == t;
            assert(next[a].0.0 == t);
        }
        if t == u {
            assert(next[trail.len() as int].0.0 == u);
        }
    }
    assert(next.last() == (NodeId(u), d));
    assert(frontier_ok(g, dir, s, next, next.last()));
    assert forall|i: int| 0 <= i < next.len() implies (#[trigger] next[i]).0.0 < g.node_total()
        && is_distance(g, dir, s, next[i].0.0 as int, next[i].1 as int) by {
        if i < trail.len() {
            assert(next[i] == trail[i]);
        }
    }
    assert forall|i: int, j: int| 0 <= i < j < next.len() implies (#[trigger] next[i]).0 != (
    #[trigger] next[j]).0 && next[i].1 <= next[j].1 && (next[i].1 == next[j].1 ==> next[i].0.0
        < next[j].0.0) by {
        assert(next[i] == trail[i]);
        if j < trail.len() {
            assert(next[j] == trail[j]);
        } else {
            assert(trail[i].0.0 != u);
            let last = trail[trail.len() - 1];
            assert(frontier_ok(g, dir, s, trail, trail.last()));
            assert(beyond(g, dir, s, u as int, last.1 as int));
            if i < trail.len() - 1 {
                assert(trail[i].1 <= last.1);
                assert(trail[i].1 == last.1 ==> trail[i].0.0 < last.0.0);
            }
            if d == last.1 {
                assert(within(g, dir, s, u as int, last.1 as int));
                assert(last.0.0 < u);
            }
        }
    }
    if trail.len() > 0 {
        assert(next[0] == trail[0]);
    }
    assert(trail_ok(g, dir, s, next));
    lemma_trail_len(g, dir, s, next);
}

/// Once the least entry is taken and its node settled, the invariant holds
/// of the other entries and of the nodes settled before.
#[verifier::rlimit(40)]
pub proof fn lemma_settle_heap<D>(
    g: &DirectedNetworkGraph<D>,
    dir: EdgeDirection,
    s: int,
    trail: Seq<(NodeId, u64)>,
    heap: Seq<(u64, u32)>,
    m: int,
)
    requires
        search_inv(g, dir, s, trail, heap),
        0 <= m < heap.len(),
        forall|i: int| 0 <= i < heap.len() ==> heap[m].0 <= (#[trigger] heap[i]).0,
    ensures
        forall|k: int|
            0 <= k < heap_without(heap, m).len() ==> entry_ok(
                g,
                dir,
                s,
                trail.push((NodeId(heap[m].1), heap[m].0)),
                #[trigger] heap_without(heap, m)[k],
            ),
        forall|i: int|
            0 <= i < trail.len() ==> #[trigger] relaxed(
                g,
                dir,
                trail.push((NodeId(heap[m].1), heap[m].0)),
                heap_without(heap, m),
                i,
                g.edge_total(),
            ),
{
    let d = heap[m].0;
    let u = heap[m].1;
    let next = trail.push((NodeId(u), d));
    let rest = heap_without(heap, m);
    lemma_heap_without(heap, m);
    assert forall|k: int| 0 <= k < rest.len() implies entry_ok(g, dir, s, next, #[trigger] rest[k]) by {
        let i = choose|i: int| 0 <= i < heap.len() && i != m && heap[i] == rest[k];
        assert(entry_ok(g, dir, s, trail, heap[i]));
        assert(heap[m].0 <= heap[i].0);
        lemma_entry_later(g, dir, s, trail, heap[i], NodeId(u), d);
    }
    assert forall|i: int| 0 <= i < trail.len() implies #[trigger] relaxed(
        g,
        dir,
        next,
        rest,
        i,
        g.edge_total(),
    ) by {
        assert(relaxed(g, dir, trail, heap, i, g.edge_total()));
        lemma_settle_heap_one(g, dir, s, trail, heap, m, i);
    }
}

pub proof fn lemma_entry_later<D>(
    g: &DirectedNetworkGraph<D>,
    dir: EdgeDirection,
    s: int,
    trail: Seq<(NodeId, u64)>,
    e: (u64, u32),
    v: NodeId,
    d: u64,
)
    requires
        entry_ok(g, dir, s, trail, e),
        d <= e.0,
    ensures
        entry_ok(g, dir, s, trail.push((v, d)), e),
{
    let next = trail.push((v, d));
    let walk = choose|walk: Seq<int>|
        connects(g, dir, s, e.1 as int, walk) && walk_weight(g, walk) == e.0 && walk.len()
            <= trail.len();
    assert(connects(g, dir, s, e.1 as int, walk) && walk_weight(g, walk) == e.0 && walk.len()
        <= next.len());
    assert(next.last() == (v, d));
}

#[verifier::rlimit(40)]
pub proof fn lemma_settle_heap_one<D>(
    g: &DirectedNetworkGraph<D>,
    dir: EdgeDirection,
    s: int,
    trail: Seq<(NodeId, u64)>,
    heap: Seq<(u64, u32)>,
    m: int,
    i: int,
)
    requires
        0 <= m < heap.len(),
        0 <= i < trail.len(),
        relaxed(g, dir, trail, heap, i, g.edge_total()),
    ensures
        relaxed(
            g,
            dir,
            trail.push((NodeId(heap[m].1), heap[m].0)),
            heap_without(heap, m),
            i,
            g.edge_total(),
        ),
{
    let d = heap[m].0;
    let u = heap[m].1;
    let next = trail.push((NodeId(u), d));
    let rest = heap_without(heap, m);
    lemma_heap_without(heap, m);
    assert(next[i] == trail[i]);
    assert forall|j: int|
        j < g.edge_total() && #[trigger] g.arc(dir, next[i].0.0 as int, j) implies trail_has(
        next,
        g.edges@[j].target_node.0 as int,
    ) || heap_has(
        rest,
        next[i].1 + g.edges@[j].edge_weight,
        g.edges@[j].target_node.0 as int,
    ) by {
        let t = g.edges@[j].target_node.0 as int;
        let key = trail[i].1 + g.edges@[j].edge_weight;
        assert(g.arc(dir, trail[i].0.0 as int, j));
        if trail_has(trail, t) {
            let a = choose|a: int| 0 <= a < trail.len() && (#[trigger] trail[a]).0.0 == t;
            assert(next[a].0.0 == t);
        } else {
            assert(heap_has(heap, key, t));
            let a = choose|a: int|
                0 <= a < heap.len() && (#[trigger] heap[a]).0 == key && heap[a].1 == t;
            if a == m {
                assert(next[trail.len() as int].0.0 == u);
            } else {
                let k = choose|k: int| 0 <= k < rest.len() && rest[k] == heap[a];
                assert(rest[k].0 == key && rest[k].1 == t);
            }
        }
    }
}

/// Once a node is settled, the invariant holds of any part of the heap
/// that lacks no entry other than those of settled nodes, and of the nodes
/// settled before.
#[verifier::rlimit(40)]
pub proof fn lemma_settle_kept<D>(
    g: &DirectedNetworkGraph<D>,
    dir: EdgeDirection,
    s: int,
    trail: Seq<(NodeId, u64)>,
    heap: Seq<(u64, u32)>,
    part: Seq<(u64, u32)>,
    u: u32,
    d: u64,
)
    requires
        search_inv(g, dir, s, trail, heap),
        forall|a: int|
            0 <= a < part.len() ==> d <= (#[trigger] part[a]).0 && exists|i: int|
                0 <= i < heap.len() && heap[i] == part[a],
        forall|i: int|
            0 <= i < heap.len() ==> (#[trigger] heap[i]).1 == u || trail_has(trail, heap[i].1 as int)
                || exists|a: int| 0 <= a < part.len() && part[a] == heap[i],
    ensures
        forall|a: int|
            0 <= a < part.len() ==> entry_ok(g, dir, s, trail.push((NodeId(u), d)), #[trigger] part[a]),
        forall|i: int|
            0 <= i < trail.len() ==> #[trigger] relaxed(
                g,
                dir,
                trail.push((NodeId(u), d)),
                part,
                i,
                g.edge_total(),
            ),
{
    let next = trail.push((NodeId(u), d));
    assert forall|a: int| 0 <= a < part.len() implies entry_ok(g, dir, s, next, #[trigger] part[a]) by {
        let i = choose|i: int| 0 <= i < heap.len() && heap[i] == part[a];
        assert(entry_ok(g, dir, s, trail, heap[i]));
        lemma_entry_later(g, dir, s, trail, heap[i], NodeId(u), d);
    }
    assert forall|i: int| 0 <= i < trail.len() implies #[trigger] relaxed(
        g,
        dir,
        next,
        part,
        i,
        g.edge_total(),
    ) by {
        assert(relaxed(g, dir, trail, heap, i, g.edge_total()));
        assert(next[i] == trail[i]);
        assert forall|j: int|
            j < g.edge_total() && #[trigger] g.arc(dir, next[i].0.0 as int, j) implies trail_has(
            next,
            g.edges@[j].target_node.0 as int,
        ) || heap_has(
            part,
            next[i].1 + g.edges@[j].edge_weight,
            g.edges@[j].target_node.0 as int,
        ) by {
            let t = g.edges@[j].target_node.0 as int;
            let key = trail[i].1 + g.edges@[j].edge_weight;
            assert(g.arc(dir, trail[i].0.0 as int, j));
            if trail_has(trail, t) {
                let a = choose|a: int| 0 <= a < trail.len() && (#[trigger] trail[a]).0.0 == t;
                assert(next[a].0.0 == t);
            } else {
                assert(heap_has(heap, key, t));
                let a = choose|a: int|
                    0 <= a < heap.len() && (#[trigger] heap[a]).0 == key && heap[a].1 == t;
                if t == u {
                    assert(next[trail.len() as int].0.0 == u);
                } else {
                    let b = choose|b: int| 0 <= b < part.len() && part[b] == heap[a];
                    assert(part[b].0 == key && part[b].1 == t);
                }
            }
        }
    }
}

/// Following one more record of the node settled last keeps what holds of
/// the heap and of the records followed before.
#[verifier::rlimit(40)]
pub proof fn lemma_relax_step<D>(
    g: &DirectedNetworkGraph<D>,
    dir: EdgeDirection,
    s: int,
    trail: Seq<(NodeId, u64)>,
    heap: Seq<(u64, u32)>,
    j: int,
    after: Seq<(u64, u32)>,
)
    requires
        g.wf(),
        trail.len() > 0,
        trail_ok(g, dir, s, trail),
        forall|i: int| 0 <= i < heap.len() ==> entry_ok(g, dir, s, trail, #[trigger] heap[i]),
        forall|i: int|
            0 <= i < trail.len() - 1 ==> #[trigger] relaxed(g, dir, trail, heap, i, g.edge_total()),
        relaxed(g, dir, trail, heap, trail.len() - 1, j),
        exists|walk: Seq<int>|
            connects(g, dir, s, trail.last().0.0 as int, walk) && walk_weight(g, walk)
                == trail.last().1 && walk.len() < trail.len(),
        0 <= j < g.edge_total(),
        trail.last().1 + g.edges@[j].edge_weight <= u64::MAX,
        g.arc(dir, trail.last().0.0 as int, j) ==> after == heap.push(
            ((trail.last().1 + g.edges@[j].edge_weight) as u64, g.edges@[j].target_node.0),
        ),
        !g.arc(dir, trail.last().0.0 as int, j) ==> after == heap,
    ensures
        forall|i: int| 0 <= i < after.len() ==> entry_ok(g, dir, s, trail, #[trigger] after[i]),
        forall|i: int|
            0 <= i < trail.len() - 1 ==> #[trigger] relaxed(g, dir, trail, after, i, g.edge_total()),
        relaxed(g, dir, trail, after, trail.len() - 1, j + 1),
{
    let u = trail.last().0.0 as int;
    let d = trail.last().1;
    let e = ((d + g.edges@[j].edge_weight) as u64, g.edges@[j].target_node.0);
    let pushed = g.arc(dir, u, j);
    if pushed {
        let walk = choose|walk: Seq<int>|
            connects(g, dir, s, u, walk) && walk_weight(g, walk) == d && walk.len() < trail.len();
        lemma_walk_step(g, dir, s, walk, j);
        let longer = walk.push(j);
        assert(connects(g, dir, s, e.1 as int, longer) && walk_weight(g, longer) == e.0
            && longer.len() <= trail.len());
        assert(entry_ok(g, dir, s, trail, e));
    }
    assert forall|i: int| 0 <= i < after.len() implies entry_ok(g, dir, s, trail, #[trigger] after[i]) by {
        if i < heap.len() {
            assert(after[i] == heap[i]);
        }
    }
    assert forall|d2: int, v2: int| heap_has(heap, d2, v2) implies heap_has(after, d2, v2) by {
        let a = choose|a: int| 0 <= a < heap.len() && (#[trigger] heap[a]).0 == d2 && heap[a].1 == v2;
        assert(after[a] == heap[a]);
    }
    assert forall|i: int| 0 <= i < trail.len() - 1 implies #[trigger] relaxed(
        g,
        dir,
        trail,
        after,
        i,
        g.edge_total(),
    ) by {
        assert(relaxed(g, dir, trail, heap, i, g.edge_total()));
    }
    assert forall|j2: int|
        j2 < j + 1 && #[trigger] g.arc(dir, trail[trail.len() - 1].0.0 as int, j2) implies trail_has(
        trail,
        g.edges@[j2].target_node.0 as int,
    ) || heap_has(
        after,
        trail[trail.len() - 1].1 + g.edges@[j2].edge_weight,
        g.edges@[j2].target_node.0 as int,
    ) by {
        if j2 == j {
            assert(after[heap.len() as int] == e);
        }
    }
}

} // verus!
