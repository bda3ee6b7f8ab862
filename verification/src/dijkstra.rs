//! Best-first search from one node: the nodes that can be reached are
//! settled one by one, nearest first, each at its shortest distance.

use vstd::prelude::*;
use std::collections::HashSet;
use crate::direction::EdgeDirection;
use crate::graph::DirectedNetworkGraph;
use crate::ids::NodeId;

use crate::paths::{beyond, connects, is_distance, reachable, walk_weight, within};

use crate::dijkstra_laws::{
    lemma_drop_stale, lemma_frontier, lemma_relax_step, lemma_settle_distance,
    lemma_settle_heap, lemma_settle_trail, lemma_trail_len,
};

verus! {

broadcast use vstd::std_specs::hash::group_hash_axioms;

/// Whether `heap` holds the entry of node `v` at distance `d`.
pub open spec fn heap_has(heap: Seq<(u64, u32)>, d: int, v: int) -> bool {
    exists|i: int| 0 <= i < heap.len() && (#[trigger] heap[i]).0 == d && heap[i].1 == v
}

/// Whether `trail` holds node `v`.
pub open spec fn trail_has(trail: Seq<(NodeId, u64)>, v: int) -> bool {
    exists|i: int| 0 <= i < trail.len() && (#[trigger] trail[i]).0.0 == v
}

/// The distance of the node that was settled last.
pub open spec fn trail_floor(trail: Seq<(NodeId, u64)>) -> int {
    if trail.len() == 0 {
        0
    } else {
        trail.last().1 as int
    }
}

/// What holds of the settled nodes: each is a node of the graph with its
/// shortest distance from `s`, nearer nodes come first and of equally near
/// nodes the one with the smaller id, `s` itself comes first of all, and
/// no node that is not settled comes before the last.
pub open spec fn trail_ok<D>(
    g: &DirectedNetworkGraph<D>,
    dir: EdgeDirection,
    s: int,
    trail: Seq<(NodeId, u64)>,
) -> bool {
    &&& forall|i: int|
        0 <= i < trail.len() ==> (#[trigger] trail[i]).0.0 < g.node_total() && is_distance(
            g,
            dir,
            s,
            trail[i].0.0 as int,
            trail[i].1 as int,
        )
    &&& forall|i: int, j: int|
        0 <= i < j < trail.len() ==> (#[trigger] trail[i]).0 != (#[trigger] trail[j]).0
            && trail[i].1 <= trail[j].1 && (trail[i].1 == trail[j].1 ==> trail[i].0.0 < trail[j].0.0)
    &&& trail.len() > 0 ==> trail[0] == (NodeId(s as u32), 0u64)
    &&& trail.len() > 0 ==> frontier_ok(g, dir, s, trail, trail.last())
}

/// Whether no node outside `trail` comes before `last`: every walk to such
/// a node weighs at least the distance of `last`, and if one weighs just
/// that, the node has a larger id.
pub open spec fn frontier_ok<D>(
    g: &DirectedNetworkGraph<D>,
    dir: EdgeDirection,
    s: int,
    trail: Seq<(NodeId, u64)>,
    last: (NodeId, u64),
) -> bool {
    forall|t: int|
        !trail_has(trail, t) ==> #[trigger] beyond(g, dir, s, t, last.1 as int) && (within(
            g,
            dir,
            s,
            t,
            last.1 as int,
        ) ==> last.0.0 < t)
}

/// What holds of an entry of the heap: it names a node of the graph, lies
/// no nearer than the node settled last, and is the weight of a walk from
/// `s` that has no more records than nodes are settled.
pub open spec fn entry_ok<D>(
    g: &DirectedNetworkGraph<D>,
    dir: EdgeDirection,
    s: int,
    trail: Seq<(NodeId, u64)>,
    e: (u64, u32),
) -> bool {
    &&& e.1 < g.node_total()
    &&& e.0 >= trail_floor(trail)
    &&& exists|walk: Seq<int>|
        connects(g, dir, s, e.1 as int, walk) && walk_weight(g, walk) == e.0 && walk.len()
            <= trail.len()
}

/// Whether the records below `upto` that leave the `i`-th settled node have
/// been followed: the node at the other end is settled, or waits in the heap
/// at the distance that this record gives it.
pub open spec fn relaxed<D>(
    g: &DirectedNetworkGraph<D>,
    dir: EdgeDirection,
    trail: Seq<(NodeId, u64)>,
    heap: Seq<(u64, u32)>,
    i: int,
    upto: int,
) -> bool {
    forall|j: int|
        j < upto && #[trigger] g.arc(dir, trail[i].0.0 as int, j) ==> trail_has(
            trail,
            g.edges@[j].target_node.0 as int,
        ) || heap_has(
            heap,
            trail[i].1 + g.edges@[j].edge_weight,
            g.edges@[j].target_node.0 as int,
        )
}

/// The invariant of the search between two steps.
pub open spec fn search_inv<D>(
    g: &DirectedNetworkGraph<D>,
    dir: EdgeDirection,
    s: int,
    trail: Seq<(NodeId, u64)>,
    heap: Seq<(u64, u32)>,
) -> bool {
    &&& g.wf()
    &&& 0 <= s < g.node_total()
    &&& trail_ok(g, dir, s, trail)
    &&& forall|i: int| 0 <= i < heap.len() ==> entry_ok(g, dir, s, trail, #[trigger] heap[i])
    &&& forall|i: int|
        0 <= i < trail.len() ==> #[trigger] relaxed(g, dir, trail, heap, i, g.edge_total())
    &&& trail.len() == 0 ==> heap == seq![(0u64, s as u32)]
}

/// The index of a least entry of `heap`, by distance and then by node.
fn min_index(heap: &Vec<(u64, u32)>) -> (m: usize)
    requires
        heap@.len() > 0,
    ensures
        m < heap@.len(),
        forall|i: int|
            0 <= i < heap@.len() ==> heap@[m as int].0 < (#[trigger] heap@[i]).0 || (heap@[m as int].0
                == heap@[i].0 && heap@[m as int].1 <= heap@[i].1),
{
    let mut m: usize = 0;
    let mut i: usize = 1;
    while i < heap.len()
        invariant
            m < heap@.len(),
            1 <= i <= heap@.len(),
            m < i,
            forall|k: int|
                0 <= k < i ==> heap@[m as int].0 < (#[trigger] heap@[k]).0 || (heap@[m as int].0
                    == heap@[k].0 && heap@[m as int].1 <= heap@[k].1),
        decreases heap@.len() - i,
    {
        let a = heap[i];
        let b = heap[m];
        if a.0 < b.0 || (a.0 == b.0 && a.1 < b.1) {
            m = i;
        }
        i += 1;
    }
    m
}

/// `heap` without its entry at `m`, the last entry in its place.
pub open spec fn heap_without(heap: Seq<(u64, u32)>, m: int) -> Seq<(u64, u32)> {
    heap.update(m, heap.last()).drop_last()
}

/// A search that settles the nodes reachable from one node, nearest first.
pub struct DijkstraIterator<'a, D> {
    network: &'a DirectedNetworkGraph<D>,
    direction: EdgeDirection,
    distance: u64,
    start: NodeId,
    visited: HashSet<u32>,
    heap: Vec<(u64, u32)>,
    trail: Ghost<Seq<(NodeId, u64)>>,
}

impl<'a, D> View for DijkstraIterator<'a, D> {
    type V = Seq<(NodeId, u64)>;

    /// The nodes settled so far, each with its distance, in the order in
    /// which they were settled.
    closed spec fn view(&self) -> Seq<(NodeId, u64)> {
        self.trail@
    }
}

impl<'a, D> DijkstraIterator<'a, D> {
    /// The node from which the search started.
    pub closed spec fn source(&self) -> NodeId {
        self.start
    }

    /// The graph that is searched.
    pub closed spec fn graph(&self) -> &DirectedNetworkGraph<D> {
        self.network
    }

    /// The direction in which edge records are followed.
    pub closed spec fn heading(&self) -> EdgeDirection {
        self.direction
    }

    /// The distance of the node that was settled last.
    pub closed spec fn reached(&self) -> u64 {
        self.distance
    }

    /// The distance of the node that was settled last, zero before the
    /// first.
    pub fn distance(&self) -> (r: u64)
        ensures
            r == self.reached(),
    {
        self.distance
    }

    /// The direction in which edge records are followed.
    pub fn direction(&self) -> (r: EdgeDirection)
        ensures
            r == self.heading(),
    {
        self.direction
    }

    /// The invariant of the search.
    pub closed spec fn wf(&self) -> bool {
        &&& search_inv(self.network, self.direction, self.start.0 as int, self.trail@, self.heap@)
        &&& forall|v: u32| self.visited@.contains(v) <==> trail_has(self.trail@, v as int)
        &&& self.distance == trail_floor(self.trail@)
    }

    /// What the invariant says of the nodes settled so far.
    pub proof fn lemma_wf(&self)
        requires
            self.wf(),
        ensures
            self.graph().wf(),
            self.source().0 < self.graph().node_total(),
            trail_ok(self.graph(), self.heading(), self.source().0 as int, self@),
            self.reached() == trail_floor(self@),
            self@.len() <= self.graph().node_total(),
    {
        lemma_trail_len(self.network, self.direction, self.start.0 as int, self.trail@);
    }

    /// The search from `start` in `network`, before its first step.
    pub fn new(network: &'a DirectedNetworkGraph<D>, start: NodeId, direction: EdgeDirection) -> (r:
        Self)
        requires
            network.wf(),
            start.0 < network.node_total(),
        ensures
            r.wf(),
            r.graph() == network,
            r.heading() == direction,
            r.source() == start,
            r@ == Seq::<(NodeId, u64)>::empty(),
    {
        let mut heap: Vec<(u64, u32)> = Vec::new();
        heap.push((0, start.0));
        let r = Self {
            network,
            direction,
            distance: 0,
            start,
            visited: HashSet::new(),
            heap,
            trail: Ghost(Seq::empty()),
        };
        proof {
            let walk = Seq::<int>::empty();
            assert(connects(network, direction, start.0 as int, start.0 as int, walk));
            assert(walk_weight(network, walk) == 0);
            assert(r.heap@ =~= seq![(0u64, start.0)]);
            assert(entry_ok(network, direction, start.0 as int, r.trail@, r.heap@[0]));
        }
        r
    }

    /// Settles the nearest node that is not settled yet and returns it with
    /// its distance, or returns `None` when every node that can be reached
    /// is settled.
    #[verifier::rlimit(40)]
    pub fn next(&mut self) -> (r: Option<(NodeId, u64)>)
        requires
            old(self).wf(),
        ensures
            final(self).wf(),
            final(self).graph() == old(self).graph(),
            final(self).heading() == old(self).heading(),
            final(self).source() == old(self).source(),
            match r {
                Some(item) => {
                    &&& final(self)@ == old(self)@.push(item)
                    &&& final(self).reached() == item.1
                    &&& !trail_has(old(self)@, item.0.0 as int)
                    &&& is_distance(
                        old(self).graph(),
                        old(self).heading(),
                        old(self).source().0 as int,
                        item.0.0 as int,
                        item.1 as int,
                    )
                    &&& forall|t: int|
                        !trail_has(old(self)@, t) ==> beyond(
                            old(self).graph(),
                            old(self).heading(),
                            old(self).source().0 as int,
                            t,
                            item.1 as int,
                        )
                    &&& forall|t: int|
                        !trail_has(old(self)@, t) && #[trigger] within(
                            old(self).graph(),
                            old(self).heading(),
                            old(self).source().0 as int,
                            t,
                            item.1 as int,
                        ) ==> item.0.0 <= t
                },
                None => {
                    &&& final(self)@ == old(self)@
                    &&& final(self).reached() == old(self).reached()
                    &&& forall|t: int|
                        reachable(
                            old(self).graph(),
                            old(self).heading(),
                            old(self).source().0 as int,
                            t,
                        ) ==> trail_has(old(self)@, t)
                },
            },
    {
        let ghost g = self.network;
        let ghost dir = self.direction;
        let ghost s = self.start.0 as int;
        let ghost t0 = self.trail@;
        while self.heap.len() > 0
            invariant
                self.wf(),
                self.network == g,
                self.direction == dir,
                self.start.0 == s,
                self.start == old(self).start,
                g == old(self).network,
                dir == old(self).direction,
                self.trail@ == t0,
                t0 == old(self).trail@,
                self.distance == old(self).distance,
            decreases self.heap@.len(),
        {
            let ghost h0 = self.heap@;
            let m = min_index(&self.heap);
            let (d, u) = self.heap.swap_remove(m);
            if self.visited.contains(&u) {
                proof {
                    lemma_drop_stale(g, dir, s, t0, h0, m as int);
                }
                continue ;
            }
            proof {
                assert(h0[m as int] == (d, u));
                assert(self.heap@ == heap_without(h0, m as int));
                assert forall|i: int| 0 <= i < h0.len() implies h0[m as int].0 <= (#[trigger] h0[i]).0 by {}
                assert(!trail_has(t0, u as int));
                assert forall|i: int|
                    0 <= i < h0.len() && !trail_has(t0, (#[trigger] h0[i]).1 as int) implies h0[m as int].0
                    < h0[i].0 || (h0[m as int].0 == h0[i].0 && h0[m as int].1 <= h0[i].1) by {}
                lemma_settle_distance(g, dir, s, t0, h0, m as int);
                lemma_settle_trail(g, dir, s, t0, u, d);
                lemma_settle_heap(g, dir, s, t0, h0, m as int);
            }
            let ghost t1 = t0.push((NodeId(u), d));
            self.visited.insert(u);
            self.trail = Ghost(t1);
            self.distance = d;
            proof {
                assert forall|v: u32| self.visited@.contains(v) <==> trail_has(t1, v as int) by {
                    if trail_has(t0, v as int) {
                        let a = choose|a: int| 0 <= a < t0.len() && (#[trigger] t0[a]).0.0 == v;
                        assert(t1[a].0.0 == v);
                    }
                    if trail_has(t1, v as int) && v != u {
                        let a = choose|a: int| 0 <= a < t1.len() && (#[trigger] t1[a]).0.0 == v;
                        assert(t0[a].0.0 == v);
                    }
                    assert(t1[t0.len() as int].0.0 == u);
                }
                assert(t1.len() - 1 == t0.len());
                assert forall|j2: int|
                    j2 < 0 && #[trigger] g.arc(dir, t1[t1.len() - 1].0.0 as int, j2) implies false by {}
            }
            let node = self.network.nodes[u as usize];
            let mut j: u32 = node.start_edge_index;
            while j < node.last_edge_index
                invariant
                    g.wf(),
                    self.network == g,
                    self.direction == dir,
                    self.start.0 == s,
                    self.start == old(self).start,
                    g == old(self).network,
                    dir == old(self).direction,
                    0 <= s < g.node_total(),
                    self.trail@ == t1,
                    t1 == t0.push((NodeId(u), d)),
                    self.distance == d,
                    u < g.node_total(),
                    node == g.nodes@[u as int],
                    node.start_edge_index <= j <= node.last_edge_index,
                    d <= t0.len() * u32::MAX,
                    t0.len() + 1 <= g.node_total(),
                    trail_ok(g, dir, s, t1),
                    forall|v: u32| self.visited@.contains(v) <==> trail_has(t1, v as int),
                    forall|i: int|
                        0 <= i < self.heap@.len() ==> entry_ok(g, dir, s, t1, #[trigger] self.heap@[i]),
                    forall|i: int|
                        0 <= i < t1.len() - 1 ==> #[trigger] relaxed(
                            g,
                            dir,
                            t1,
                            self.heap@,
                            i,
                            g.edge_total(),
                        ),
                    relaxed(g, dir, t1, self.heap@, t1.len() - 1, j as int),
                    exists|walk: Seq<int>|
                        connects(g, dir, s, u as int, walk) && walk_weight(g, walk) == d
                            && walk.len() < t1.len(),
                    is_distance(g, dir, s, u as int, d as int),
                    !trail_has(t0, u as int),
                    forall|t: int| !trail_has(t0, t) ==> beyond(g, dir, s, t, d as int),
                    forall|t: int|
                        !trail_has(t0, t) && #[trigger] within(g, dir, s, t, d as int) ==> u <= t,
                decreases node.last_edge_index - j,
            {
                let edge = self.network.edges[j as usize];
                let ghost before = self.heap@;
                assert(d + edge.edge_weight <= u64::MAX) by (nonlinear_arith)
                    requires
                        d <= t0.len() * u32::MAX,
                        t0.len() + 1 <= u32::MAX,
                        edge.edge_weight <= u32::MAX,
                ;
                let follow = edge.direction.matches_search(self.direction);
                if follow {
                    self.heap.push((d + edge.edge_weight as u64, edge.target_node.0));
                }
                proof {
                    assert(t1.last() == (NodeId(u), d));
                    assert(edge == g.edges@[j as int]);
                    assert(follow == g.arc(dir, u as int, j as int));
                    lemma_relax_step(g, dir, s, t1, before, j as int, self.heap@);
                }
                j += 1;
            }
            proof {
                assert forall|j2: int|
                    j2 < g.edge_total() && #[trigger] g.arc(
                        dir,
                        t1[t1.len() - 1].0.0 as int,
                        j2,
                    ) implies j2 < j by {}
                assert(relaxed(g, dir, t1, self.heap@, t1.len() - 1, g.edge_total()));
                assert forall|t: int| !trail_has(t0, t) implies beyond(g, dir, s, t, d as int) by {}
                assert forall|t: int|
                    !trail_has(t0, t) && #[trigger] within(g, dir, s, t, d as int) implies u <= t by {}
            }
            return Some((NodeId(u), d));
        }
        proof {
            assert forall|t: int| reachable(g, dir, s, t) implies trail_has(t0, t) by {
                if !trail_has(t0, t) {
                    let walk = choose|walk: Seq<int>| connects(g, dir, s, t, walk);
                    lemma_frontier(g, dir, s, t0, self.heap@, walk);
                }
            }
        }
        None
    }
}

impl<'a, D> DijkstraIterator<'a, D> {
    /// Runs the search to its end and returns every node that it settles
    /// from here on, each with its distance, in the order of settling.
    pub fn collect(self) -> (r: Vec<(NodeId, u64)>)
        requires
            self.wf(),
        ensures
            trail_ok(self.graph(), self.heading(), self.source().0 as int, self@ + r@),
            forall|t: int|
                reachable(self.graph(), self.heading(), self.source().0 as int, t) ==> trail_has(
                    self@ + r@,
                    t,
                ),
    {
        let mut search = self;
        let mut out: Vec<(NodeId, u64)> = Vec::new();
        proof {
            assert(self@ + out@ =~= self@);
        }
        loop
            invariant_except_break
                search.wf(),
                search.graph() == self.graph(),
                search.heading() == self.heading(),
                search.source() == self.source(),
                search@ == self@ + out@,
            ensures
                search@ == self@ + out@,
                search.wf(),
                search.graph() == self.graph(),
                search.heading() == self.heading(),
                search.source() == self.source(),
                forall|t: int|
                    reachable(self.graph(), self.heading(), self.source().0 as int, t)
                        ==> trail_has(search@, t),
            decreases search.graph().node_total() - search@.len(),
        {
            proof {
                search.lemma_wf();
            }
            let ghost before = search@;
            match search.next() {
                Some(item) => {
                    out.push(item);
                    proof {
                        search.lemma_wf();
                        assert(search@ =~= self@ + out@);
                    }
                },
                None => {
                    break ;
                },
            }
        }
        proof {
            search.lemma_wf();
        }
        out
    }
}

impl<D> DirectedNetworkGraph<D> {
    /// The search along outgoing edges from `node`.
    pub fn forward_iterator(&self, node: NodeId) -> (r: DijkstraIterator<'_, D>)
        requires
            self.wf(),
            node.0 < self.node_total(),
        ensures
            r.wf(),
            r.graph() == self,
            r.heading() == EdgeDirection::Forward,
            r.source() == node,
            r@ == Seq::<(NodeId, u64)>::empty(),
    {
        DijkstraIterator::new(self, node, EdgeDirection::Forward)
    }

    /// The search along incoming edges from `node`.
    pub fn backward_iterator(&self, node: NodeId) -> (r: DijkstraIterator<'_, D>)
        requires
            self.wf(),
            node.0 < self.node_total(),
        ensures
            r.wf(),
            r.graph() == self,
            r.heading() == EdgeDirection::Backward,
            r.source() == node,
            r@ == Seq::<(NodeId, u64)>::empty(),
    {
        DijkstraIterator::new(self, node, EdgeDirection::Backward)
    }
}

/// A search run to its end has settled exactly the nodes that can be
/// reached, each once, at its shortest distance, and nearer nodes first.
pub proof fn lemma_search_settles_reachable<D>(
    g: &DirectedNetworkGraph<D>,
    dir: EdgeDirection,
    s: int,
    trail: Seq<(NodeId, u64)>,
    t: int,
)
    requires
        trail_ok(g, dir, s, trail),
        forall|x: int| reachable(g, dir, s, x) ==> trail_has(trail, x),
    ensures
        trail_has(trail, t) <==> reachable(g, dir, s, t),
        forall|i: int, j: int|
            0 <= i < trail.len() && 0 <= j < trail.len() && trail[i].0 == trail[j].0 ==> i == j,
        forall|i: int, j: int| 0 <= i <= j < trail.len() ==> trail[i].1 <= trail[j].1,
        forall|i: int|
            0 <= i < trail.len() ==> is_distance(
                g,
                dir,
                s,
                (#[trigger] trail[i]).0.0 as int,
                trail[i].1 as int,
            ),
{
    if trail_has(trail, t) {
        let i = choose|i: int| 0 <= i < trail.len() && (#[trigger] trail[i]).0.0 == t;
        assert(is_distance(g, dir, s, t, trail[i].1 as int));
        let walk = choose|walk: Seq<int>|
            connects(g, dir, s, t, walk) && walk_weight(g, walk) <= trail[i].1;
        assert(connects(g, dir, s, t, walk));
    }
    assert forall|i: int, j: int|
        0 <= i < trail.len() && 0 <= j < trail.len() && trail[i].0 == trail[j].0 implies i
        == j by {
        if i < j {
            assert(trail[i].0 != trail[j].0);
        }
        if j < i {
            assert(trail[j].0 != trail[i].0);
        }
    }
}

/// Every node that a search may settle comes at or after the `i`-th node
/// of its trail, unless it is one of the nodes before.
proof fn lemma_trail_is_least<D>(
    g: &DirectedNetworkGraph<D>,
    dir: EdgeDirection,
    s: int,
    trail: Seq<(NodeId, u64)>,
    i: int,
    u: int,
    d: int,
)
    requires
        trail_ok(g, dir, s, trail),
        0 <= i < trail.len(),
        is_distance(g, dir, s, u, d),
        forall|k: int| 0 <= k < i ==> (#[trigger] trail[k]).0.0 != u,
    ensures
        trail[i].1 < d || (trail[i].1 == d && trail[i].0.0 <= u),
{
    let last = trail[trail.len() - 1];
    if trail_has(trail, u) {
        let j = choose|j: int| 0 <= j < trail.len() && (#[trigger] trail[j]).0.0 == u;
        assert(is_distance(g, dir, s, trail[j].0.0 as int, trail[j].1 as int));
        crate::paths::lemma_distance_unique(g, dir, s, u, d, trail[j].1 as int);
        if i < j {
            assert(trail[i].1 <= trail[j].1);
        }
    } else {
        assert(frontier_ok(g, dir, s, trail, trail.last()));
        assert(beyond(g, dir, s, u, last.1 as int));
        let walk = choose|walk: Seq<int>| connects(g, dir, s, u, walk) && walk_weight(g, walk) <= d;
        assert(walk_weight(g, walk) >= last.1);
        if d == last.1 {
            assert(within(g, dir, s, u, last.1 as int));
        }
        if i < trail.len() - 1 {
            assert(trail[i].1 <= last.1);
        }
    }
}

/// The order of settling is one: two searches from the same node in the
/// same graph and direction settle the same nodes in the same order, as
/// far as both have come.
pub proof fn lemma_settle_order_unique<D>(
    g: &DirectedNetworkGraph<D>,
    dir: EdgeDirection,
    s: int,
    a: Seq<(NodeId, u64)>,
    b: Seq<(NodeId, u64)>,
    i: int,
)
    requires
        trail_ok(g, dir, s, a),
        trail_ok(g, dir, s, b),
        0 <= i < a.len(),
        i < b.len(),
    ensures
        a[i] == b[i],
    decreases i,
{
    assert forall|k: int| 0 <= k < i implies a[k] == b[k] by {
        lemma_settle_order_unique(g, dir, s, a, b, k);
    }
    assert forall|k: int| 0 <= k < i implies (#[trigger] b[k]).0.0 != a[i].0.0 by {
        assert(a[k] == b[k]);
        assert(a[k].0 != a[i].0);
    }
    assert forall|k: int| 0 <= k < i implies (#[trigger] a[k]).0.0 != b[i].0.0 by {
        assert(a[k] == b[k]);
        assert(b[k].0 != b[i].0);
    }
    assert(is_distance(g, dir, s, a[i].0.0 as int, a[i].1 as int));
    assert(is_distance(g, dir, s, b[i].0.0 as int, b[i].1 as int));
    lemma_trail_is_least(g, dir, s, b, i, a[i].0.0 as int, a[i].1 as int);
    lemma_trail_is_least(g, dir, s, a, i, b[i].0.0 as int, b[i].1 as int);
}

/// Two searches that have run to their end have settled the same nodes in
/// the same order.
pub proof fn lemma_full_settle_order_unique<D>(
    g: &DirectedNetworkGraph<D>,
    dir: EdgeDirection,
    s: int,
    a: Seq<(NodeId, u64)>,
    b: Seq<(NodeId, u64)>,
)
    requires
        trail_ok(g, dir, s, a),
        trail_ok(g, dir, s, b),
        forall|t: int| reachable(g, dir, s, t) ==> trail_has(a, t),
        forall|t: int| reachable(g, dir, s, t) ==> trail_has(b, t),
    ensures
        a == b,
{
    assert forall|i: int| 0 <= i < a.len() && i < b.len() implies a[i] == b[i] by {
        lemma_settle_order_unique(g, dir, s, a, b, i);
    }
    if a.len() < b.len() {
        let extra = b[a.len() as int];
        lemma_search_settles_reachable(g, dir, s, b, extra.0.0 as int);
        assert(trail_has(b, extra.0.0 as int));
        assert(trail_has(a, extra.0.0 as int));
        let k = choose|k: int| 0 <= k < a.len() && (#[trigger] a[k]).0.0 == extra.0.0;
        assert(b[k].0 != b[a.len() as int].0);
    }
    if b.len() < a.len() {
        let extra = a[b.len() as int];
        lemma_search_settles_reachable(g, dir, s, a, extra.0.0 as int);
        assert(trail_has(a, extra.0.0 as int));
        assert(trail_has(b, extra.0.0 as int));
        let k = choose|k: int| 0 <= k < b.len() && (#[trigger] b[k]).0.0 == extra.0.0;
        assert(a[k].0 != a[b.len() as int].0);
    }
    assert(a =~= b);
}

} // verus!
