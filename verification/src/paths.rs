//! Walks in a graph, their weights, and shortest distances.
//!
//! A walk is written as the sequence of the edge records it follows. The
//! records are read in the direction of the search: a forward walk follows
//! records tagged forward or bidirectional from the node that stores them to
//! their target, a backward walk follows records tagged backward or
//! bidirectional in the same way.

use vstd::prelude::*;
use crate::direction::EdgeDirection;
use crate::graph::DirectedNetworkGraph;

verus! {

/// The node at which `walk` ends when it starts at `start`.
pub open spec fn walk_end<D>(g: &DirectedNetworkGraph<D>, start: int, walk: Seq<int>) -> int {
    if walk.len() == 0 {
        start
    } else {
        g.edges@[walk.last()].target_node.0 as int
    }
}

/// Whether `walk` can be followed from `start` by a search in direction
/// `dir`.
pub open spec fn is_walk<D>(
    g: &DirectedNetworkGraph<D>,
    dir: EdgeDirection,
    start: int,
    walk: Seq<int>,
) -> bool
    decreases walk.len(),
{
    if walk.len() == 0 {
        0 <= start < g.node_total()
    } else {
        is_walk(g, dir, start, walk.drop_last()) && g.arc(
            dir,
            walk_end(g, start, walk.drop_last()),
            walk.last(),
        )
    }
}

/// The sum of the weights of the records of `walk`.
pub open spec fn walk_weight<D>(g: &DirectedNetworkGraph<D>, walk: Seq<int>) -> int
    decreases walk.len(),
{
    if walk.len() == 0 {
        0
    } else {
        walk_weight(g, walk.drop_last()) + g.edges@[walk.last()].edge_weight
    }
}

/// Whether `walk` leads from `s` to `t`.
pub open spec fn connects<D>(
    g: &DirectedNetworkGraph<D>,
    dir: EdgeDirection,
    s: int,
    t: int,
    walk: Seq<int>,
) -> bool {
    is_walk(g, dir, s, walk) && walk_end(g, s, walk) == t
}

/// Whether some walk leads from `s` to `t`.
pub open spec fn reachable<D>(g: &DirectedNetworkGraph<D>, dir: EdgeDirection, s: int, t: int) -> bool {
    exists|walk: Seq<int>| connects(g, dir, s, t, walk)
}

/// Whether some walk of weight at most `bound` leads from `s` to `t`.
pub open spec fn within<D>(
    g: &DirectedNetworkGraph<D>,
    dir: EdgeDirection,
    s: int,
    t: int,
    bound: int,
) -> bool {
    exists|walk: Seq<int>| connects(g, dir, s, t, walk) && walk_weight(g, walk) <= bound
}

/// Whether every walk from `s` to `t` weighs at least `bound`.
pub open spec fn beyond<D>(
    g: &DirectedNetworkGraph<D>,
    dir: EdgeDirection,
    s: int,
    t: int,
    bound: int,
) -> bool {
    forall|walk: Seq<int>| connects(g, dir, s, t, walk) ==> walk_weight(g, walk) >= bound
}

/// Whether `d` is the weight of a shortest walk from `s` to `t`.
pub open spec fn is_distance<D>(
    g: &DirectedNetworkGraph<D>,
    dir: EdgeDirection,
    s: int,
    t: int,
    d: int,
) -> bool {
    within(g, dir, s, t, d) && beyond(g, dir, s, t, d)
}

/// No walk has a negative weight.
pub proof fn lemma_weight_nonnegative<D>(g: &DirectedNetworkGraph<D>, walk: Seq<int>)
    ensures
        walk_weight(g, walk) >= 0,
    decreases walk.len(),
{
    if walk.len() > 0 {
        lemma_weight_nonnegative(g, walk.drop_last());
    }
}

/// A walk of at least one record has a positive weight.
pub proof fn lemma_walk_positive<D>(
    g: &DirectedNetworkGraph<D>,
    dir: EdgeDirection,
    s: int,
    walk: Seq<int>,
)
    requires
        g.wf(),
        is_walk(g, dir, s, walk),
        walk.len() > 0,
    ensures
        walk_weight(g, walk) > 0,
{
    lemma_weight_nonnegative(g, walk.drop_last());
    assert(g.arc(dir, walk_end(g, s, walk.drop_last()), walk.last()));
}

/// A walk ends at a node of the graph.
pub proof fn lemma_walk_ends_inside<D>(
    g: &DirectedNetworkGraph<D>,
    dir: EdgeDirection,
    s: int,
    walk: Seq<int>,
)
    requires
        g.wf(),
        is_walk(g, dir, s, walk),
    ensures
        0 <= walk_end(g, s, walk) < g.node_total(),
        0 <= s < g.node_total(),
    decreases walk.len(),
{
    if walk.len() > 0 {
        lemma_walk_ends_inside(g, dir, s, walk.drop_last());
    }
}

/// A walk of at most `k` records weighs at most `k` times the largest
/// weight.
pub proof fn lemma_weight_bound<D>(g: &DirectedNetworkGraph<D>, walk: Seq<int>)
    ensures
        walk_weight(g, walk) <= walk.len() * u32::MAX,
    decreases walk.len(),
{
    if walk.len() > 0 {
        lemma_weight_bound(g, walk.drop_last());
        assert(walk.len() * u32::MAX == (walk.len() - 1) * u32::MAX + u32::MAX) by (nonlinear_arith);
    }
}

/// A walk that is followed by one more record of the node at which it ends
/// is a walk again, longer by that record's weight.
pub proof fn lemma_walk_step<D>(
    g: &DirectedNetworkGraph<D>,
    dir: EdgeDirection,
    s: int,
    walk: Seq<int>,
    j: int,
)
    requires
        is_walk(g, dir, s, walk),
        g.arc(dir, walk_end(g, s, walk), j),
    ensures
        is_walk(g, dir, s, walk.push(j)),
        walk_end(g, s, walk.push(j)) == g.edges@[j].target_node.0,
        walk_weight(g, walk.push(j)) == walk_weight(g, walk) + g.edges@[j].edge_weight,
{
    assert(walk.push(j).drop_last() =~= walk);
}

/// Two walks, the second starting where the first ends, make one walk whose
/// weight is the sum of theirs.
pub proof fn lemma_walk_concat<D>(
    g: &DirectedNetworkGraph<D>,
    dir: EdgeDirection,
    s: int,
    first: Seq<int>,
    second: Seq<int>,
)
    requires
        is_walk(g, dir, s, first),
        is_walk(g, dir, walk_end(g, s, first), second),
    ensures
        is_walk(g, dir, s, first + second),
        walk_end(g, s, first + second) == walk_end(g, walk_end(g, s, first), second),
        walk_weight(g, first + second) == walk_weight(g, first) + walk_weight(g, second),
    decreases second.len(),
{
    if second.len() == 0 {
        assert(first + second =~= first);
    } else {
        lemma_walk_concat(g, dir, s, first, second.drop_last());
        assert((first + second).drop_last() =~= first + second.drop_last());
        assert((first + second).last() == second.last());
    }
}

/// The weight of two sequences of records laid end to end is the sum of
/// their weights.
pub proof fn lemma_weight_concat<D>(g: &DirectedNetworkGraph<D>, first: Seq<int>, second: Seq<int>)
    ensures
        walk_weight(g, first + second) == walk_weight(g, first) + walk_weight(g, second),
    decreases second.len(),
{
    if second.len() == 0 {
        assert(first + second =~= first);
    } else {
        lemma_weight_concat(g, first, second.drop_last());
        assert((first + second).drop_last() =~= first + second.drop_last());
        assert((first + second).last() == second.last());
    }
}

/// The shortest distance between two nodes is one number.
pub proof fn lemma_distance_unique<D>(
    g: &DirectedNetworkGraph<D>,
    dir: EdgeDirection,
    s: int,
    t: int,
    d1: int,
    d2: int,
)
    requires
        is_distance(g, dir, s, t, d1),
        is_distance(g, dir, s, t, d2),
    ensures
        d1 == d2,
{
    let w1 = choose|walk: Seq<int>| connects(g, dir, s, t, walk) && walk_weight(g, walk) <= d1;
    let w2 = choose|walk: Seq<int>| connects(g, dir, s, t, walk) && walk_weight(g, walk) <= d2;
    assert(walk_weight(g, w1) >= d2);
    assert(walk_weight(g, w2) >= d1);
}

} // verus!
