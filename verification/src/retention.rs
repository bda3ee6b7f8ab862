//! Which edges the sweep keeps. The sweep hands every node the least
//! slack that a settled node behind it leaves over, so an edge is kept as
//! soon as some settled node lies farther behind its start, along the
//! parent links, than the backward radius of that node.

use vstd::prelude::*;
use crate::dag::{ParentLink, VisitedState};
use crate::dijkstra::trail_has;
use crate::direction::EdgeDirection;
use crate::graph::DirectedNetworkGraph;
use crate::ids::{EdgeId, NodeId};
use crate::paths::{connects, is_distance, is_walk, lemma_walk_concat, walk_end, walk_weight};
use crate::phase_one::{
    dag_ok, link_ok, link_record, parents_complete, search_outcome, settle_trail, slack_of,
    sweep, sweep_link, sweep_links, sweep_node, tight_parent_known,
};

verus! {

/// The parent link that `step` names: the link at place `step.1` of the
/// node at place `step.0` of `order`.
pub open spec fn step_link(
    order: Seq<(NodeId, (EdgeId, u64))>,
    visited: Map<u32, VisitedState>,
    step: (int, int),
) -> ParentLink {
    visited[order[step.0].0.0].parents@[step.1]
}

/// Whether `steps` climbs along parent links: every step names a node of
/// `order` and one of its parent links, and every step but the first
/// starts at the parent to which the step before leads.
pub open spec fn climbs(
    order: Seq<(NodeId, (EdgeId, u64))>,
    visited: Map<u32, VisitedState>,
    steps: Seq<(int, int)>,
) -> bool {
    &&& forall|j: int|
        0 <= j < steps.len() ==> 0 <= (#[trigger] steps[j]).0 < order.len() && 0 <= steps[j].1
            < visited[order[steps[j].0].0.0].parents@.len()
    &&& forall|j: int|
        #![trigger steps[j]]
        0 <= j < steps.len() - 1 ==> order[steps[j + 1].0].0 == step_link(
            order,
            visited,
            steps[j],
        ).parent
}

/// The weight of the links of `steps` together.
pub open spec fn climb_weight(
    order: Seq<(NodeId, (EdgeId, u64))>,
    visited: Map<u32, VisitedState>,
    steps: Seq<(int, int)>,
) -> int
    decreases steps.len(),
{
    if steps.len() == 0 {
        0
    } else {
        climb_weight(order, visited, steps.drop_last()) + step_link(
            order,
            visited,
            steps.last(),
        ).weight
    }
}

/// Whether `steps` is a climb that ends with an edge into a node at or
/// beyond the distance `source_radius`, and weighs more than the backward
/// radius of the node where it begins.
pub open spec fn far_climb(
    order: Seq<(NodeId, (EdgeId, u64))>,
    visited: Map<u32, VisitedState>,
    source_radius: u64,
    backward: Seq<u64>,
    steps: Seq<(int, int)>,
) -> bool {
    &&& climbs(order, visited, steps)
    &&& steps.len() >= 1
    &&& order[steps.last().0].1.1 >= source_radius
    &&& climb_weight(order, visited, steps) > backward[order[steps[0].0].0.0 as int]
}

/// Whether the edge `pair.1` from the node `pair.0` is the last step of
/// such a climb.
pub open spec fn kept_by_climb(
    order: Seq<(NodeId, (EdgeId, u64))>,
    visited: Map<u32, VisitedState>,
    source_radius: u64,
    backward: Seq<u64>,
    pair: (NodeId, EdgeId),
) -> bool {
    exists|steps: Seq<(int, int)>| #[trigger]
        far_climb(order, visited, source_radius, backward, steps) && step_link(
            order,
            visited,
            steps.last(),
        ).parent == pair.0 && step_link(order, visited, steps.last()).edge == Some(pair.1)
}

/// Whether `steps` is a climb to the node `v` that accounts for the slack
/// `slack`: it ends with an edge from `v` into a node that the sweep does
/// not pass over, and the backward radius of the node where it begins,
/// less its weight, is at most `slack`.
pub open spec fn climb_to(
    order: Seq<(NodeId, (EdgeId, u64))>,
    visited: Map<u32, VisitedState>,
    source_radius: u64,
    backward: Seq<u64>,
    steps: Seq<(int, int)>,
    v: u32,
    slack: int,
) -> bool {
    &&& climbs(order, visited, steps)
    &&& steps.len() >= 1
    &&& order[steps.last().0].1.1 >= source_radius
    &&& step_link(order, visited, steps.last()).parent.0 == v
    &&& slack >= backward[order[steps[0].0].0.0 as int] - climb_weight(order, visited, steps)
}

/// Whether the slack `slack` of the node `v` is accounted for: by the
/// backward radius of `v`, or by a climb to `v`.
pub open spec fn slack_explained(
    order: Seq<(NodeId, (EdgeId, u64))>,
    visited: Map<u32, VisitedState>,
    source_radius: u64,
    backward: Seq<u64>,
    v: u32,
    slack: int,
) -> bool {
    slack >= backward[v as int] || exists|steps: Seq<(int, int)>| #[trigger]
        climb_to(order, visited, source_radius, backward, steps, v, slack)
}

/// Handling the parent links of a node raises no slack, leaves every
/// parent at most the slack of the node less the weight of its link, keeps
/// what was kept, and keeps the edge of every link whose weight the slack
/// of the node does not cover.
#[verifier::rlimit(40)]
proof fn lemma_links_swept(
    state: (Map<u32, int>, Seq<(NodeId, EdgeId)>),
    links: Seq<ParentLink>,
    slack: int,
    backward: Seq<u64>,
)
    ensures
        forall|v: u32|
            slack_of(sweep_links(state, links, slack, backward).0, backward, v) <= #[trigger] slack_of(
                state.0,
                backward,
                v,
            ),
        forall|a: int|
            0 <= a < links.len() ==> slack_of(
                sweep_links(state, links, slack, backward).0,
                backward,
                (#[trigger] links[a]).parent.0,
            ) <= slack - links[a].weight,
        forall|pair: (NodeId, EdgeId)| #[trigger]
            state.1.contains(pair) ==> sweep_links(state, links, slack, backward).1.contains(pair),
        forall|a: int|
            0 <= a < links.len() && slack - (#[trigger] links[a]).weight < 0 && links[a].edge is Some
                ==> sweep_links(state, links, slack, backward).1.contains(
                (links[a].parent, links[a].edge.unwrap()),
            ),
    decreases links.len(),
{
    if links.len() > 0 {
        let head = links.drop_last();
        let link = links.last();
        lemma_links_swept(state, head, slack, backward);
        let mid = sweep_links(state, head, slack, backward);
        let out = sweep_links(state, links, slack, backward);
        assert(out == sweep_link(mid, link, slack, backward));
        assert forall|v: u32| slack_of(out.0, backward, v) <= slack_of(mid.0, backward, v) by {}
        assert forall|v: u32| slack_of(out.0, backward, v) <= #[trigger] slack_of(
            state.0,
            backward,
            v,
        ) by {
            assert(slack_of(out.0, backward, v) <= slack_of(mid.0, backward, v));
        }
        assert forall|pair: (NodeId, EdgeId)| mid.1.contains(pair) implies out.1.contains(pair) by {
            let r = choose|r: int| 0 <= r < mid.1.len() && mid.1[r] == pair;
            assert(out.1[r] == pair);
        }
        assert forall|a: int| 0 <= a < links.len() implies slack_of(
            out.0,
            backward,
            (#[trigger] links[a]).parent.0,
        ) <= slack - links[a].weight by {
            if a < head.len() {
                assert(links[a] == head[a]);
                assert(slack_of(out.0, backward, head[a].parent.0) <= slack_of(
                    mid.0,
                    backward,
                    head[a].parent.0,
                ));
            } else {
                assert(links[a] == link);
            }
        }
        assert forall|a: int|
            0 <= a < links.len() && slack - (#[trigger] links[a]).weight < 0
                && links[a].edge is Some implies out.1.contains(
            (links[a].parent, links[a].edge.unwrap()),
        ) by {
            if a < head.len() {
                assert(links[a] == head[a]);
                assert(mid.1.contains((head[a].parent, head[a].edge.unwrap())));
            } else {
                assert(links[a] == link);
                assert(out.1 == mid.1.push((link.parent, link.edge.unwrap())));
                assert(out.1[mid.1.len() as int] == (link.parent, link.edge.unwrap()));
            }
        }
        assert forall|pair: (NodeId, EdgeId)| #[trigger] state.1.contains(pair) implies out.1.contains(
            pair,
        ) by {
            assert(mid.1.contains(pair));
        }
    }
}

/// What handling one settled node does to the slacks and to the edges
/// that are kept.
#[verifier::rlimit(40)]
proof fn lemma_node_swept(
    state: (Map<u32, int>, Seq<(NodeId, EdgeId)>),
    item: (NodeId, (EdgeId, u64)),
    visited: Map<u32, VisitedState>,
    source_radius: u64,
    backward: Seq<u64>,
)
    ensures
        forall|v: u32|
            slack_of(sweep_node(state, item, visited, source_radius, backward).0, backward, v)
                <= #[trigger] slack_of(state.0, backward, v),
        forall|pair: (NodeId, EdgeId)| #[trigger]
            state.1.contains(pair) ==> sweep_node(
                state,
                item,
                visited,
                source_radius,
                backward,
            ).1.contains(pair),
        item.1.1 >= source_radius ==> forall|a: int|
            0 <= a < visited[item.0.0].parents@.len() ==> {
                let link = #[trigger] visited[item.0.0].parents@[a];
                let left = slack_of(state.0, backward, item.0.0) - link.weight;
                let out = sweep_node(state, item, visited, source_radius, backward);
                &&& slack_of(out.0, backward, link.parent.0) <= left
                &&& left < 0 && link.edge is Some ==> out.1.contains(
                    (link.parent, link.edge.unwrap()),
                )
            },
{
    if item.1.1 >= source_radius {
        let slack = slack_of(state.0, backward, item.0.0);
        let marked = (state.0.insert(item.0.0, slack), state.1);
        let links = visited[item.0.0].parents@;
        lemma_links_swept(marked, links, slack, backward);
        let out = sweep_links(marked, links, slack, backward);
        assert forall|v: u32| slack_of(out.0, backward, v) <= #[trigger] slack_of(
            state.0,
            backward,
            v,
        ) by {
            assert(slack_of(marked.0, backward, v) == slack_of(state.0, backward, v));
        }
        assert forall|pair: (NodeId, EdgeId)| #[trigger] state.1.contains(pair) implies out.1.contains(
            pair,
        ) by {
            assert(marked.1.contains(pair));
        }
    }
}

/// The sweep raises no slack and drops no edge as it goes on: what holds
/// once the first `i` nodes of `order` are handled still bounds the
/// outcome.
#[verifier::rlimit(40)]
proof fn lemma_sweep_grows(
    order: Seq<(NodeId, (EdgeId, u64))>,
    visited: Map<u32, VisitedState>,
    source_radius: u64,
    backward: Seq<u64>,
    i: int,
)
    requires
        0 <= i <= order.len(),
    ensures
        forall|v: u32|
            slack_of(sweep(order, visited, source_radius, backward).0, backward, v)
                <= #[trigger] slack_of(
                sweep(order.subrange(0, i), visited, source_radius, backward).0,
                backward,
                v,
            ),
        forall|pair: (NodeId, EdgeId)| #[trigger]
            sweep(order.subrange(0, i), visited, source_radius, backward).1.contains(pair)
                ==> sweep(order, visited, source_radius, backward).1.contains(pair),
    decreases order.len(),
{
    if i == order.len() {
        assert(order.subrange(0, i) =~= order);
    } else {
        let head = order.drop_last();
        lemma_sweep_grows(head, visited, source_radius, backward, i);
        assert(head.subrange(0, i) =~= order.subrange(0, i));
        let mid = sweep(head, visited, source_radius, backward);
        let first = sweep(order.subrange(0, i), visited, source_radius, backward);
        lemma_node_swept(mid, order.last(), visited, source_radius, backward);
        let out = sweep(order, visited, source_radius, backward);
        assert forall|v: u32| slack_of(out.0, backward, v) <= #[trigger] slack_of(
            first.0,
            backward,
            v,
        ) by {
            assert(slack_of(out.0, backward, v) <= slack_of(mid.0, backward, v));
        }
        assert forall|pair: (NodeId, EdgeId)| #[trigger] first.1.contains(pair) implies out.1.contains(
            pair,
        ) by {
            assert(mid.1.contains(pair));
        }
    }
}

/// The state of the sweep once the node at place `i` is handled, read
/// from the state before.
proof fn lemma_sweep_step(
    order: Seq<(NodeId, (EdgeId, u64))>,
    visited: Map<u32, VisitedState>,
    source_radius: u64,
    backward: Seq<u64>,
    i: int,
)
    requires
        0 <= i < order.len(),
    ensures
        sweep(order.subrange(0, i + 1), visited, source_radius, backward) == sweep_node(
            sweep(order.subrange(0, i), visited, source_radius, backward),
            order[i],
            visited,
            source_radius,
            backward,
        ),
{
    let upto = order.subrange(0, i + 1);
    assert(upto.drop_last() =~= order.subrange(0, i));
    assert(upto.last() == order[i]);
}

/// Whether the nodes of `order` that lie farther from the source come
/// first.
pub open spec fn farthest_first(order: Seq<(NodeId, (EdgeId, u64))>) -> bool {
    forall|a: int, b: int|
        0 <= a < order.len() && 0 <= b < order.len() && (#[trigger] order[a]).1.1 > (
        #[trigger] order[b]).1.1 ==> a < b
}

/// Whether every step of `steps` but the first starts nearer to the
/// source than the step before.
pub open spec fn climbs_nearer(order: Seq<(NodeId, (EdgeId, u64))>, steps: Seq<(int, int)>) -> bool {
    forall|j: int|
        #![trigger steps[j]]
        0 <= j < steps.len() - 1 ==> order[steps[j].0].1.1 > order[steps[j + 1].0].1.1
}

/// When the sweep comes to the node from which the last step of a climb
/// starts, the slack of that node is at most the backward radius of the
/// node where the climb began, less the weight of the steps before the
/// last.
#[verifier::rlimit(40)]
proof fn lemma_climb_slack(
    order: Seq<(NodeId, (EdgeId, u64))>,
    visited: Map<u32, VisitedState>,
    source_radius: u64,
    backward: Seq<u64>,
    steps: Seq<(int, int)>,
)
    requires
        climbs(order, visited, steps),
        steps.len() >= 1,
        farthest_first(order),
        climbs_nearer(order, steps),
        order[steps.last().0].1.1 >= source_radius,
    ensures
        slack_of(
            sweep(order.subrange(0, steps.last().0), visited, source_radius, backward).0,
            backward,
            order[steps.last().0].0.0,
        ) <= backward[order[steps[0].0].0.0 as int] - climb_weight(
            order,
            visited,
            steps.drop_last(),
        ),
    decreases steps.len(),
{
    let top = steps.last();
    let upto = order.subrange(0, top.0);
    if steps.len() == 1 {
        assert(steps.drop_last().len() == 0);
        lemma_sweep_grows(upto, visited, source_radius, backward, 0);
        assert(upto.subrange(0, 0).len() == 0);
        assert(steps[0] == top);
        let none = sweep(upto.subrange(0, 0), visited, source_radius, backward);
        assert(slack_of(none.0, backward, order[top.0].0.0) == backward[order[top.0].0.0 as int]);
    } else {
        let rest = steps.drop_last();
        let below = rest.last();
        assert(below == steps[steps.len() - 2]);
        assert(top == steps[steps.len() - 2 + 1]);
        assert forall|j: int| 0 <= j < rest.len() implies 0 <= (#[trigger] rest[j]).0 < order.len()
            && 0 <= rest[j].1 < visited[order[rest[j].0].0.0].parents@.len() by {
            assert(rest[j] == steps[j]);
        }
        assert forall|j: int|
            #![trigger rest[j]]
            0 <= j < rest.len() - 1 implies order[rest[j + 1].0].0 == step_link(
            order,
            visited,
            rest[j],
        ).parent && order[rest[j].0].1.1 > order[rest[j + 1].0].1.1 by {
            assert(rest[j] == steps[j]);
            assert(rest[j + 1] == steps[j + 1]);
        }
        assert(order[below.0].1.1 > order[top.0].1.1);
        assert(below.0 < top.0);
        lemma_climb_slack(order, visited, source_radius, backward, rest);
        let link = step_link(order, visited, below);
        assert(link.parent == order[top.0].0);
        let before = sweep(order.subrange(0, below.0), visited, source_radius, backward);
        lemma_sweep_step(order, visited, source_radius, backward, below.0);
        lemma_node_swept(before, order[below.0], visited, source_radius, backward);
        let after = sweep(order.subrange(0, below.0 + 1), visited, source_radius, backward);
        assert(visited[order[below.0].0.0].parents@[below.1] == link);
        assert(slack_of(after.0, backward, link.parent.0) <= slack_of(
            before.0,
            backward,
            order[below.0].0.0,
        ) - link.weight);
        lemma_sweep_grows(upto, visited, source_radius, backward, below.0 + 1);
        assert(upto.subrange(0, below.0 + 1) =~= order.subrange(0, below.0 + 1));
        assert(rest[0] == steps[0]);
        assert(climb_weight(order, visited, rest) == climb_weight(
            order,
            visited,
            rest.drop_last(),
        ) + link.weight);
    }
}

/// The sweep keeps the edge of the last step of a climb whose start is
/// not passed over, if the climb weighs more than the backward radius
/// of the node where it began.
proof fn lemma_climb_is_kept(
    order: Seq<(NodeId, (EdgeId, u64))>,
    visited: Map<u32, VisitedState>,
    source_radius: u64,
    backward: Seq<u64>,
    steps: Seq<(int, int)>,
)
    requires
        climbs(order, visited, steps),
        steps.len() >= 1,
        farthest_first(order),
        climbs_nearer(order, steps),
        order[steps.last().0].1.1 >= source_radius,
        step_link(order, visited, steps.last()).edge is Some,
        climb_weight(order, visited, steps) > backward[order[steps[0].0].0.0 as int],
    ensures
        sweep(order, visited, source_radius, backward).1.contains(
            (
                step_link(order, visited, steps.last()).parent,
                step_link(order, visited, steps.last()).edge.unwrap(),
            ),
        ),
{
    let top = steps.last();
    let link = step_link(order, visited, top);
    lemma_climb_slack(order, visited, source_radius, backward, steps);
    let before = sweep(order.subrange(0, top.0), visited, source_radius, backward);
    lemma_sweep_step(order, visited, source_radius, backward, top.0);
    lemma_node_swept(before, order[top.0], visited, source_radius, backward);
    assert(visited[order[top.0].0.0].parents@[top.1] == link);
    let after = sweep(order.subrange(0, top.0 + 1), visited, source_radius, backward);
    assert(after.1.contains((link.parent, link.edge.unwrap())));
    lemma_sweep_grows(order, visited, source_radius, backward, top.0 + 1);
}

/// Where the nodes of a trail are distinct and listed by distance, the
/// record of the search lists the farther nodes first and leaves the
/// source out.
proof fn lemma_record_order(s0: NodeId, order: Seq<(NodeId, (EdgeId, u64))>)
    requires
        forall|i: int, j: int|
            0 <= i < j < settle_trail(s0, order).len() ==> (#[trigger] settle_trail(s0, order)[i]).0
                != (#[trigger] settle_trail(s0, order)[j]).0 && settle_trail(s0, order)[i].1
                <= settle_trail(s0, order)[j].1,
    ensures
        farthest_first(order),
        forall|k: int| 0 <= k < order.len() ==> (#[trigger] order[k]).0 != s0,
{
    let trail = settle_trail(s0, order);
    let n = order.len() as int;
    assert forall|k: int| 0 <= k < n implies (#[trigger] order[k]).0 != s0 by {
        assert(trail[n - k] == (order[k].0, order[k].1.1));
        assert(trail[0] == (s0, 0u64));
        assert(trail[0].0 != trail[n - k].0);
    }
    assert forall|a: int, b: int|
        0 <= a < n && 0 <= b < n && (#[trigger] order[a]).1.1 > (#[trigger] order[b]).1.1 implies a
        < b by {
        assert(trail[n - a] == (order[a].0, order[a].1.1));
        assert(trail[n - b] == (order[b].0, order[b].1.1));
        if a > b {
            assert(trail[n - a].1 <= trail[n - b].1);
        }
    }
}

/// In the outcome of a search, the nodes that lie farther from the source
/// come first, the source is left out, and every node is listed at the
/// distance that the search knows of it.
proof fn lemma_outcome_order<D>(
    g: &DirectedNetworkGraph<D>,
    s0: NodeId,
    order: Seq<(NodeId, (EdgeId, u64))>,
    visited: Map<u32, VisitedState>,
)
    requires
        dag_ok(g, s0, order, visited),
    ensures
        farthest_first(order),
        forall|k: int|
            0 <= k < order.len() ==> (#[trigger] order[k]).0 != s0 && visited.contains_key(
                order[k].0.0,
            ) && visited[order[k].0.0].distance == order[k].1.1,
{
    let trail = settle_trail(s0, order);
    let n = order.len() as int;
    lemma_record_order(s0, order);
    assert forall|k: int| 0 <= k < n implies visited.contains_key((#[trigger] order[k]).0.0)
        && visited[order[k].0.0].distance == order[k].1.1 by {
        assert(trail[n - k] == (order[k].0, order[k].1.1));
        assert(trail_has(trail, order[k].0.0 as int));
        assert(visited[trail[n - k].0.0].distance == trail[n - k].1);
    }
}

/// A climb that ends at the parent of a link goes on with that link.
#[verifier::rlimit(40)]
proof fn lemma_climb_push(
    order: Seq<(NodeId, (EdgeId, u64))>,
    visited: Map<u32, VisitedState>,
    steps: Seq<(int, int)>,
    i: int,
    a: int,
)
    requires
        0 <= i < order.len(),
        0 <= a < visited[order[i].0.0].parents@.len(),
        steps.len() > 0 ==> climbs(order, visited, steps) && step_link(
            order,
            visited,
            steps.last(),
        ).parent == order[i].0,
    ensures
        climbs(order, visited, steps.push((i, a))),
        climb_weight(order, visited, steps.push((i, a))) == climb_weight(order, visited, steps)
            + step_link(order, visited, (i, a)).weight,
        steps.push((i, a)).last() == (i, a),
        steps.push((i, a))[0] == if steps.len() > 0 {
            steps[0]
        } else {
            (i, a)
        },
{
    let next = steps.push((i, a));
    assert(next.drop_last() =~= steps);
    assert forall|j: int| 0 <= j < next.len() implies 0 <= (#[trigger] next[j]).0 < order.len() && 0
        <= next[j].1 < visited[order[next[j].0].0.0].parents@.len() by {
        if j < steps.len() {
            assert(next[j] == steps[j]);
        }
    }
    assert forall|j: int|
        #![trigger next[j]]
        0 <= j < next.len() - 1 implies order[next[j + 1].0].0 == step_link(
        order,
        visited,
        next[j],
    ).parent by {
        assert(next[j] == steps[j]);
        if j + 1 < steps.len() {
            assert(next[j + 1] == steps[j + 1]);
        }
    }
    if steps.len() == 0 {
        assert(climb_weight(order, visited, steps) == 0);
    }
}

/// The slack that a link leaves to its parent is accounted for by a climb
/// that ends with the link.
proof fn lemma_link_explained(
    order: Seq<(NodeId, (EdgeId, u64))>,
    visited: Map<u32, VisitedState>,
    source_radius: u64,
    backward: Seq<u64>,
    i: int,
    a: int,
    slack: int,
) -> (steps: Seq<(int, int)>)
    requires
        0 <= i < order.len(),
        order[i].1.1 >= source_radius,
        0 <= a < visited[order[i].0.0].parents@.len(),
        slack_explained(order, visited, source_radius, backward, order[i].0.0, slack),
    ensures
        steps.len() >= 1,
        steps.last() == (i, a),
        climb_to(
            order,
            visited,
            source_radius,
            backward,
            steps,
            step_link(order, visited, (i, a)).parent.0,
            slack - step_link(order, visited, (i, a)).weight,
        ),
{
    let c = order[i].0.0;
    if slack >= backward[c as int] {
        let none = Seq::<(int, int)>::empty();
        lemma_climb_push(order, visited, none, i, a);
        none.push((i, a))
    } else {
        let below = choose|below: Seq<(int, int)>| #[trigger]
            climb_to(order, visited, source_radius, backward, below, c, slack);
        assert(step_link(order, visited, below.last()).parent == order[i].0);
        lemma_climb_push(order, visited, below, i, a);
        below.push((i, a))
    }
}

/// Handling the first `m` parent links of a node that the sweep does not
/// pass over leaves every slack accounted for, and keeps only last steps
/// of far climbs.
#[verifier::rlimit(40)]
proof fn lemma_links_explained(
    order: Seq<(NodeId, (EdgeId, u64))>,
    visited: Map<u32, VisitedState>,
    source_radius: u64,
    backward: Seq<u64>,
    i: int,
    m: int,
    state: (Map<u32, int>, Seq<(NodeId, EdgeId)>),
    slack: int,
)
    requires
        0 <= i < order.len(),
        order[i].1.1 >= source_radius,
        0 <= m <= visited[order[i].0.0].parents@.len(),
        slack_explained(order, visited, source_radius, backward, order[i].0.0, slack),
        forall|v: u32|
            slack_explained(
                order,
                visited,
                source_radius,
                backward,
                v,
                #[trigger] slack_of(state.0, backward, v),
            ),
        forall|pair: (NodeId, EdgeId)| #[trigger]
            state.1.contains(pair) ==> kept_by_climb(order, visited, source_radius, backward, pair),
    ensures
        ({
            let out = sweep_links(
                state,
                visited[order[i].0.0].parents@.subrange(0, m),
                slack,
                backward,
            );
            &&& forall|v: u32|
                slack_explained(
                    order,
                    visited,
                    source_radius,
                    backward,
                    v,
                    #[trigger] slack_of(out.0, backward, v),
                )
            &&& forall|pair: (NodeId, EdgeId)| #[trigger]
                out.1.contains(pair) ==> kept_by_climb(
                    order,
                    visited,
                    source_radius,
                    backward,
                    pair,
                )
        }),
    decreases m,
{
    let full = visited[order[i].0.0].parents@;
    let links = full.subrange(0, m);
    if m > 0 {
        lemma_links_explained(order, visited, source_radius, backward, i, m - 1, state, slack);
        assert(links.drop_last() =~= full.subrange(0, m - 1));
        let link = links.last();
        assert(link == full[m - 1]);
        assert(link == step_link(order, visited, (i, m - 1)));
        let mid = sweep_links(state, full.subrange(0, m - 1), slack, backward);
        let out = sweep_links(state, links, slack, backward);
        assert(out == sweep_link(mid, link, slack, backward));
        let left = slack - link.weight;
        let steps = lemma_link_explained(order, visited, source_radius, backward, i, m - 1, slack);
        assert(climb_to(order, visited, source_radius, backward, steps, link.parent.0, left));
        assert forall|v: u32|
            slack_explained(
                order,
                visited,
                source_radius,
                backward,
                v,
                #[trigger] slack_of(out.0, backward, v),
            ) by {
            let before = slack_of(mid.0, backward, v);
            assert(slack_explained(order, visited, source_radius, backward, v, before));
            if v == link.parent.0 && left < before {
                assert(slack_of(out.0, backward, v) == left);
            } else {
                assert(slack_of(out.0, backward, v) == before);
            }
        }
        assert forall|pair: (NodeId, EdgeId)| #[trigger] out.1.contains(pair) implies kept_by_climb(
            order,
            visited,
            source_radius,
            backward,
            pair,
        ) by {
            let r = choose|r: int| 0 <= r < out.1.len() && out.1[r] == pair;
            if r < mid.1.len() {
                assert(mid.1[r] == pair);
                assert(mid.1.contains(pair));
            } else {
                assert(left < 0 && link.edge is Some);
                assert(pair == (link.parent, link.edge.unwrap()));
                assert(far_climb(order, visited, source_radius, backward, steps));
            }
        }
    } else {
        assert(links.len() == 0);
    }
}

/// Once the first `i` nodes of `order` are handled, every slack is
/// accounted for, and only last steps of far climbs are kept.
#[verifier::rlimit(40)]
proof fn lemma_sweep_explained(
    order: Seq<(NodeId, (EdgeId, u64))>,
    visited: Map<u32, VisitedState>,
    source_radius: u64,
    backward: Seq<u64>,
    i: int,
)
    requires
        0 <= i <= order.len(),
    ensures
        forall|v: u32|
            slack_explained(
                order,
                visited,
                source_radius,
                backward,
                v,
                #[trigger] slack_of(
                    sweep(order.subrange(0, i), visited, source_radius, backward).0,
                    backward,
                    v,
                ),
            ),
        forall|pair: (NodeId, EdgeId)| #[trigger]
            sweep(order.subrange(0, i), visited, source_radius, backward).1.contains(pair)
                ==> kept_by_climb(order, visited, source_radius, backward, pair),
    decreases i,
{
    if i == 0 {
        assert(order.subrange(0, 0).len() == 0);
    } else {
        lemma_sweep_explained(order, visited, source_radius, backward, i - 1);
        lemma_sweep_step(order, visited, source_radius, backward, i - 1);
        let before = sweep(order.subrange(0, i - 1), visited, source_radius, backward);
        let item = order[i - 1];
        if item.1.1 >= source_radius {
            let slack = slack_of(before.0, backward, item.0.0);
            let marked = (before.0.insert(item.0.0, slack), before.1);
            assert forall|v: u32|
                slack_explained(
                    order,
                    visited,
                    source_radius,
                    backward,
                    v,
                    #[trigger] slack_of(marked.0, backward, v),
                ) by {
                assert(slack_of(marked.0, backward, v) == slack_of(before.0, backward, v));
            }
            let full = visited[item.0.0].parents@;
            lemma_links_explained(
                order,
                visited,
                source_radius,
                backward,
                i - 1,
                full.len() as int,
                marked,
                slack,
            );
            assert(full.subrange(0, full.len() as int) =~= full);
        }
    }
}

/// What the sweep keeps, exactly. In the outcome of the search from `s0`,
/// an edge is kept if and only if it is the last step of a climb along
/// the parent links that enters a node at or beyond the forward radius
/// of `s0` and weighs more than the backward radius of the node where it
/// begins.
pub proof fn lemma_retained_exactly<D>(
    g: &DirectedNetworkGraph<D>,
    s0: NodeId,
    forward: Seq<u64>,
    backward: Seq<u64>,
    order: Seq<(NodeId, (EdgeId, u64))>,
    visited: Map<u32, VisitedState>,
    pair: (NodeId, EdgeId),
)
    requires
        g.wf(),
        s0.0 < forward.len(),
        search_outcome(g, s0, forward, backward, order, visited),
    ensures
        sweep(order, visited, forward[s0.0 as int], backward).1.contains(pair) <==> kept_by_climb(
            order,
            visited,
            forward[s0.0 as int],
            backward,
            pair,
        ),
{
    let radius = forward[s0.0 as int];
    if kept_by_climb(order, visited, radius, backward, pair) {
        let steps = choose|steps: Seq<(int, int)>| #[trigger]
            far_climb(order, visited, radius, backward, steps) && step_link(
                order,
                visited,
                steps.last(),
            ).parent == pair.0 && step_link(order, visited, steps.last()).edge == Some(pair.1);
        lemma_far_edges_are_retained(g, s0, forward, backward, order, visited, steps);
    }
    lemma_sweep_explained(order, visited, radius, backward, order.len() as int);
    assert(order.subrange(0, order.len() as int) =~= order);
}

/// Retention from one source. Take the outcome of the search from `s0`
/// and a climb along its parent links, from any settled node up to an
/// edge that enters a node at or beyond the forward radius of `s0`. If
/// the climb weighs more than the backward radius of the node where it
/// begins, the sweep keeps that edge.
pub proof fn lemma_far_edges_are_retained<D>(
    g: &DirectedNetworkGraph<D>,
    s0: NodeId,
    forward: Seq<u64>,
    backward: Seq<u64>,
    order: Seq<(NodeId, (EdgeId, u64))>,
    visited: Map<u32, VisitedState>,
    steps: Seq<(int, int)>,
)
    requires
        g.wf(),
        s0.0 < forward.len(),
        search_outcome(g, s0, forward, backward, order, visited),
        far_climb(order, visited, forward[s0.0 as int], backward, steps),
    ensures
        step_link(order, visited, steps.last()).edge is Some,
        sweep(order, visited, forward[s0.0 as int], backward).1.contains(
            (
                step_link(order, visited, steps.last()).parent,
                step_link(order, visited, steps.last()).edge.unwrap(),
            ),
        ),
{
    reveal(search_outcome);
    lemma_far_climb_is_kept(g, s0, forward[s0.0 as int], backward, order, visited, steps);
}

/// The same, of any record of a search whose parent links are edges of
/// shortest paths.
#[verifier::rlimit(40)]
proof fn lemma_far_climb_is_kept<D>(
    g: &DirectedNetworkGraph<D>,
    s0: NodeId,
    source_radius: u64,
    backward: Seq<u64>,
    order: Seq<(NodeId, (EdgeId, u64))>,
    visited: Map<u32, VisitedState>,
    steps: Seq<(int, int)>,
)
    requires
        g.wf(),
        dag_ok(g, s0, order, visited),
        far_climb(order, visited, source_radius, backward, steps),
    ensures
        step_link(order, visited, steps.last()).edge is Some,
        sweep(order, visited, source_radius, backward).1.contains(
            (
                step_link(order, visited, steps.last()).parent,
                step_link(order, visited, steps.last()).edge.unwrap(),
            ),
        ),
{
    lemma_outcome_order(g, s0, order, visited);
    assert forall|j: int| 0 <= j < steps.len() implies link_ok(
        g,
        visited,
        order[(#[trigger] steps[j]).0].0.0,
        step_link(order, visited, steps[j]),
    ) by {
        let v = order[steps[j].0].0.0;
        assert(order[steps[j].0].0 != s0);
        assert(visited.contains_key(v));
        assert(link_ok(g, visited, v, visited[v].parents@[steps[j].1]));
    }
    assert forall|j: int|
        #![trigger steps[j]]
        0 <= j < steps.len() - 1 implies order[steps[j].0].1.1 > order[steps[j + 1].0].1.1 by {
        let link = step_link(order, visited, steps[j]);
        assert(link_ok(g, visited, order[steps[j].0].0.0, link));
        assert(order[steps[j + 1].0].0 == link.parent);
        assert(steps[j + 1].0 < order.len());
        assert(visited[order[steps[j + 1].0].0.0].distance == order[steps[j + 1].0].1.1);
        assert(visited[order[steps[j].0].0.0].distance == order[steps[j].0].1.1);
        assert(link.weight > 0);
    }
    assert(link_ok(
        g,
        visited,
        order[steps[steps.len() - 1].0].0.0,
        step_link(order, visited, steps[steps.len() - 1]),
    ));
    lemma_climb_is_kept(order, visited, source_radius, backward, steps);
}

/// A settled node lies at its shortest distance from the source, and is
/// listed in the record of the search unless it is the source.
proof fn lemma_settled_node<D>(
    g: &DirectedNetworkGraph<D>,
    s0: NodeId,
    order: Seq<(NodeId, (EdgeId, u64))>,
    visited: Map<u32, VisitedState>,
    v: u32,
) -> (k: int)
    requires
        dag_ok(g, s0, order, visited),
        visited.contains_key(v),
    ensures
        is_distance(g, EdgeDirection::Forward, s0.0 as int, v as int, visited[v].distance as int),
        v != s0.0 ==> 0 <= k < order.len() && order[k].0.0 == v,
{
    let trail = settle_trail(s0, order);
    assert(trail_has(trail, v as int));
    let i = choose|i: int| 0 <= i < trail.len() && (#[trigger] trail[i]).0.0 == v;
    assert(visited[trail[i].0.0].distance == trail[i].1);
    if i == 0 {
        assert(trail[0] == (s0, 0u64));
        0
    } else {
        assert(trail[i] == (order[order.len() - i].0, order[order.len() - i].1.1));
        order.len() - i
    }
}

/// A walk from a node at distance `da` ends no farther from the source
/// than `da` and its weight together.
proof fn lemma_triangle<D>(
    g: &DirectedNetworkGraph<D>,
    s: int,
    a: int,
    da: int,
    db: int,
    walk: Seq<int>,
)
    requires
        is_distance(g, EdgeDirection::Forward, s, a, da),
        is_walk(g, EdgeDirection::Forward, a, walk),
        is_distance(g, EdgeDirection::Forward, s, walk_end(g, a, walk), db),
    ensures
        db <= da + walk_weight(g, walk),
{
    let first = choose|first: Seq<int>|
        connects(g, EdgeDirection::Forward, s, a, first) && walk_weight(g, first) <= da;
    lemma_walk_concat(g, EdgeDirection::Forward, s, first, walk);
    assert(connects(g, EdgeDirection::Forward, s, walk_end(g, a, walk), first + walk));
}

/// The weight of a climb with one more step in front.
proof fn lemma_climb_weight_prepend(
    order: Seq<(NodeId, (EdgeId, u64))>,
    visited: Map<u32, VisitedState>,
    step: (int, int),
    rest: Seq<(int, int)>,
)
    ensures
        climb_weight(order, visited, seq![step] + rest) == step_link(order, visited, step).weight
            + climb_weight(order, visited, rest),
    decreases rest.len(),
{
    let all = seq![step] + rest;
    if rest.len() == 0 {
        assert(all.drop_last() =~= Seq::<(int, int)>::empty());
        assert(all.last() == step);
        assert(climb_weight(order, visited, all.drop_last()) == 0);
    } else {
        lemma_climb_weight_prepend(order, visited, step, rest.drop_last());
        assert(all.drop_last() =~= seq![step] + rest.drop_last());
        assert(all.last() == rest.last());
    }
}

/// Whether `steps` climbs along the walk `walk` from `p`, last record
/// first: it begins at the end of the walk, ends with a link from `p`
/// into the target of the first record, at the weight of that record, and
/// weighs what the walk weighs.
pub open spec fn climbs_walk<D>(
    g: &DirectedNetworkGraph<D>,
    order: Seq<(NodeId, (EdgeId, u64))>,
    visited: Map<u32, VisitedState>,
    p: int,
    walk: Seq<int>,
    steps: Seq<(int, int)>,
) -> bool {
    &&& climbs(order, visited, steps)
    &&& steps.len() >= 1
    &&& order[steps[0].0].0.0 == walk_end(g, p, walk)
    &&& order[steps.last().0].0 == g.edges@[walk[0]].target_node
    &&& step_link(order, visited, steps.last()).parent.0 == p
    &&& step_link(order, visited, steps.last()).weight == g.edges@[walk[0]].edge_weight
    &&& climb_weight(order, visited, steps) == walk_weight(g, walk)
}

/// A walk between settled nodes that is part of a shortest path from the
/// source is followed by the parent links: a climb leads along it.
#[verifier::rlimit(40)]
proof fn lemma_walk_has_climb<D>(
    g: &DirectedNetworkGraph<D>,
    s0: NodeId,
    order: Seq<(NodeId, (EdgeId, u64))>,
    visited: Map<u32, VisitedState>,
    p: u32,
    walk: Seq<int>,
) -> (steps: Seq<(int, int)>)
    requires
        g.wf(),
        dag_ok(g, s0, order, visited),
        parents_complete(g, s0, visited),
        walk.len() >= 1,
        is_walk(g, EdgeDirection::Forward, p as int, walk),
        visited.contains_key(p),
        forall|k: int|
            0 <= k < walk.len() ==> visited.contains_key(g.edges@[#[trigger] walk[k]].target_node.0),
        visited[p].distance + walk_weight(g, walk) == visited[walk_end(
            g,
            p as int,
            walk,
        ) as u32].distance,
    ensures
        climbs_walk(g, order, visited, p as int, walk, steps),
    decreases walk.len(),
{
    let s = s0.0 as int;
    let head = walk.drop_last();
    let j = walk.last();
    let u = walk_end(g, p as int, head);
    let t = g.edges@[j].target_node.0;
    assert(walk[walk.len() - 1] == j);
    assert(visited.contains_key(t));
    assert(g.arc(EdgeDirection::Forward, u, j));
    if head.len() > 0 {
        assert(head.last() == walk[walk.len() - 2]);
        assert(visited.contains_key(g.edges@[walk[walk.len() - 2]].target_node.0));
    }
    assert(visited.contains_key(u as u32));
    lemma_settled_node(g, s0, order, visited, p);
    lemma_settled_node(g, s0, order, visited, u as u32);
    let kt = lemma_settled_node(g, s0, order, visited, t);
    lemma_triangle(g, s, p as int, visited[p].distance as int, visited[u as u32].distance as int, head);
    let one = seq![j];
    assert(one.drop_last() =~= Seq::<int>::empty());
    assert(is_walk(g, EdgeDirection::Forward, u, one.drop_last()));
    assert(is_walk(g, EdgeDirection::Forward, u, one));
    assert(walk_weight(g, one.drop_last()) == 0);
    assert(walk_weight(g, one) == g.edges@[j].edge_weight);
    lemma_triangle(g, s, u, visited[u as u32].distance as int, visited[t].distance as int, one);
    assert(visited[u as u32].distance + g.edges@[j].edge_weight == visited[t].distance);
    assert(visited[p].distance + walk_weight(g, head) == visited[u as u32].distance);
    assert(g.edges@[j].edge_weight > 0);
    assert(t != s0.0);
    assert(tight_parent_known(g, visited, u as u32, j));
    let links = visited[t].parents@;
    let a = choose|a: int| 0 <= a < links.len() && (#[trigger] links[a]).parent.0 == u as u32;
    assert(link_ok(g, visited, t, visited[t].parents@[a]));
    let step = (kt, a);
    assert(step_link(order, visited, step) == links[a]);
    if head.len() == 0 {
        let steps = seq![step];
        assert(steps.drop_last() =~= Seq::<(int, int)>::empty());
        assert(climb_weight(order, visited, steps.drop_last()) == 0);
        assert(walk[0] == j);
        steps
    } else {
        assert forall|k: int| 0 <= k < head.len() implies visited.contains_key(
            g.edges@[#[trigger] head[k]].target_node.0,
        ) by {
            assert(head[k] == walk[k]);
        }
        let rest = lemma_walk_has_climb(g, s0, order, visited, p, head);
        let steps = seq![step] + rest;
        lemma_climb_weight_prepend(order, visited, step, rest);
        assert forall|m: int| 0 <= m < steps.len() implies 0 <= (#[trigger] steps[m]).0 < order.len()
            && 0 <= steps[m].1 < visited[order[steps[m].0].0.0].parents@.len() by {
            if m > 0 {
                assert(steps[m] == rest[m - 1]);
            }
        }
        assert forall|m: int|
            #![trigger steps[m]]
            0 <= m < steps.len() - 1 implies order[steps[m + 1].0].0 == step_link(
            order,
            visited,
            steps[m],
        ).parent by {
            assert(steps[m + 1] == rest[m]);
            if m > 0 {
                assert(steps[m] == rest[m - 1]);
                assert(rest[m - 1 + 1] == rest[m]);
            } else {
                assert(steps[0] == step);
                assert(order[rest[0].0].0.0 == u);
            }
        }
        assert(steps.last() == rest.last());
        assert(head[0] == walk[0]);
        steps
    }
}

/// Retention covers shortest paths, seen from one source. Take a walk
/// between nodes that the search from `s0` settled, part of a shortest
/// path from `s0`. If its first record enters a node at or beyond the
/// forward radius of `s0`, and the walk weighs more than the backward
/// radius of the node where it ends, the sweep keeps a record that joins
/// the same two nodes as the first record, at the same weight.
pub proof fn lemma_shortest_path_edges_are_kept<D>(
    g: &DirectedNetworkGraph<D>,
    s0: NodeId,
    forward: Seq<u64>,
    backward: Seq<u64>,
    order: Seq<(NodeId, (EdgeId, u64))>,
    visited: Map<u32, VisitedState>,
    p: u32,
    walk: Seq<int>,
) -> (e: EdgeId)
    requires
        g.wf(),
        s0.0 < forward.len(),
        search_outcome(g, s0, forward, backward, order, visited),
        walk.len() >= 1,
        is_walk(g, EdgeDirection::Forward, p as int, walk),
        visited.contains_key(p),
        forall|k: int|
            0 <= k < walk.len() ==> visited.contains_key(g.edges@[#[trigger] walk[k]].target_node.0),
        visited[p].distance + walk_weight(g, walk) == visited[walk_end(
            g,
            p as int,
            walk,
        ) as u32].distance,
        visited[g.edges@[walk[0]].target_node.0].distance >= forward[s0.0 as int],
        walk_weight(g, walk) > backward[walk_end(g, p as int, walk)],
    ensures
        sweep(order, visited, forward[s0.0 as int], backward).1.contains((NodeId(p), e)),
        g.arc(EdgeDirection::Forward, p as int, e.0 as int),
        g.edges@[e.0 as int].target_node == g.edges@[walk[0]].target_node,
        g.edges@[e.0 as int].edge_weight == g.edges@[walk[0]].edge_weight,
{
    reveal(search_outcome);
    lemma_walk_start_is_kept(g, s0, forward[s0.0 as int], backward, order, visited, p, walk)
}

/// The same, of any record of a search whose parent links are the edges
/// of the shortest paths between its nodes.
#[verifier::rlimit(40)]
proof fn lemma_walk_start_is_kept<D>(
    g: &DirectedNetworkGraph<D>,
    s0: NodeId,
    source_radius: u64,
    backward: Seq<u64>,
    order: Seq<(NodeId, (EdgeId, u64))>,
    visited: Map<u32, VisitedState>,
    p: u32,
    walk: Seq<int>,
) -> (e: EdgeId)
    requires
        g.wf(),
        dag_ok(g, s0, order, visited),
        parents_complete(g, s0, visited),
        walk.len() >= 1,
        is_walk(g, EdgeDirection::Forward, p as int, walk),
        visited.contains_key(p),
        forall|k: int|
            0 <= k < walk.len() ==> visited.contains_key(g.edges@[#[trigger] walk[k]].target_node.0),
        visited[p].distance + walk_weight(g, walk) == visited[walk_end(
            g,
            p as int,
            walk,
        ) as u32].distance,
        visited[g.edges@[walk[0]].target_node.0].distance >= source_radius,
        walk_weight(g, walk) > backward[walk_end(g, p as int, walk)],
    ensures
        sweep(order, visited, source_radius, backward).1.contains((NodeId(p), e)),
        g.arc(EdgeDirection::Forward, p as int, e.0 as int),
        g.edges@[e.0 as int].target_node == g.edges@[walk[0]].target_node,
        g.edges@[e.0 as int].edge_weight == g.edges@[walk[0]].edge_weight,
{
    let steps = lemma_walk_has_climb(g, s0, order, visited, p, walk);
    lemma_outcome_order(g, s0, order, visited);
    let top = steps.last();
    let link = step_link(order, visited, top);
    assert(top == steps[steps.len() - 1]);
    assert(visited[order[top.0].0.0].distance == order[top.0].1.1);
    assert(far_climb(order, visited, source_radius, backward, steps));
    lemma_far_climb_is_kept(g, s0, source_radius, backward, order, visited, steps);
    assert(order[top.0].0 != s0);
    assert(link_ok(g, visited, order[top.0].0.0, visited[order[top.0].0.0].parents@[top.1]));
    assert(link.parent == NodeId(p));
    assert(link_record(link) == link.edge.unwrap().0);
    link.edge.unwrap()
}

} // verus!
