//! What the provenance of an intermediate edge says about the graph of the
//! level below: the chain is a walk between the edge's endpoints, and its
//! weight is the weight of the edge.

use vstd::prelude::*;
use crate::direction::EdgeDirection;
use crate::graph::DirectedNetworkGraph;
use crate::ids::NodeId;
use crate::intermediate::{
    bypass_map, edge_key, has_shortcut, key_source, key_target, lemma_edge_key, shortcut_of,
    EdgeView,
};
use crate::paths::{
    connects, lemma_walk_concat, lemma_weight_concat, lemma_weight_nonnegative, walk_weight,
};

verus! {

/// A provenance chain as a sequence of edge records.
pub open spec fn as_records(chain: Seq<u32>) -> Seq<int> {
    chain.map_values(|x: u32| x as int)
}

/// A weight, held at the largest weight that can be written.
pub open spec fn capped(w: int) -> u64 {
    if w > u64::MAX {
        u64::MAX
    } else {
        w as u64
    }
}

/// The weight of `e` is the sum of the weights of the records of its chain.
pub open spec fn conserves_weight<D>(g: &DirectedNetworkGraph<D>, e: EdgeView) -> bool {
    e.weight == capped(walk_weight(g, as_records(e.data.chain())))
}

/// The chain of `e` is a forward walk in `g` from the source of `e` to its
/// target.
pub open spec fn expands_to_walk<D>(g: &DirectedNetworkGraph<D>, e: EdgeView) -> bool {
    connects(
        g,
        EdgeDirection::Forward,
        e.source.0 as int,
        e.target.0 as int,
        as_records(e.data.chain()),
    )
}

/// Every edge of `m` lies under the key of its own endpoints.
pub open spec fn keyed(m: Map<u64, EdgeView>) -> bool {
    forall|k: u64| #[trigger]
        m.contains_key(k) ==> m[k].source == key_source(k) && m[k].target == key_target(k)
}

/// Every edge of `m` conserves weight.
pub open spec fn all_conserve_weight<D>(g: &DirectedNetworkGraph<D>, m: Map<u64, EdgeView>) -> bool {
    forall|k: u64| #[trigger] m.contains_key(k) ==> conserves_weight(g, m[k])
}

/// Every edge of `m` expands to a walk.
pub open spec fn all_expand_to_walks<D>(g: &DirectedNetworkGraph<D>, m: Map<u64, EdgeView>) -> bool {
    forall|k: u64| #[trigger] m.contains_key(k) ==> expands_to_walk(g, m[k])
}

/// Every edge of `m` is passed from its source to its target only.
pub open spec fn all_forward(m: Map<u64, EdgeView>) -> bool {
    forall|k: u64| #[trigger] m.contains_key(k) ==> m[k].direction == EdgeDirection::Forward
}

/// The edge map after the nodes of `order` are bypassed one after another.
pub open spec fn bypass_all(m: Map<u64, EdgeView>, order: Seq<NodeId>) -> Map<u64, EdgeView>
    decreases order.len(),
{
    if order.len() == 0 {
        m
    } else {
        bypass_map(bypass_all(m, order.drop_last()), order.last())
    }
}

proof fn lemma_records_concat(a: Seq<u32>, b: Seq<u32>)
    ensures
        as_records(a + b) == as_records(a) + as_records(b),
{
    assert(as_records(a + b) =~= as_records(a) + as_records(b));
}

/// A shortcut conserves weight if the two edges that it replaces do.
pub proof fn lemma_shortcut_conserves_weight<D>(g: &DirectedNetworkGraph<D>, a: EdgeView, b: EdgeView)
    requires
        conserves_weight(g, a),
        conserves_weight(g, b),
    ensures
        conserves_weight(g, shortcut_of(a, b)),
{
    let ra = as_records(a.data.chain());
    let rb = as_records(b.data.chain());
    lemma_records_concat(a.data.chain(), b.data.chain());
    lemma_weight_concat(g, ra, rb);
    lemma_weight_nonnegative(g, ra);
    lemma_weight_nonnegative(g, rb);
}

/// A shortcut expands to a walk if the two edges that it replaces do and
/// the first ends where the second begins.
pub proof fn lemma_shortcut_expands_to_walk<D>(g: &DirectedNetworkGraph<D>, a: EdgeView, b: EdgeView)
    requires
        expands_to_walk(g, a),
        expands_to_walk(g, b),
        a.target == b.source,
    ensures
        expands_to_walk(g, shortcut_of(a, b)),
{
    let ra = as_records(a.data.chain());
    let rb = as_records(b.data.chain());
    lemma_records_concat(a.data.chain(), b.data.chain());
    lemma_walk_concat(g, EdgeDirection::Forward, a.source.0 as int, ra, rb);
}

/// Bypassing a node leaves every edge under the key of its endpoints.
pub proof fn lemma_bypass_keeps_keys(m: Map<u64, EdgeView>, v: NodeId)
    requires
        keyed(m),
    ensures
        keyed(bypass_map(m, v)),
{
    let r = bypass_map(m, v);
    assert forall|k: u64| #[trigger] r.contains_key(k) implies r[k].source == key_source(k)
        && r[k].target == key_target(k) by {
        if has_shortcut(m, v, k) {
            let ka = edge_key(key_source(k), v);
            let kb = edge_key(v, key_target(k));
            lemma_edge_key(key_source(k), v);
            lemma_edge_key(v, key_target(k));
            assert(m.contains_key(ka) && m.contains_key(kb));
        }
    }
}

/// Weight conservation: if the weight of every edge is the sum of the
/// weights of the records of its chain, it is so again after a node has
/// been bypassed.
pub proof fn lemma_bypass_conserves_weight<D>(
    g: &DirectedNetworkGraph<D>,
    m: Map<u64, EdgeView>,
    v: NodeId,
)
    requires
        all_conserve_weight(g, m),
    ensures
        all_conserve_weight(g, bypass_map(m, v)),
{
    let r = bypass_map(m, v);
    assert forall|k: u64| #[trigger] r.contains_key(k) implies conserves_weight(g, r[k]) by {
        if has_shortcut(m, v, k) {
            let ka = edge_key(key_source(k), v);
            let kb = edge_key(v, key_target(k));
            assert(m.contains_key(ka) && m.contains_key(kb));
            lemma_shortcut_conserves_weight(g, m[ka], m[kb]);
            if m.contains_key(k) {
            }
        } else {
            assert(m.contains_key(k));
        }
    }
}

/// Expansion soundness: if the chain of every edge is a walk in the graph
/// below from the edge's source to its target, it is so again after a node
/// has been bypassed.
pub proof fn lemma_bypass_expands_to_walks<D>(
    g: &DirectedNetworkGraph<D>,
    m: Map<u64, EdgeView>,
    v: NodeId,
)
    requires
        keyed(m),
        all_expand_to_walks(g, m),
    ensures
        all_expand_to_walks(g, bypass_map(m, v)),
{
    let r = bypass_map(m, v);
    assert forall|k: u64| #[trigger] r.contains_key(k) implies expands_to_walk(g, r[k]) by {
        if has_shortcut(m, v, k) {
            let ka = edge_key(key_source(k), v);
            let kb = edge_key(v, key_target(k));
            lemma_edge_key(key_source(k), v);
            lemma_edge_key(v, key_target(k));
            assert(m.contains_key(ka) && m.contains_key(kb));
            lemma_shortcut_expands_to_walk(g, m[ka], m[kb]);
            if m.contains_key(k) {
            }
        } else {
            assert(m.contains_key(k));
        }
    }
}

/// Bypassing a node leaves edges that are passed one way only.
pub proof fn lemma_bypass_keeps_forward(m: Map<u64, EdgeView>, v: NodeId)
    requires
        all_forward(m),
    ensures
        all_forward(bypass_map(m, v)),
{
    let r = bypass_map(m, v);
    assert forall|k: u64| #[trigger] r.contains_key(k) implies r[k].direction
        == EdgeDirection::Forward by {
        if !has_shortcut(m, v, k) {
            assert(m.contains_key(k));
        } else if m.contains_key(k) {
        }
    }
}

/// Weight conservation and expansion soundness hold after any number of
/// bypasses if they held before.
pub proof fn lemma_bypass_all_keeps_provenance<D>(
    g: &DirectedNetworkGraph<D>,
    m: Map<u64, EdgeView>,
    order: Seq<NodeId>,
)
    requires
        keyed(m),
        all_forward(m),
        all_conserve_weight(g, m),
        all_expand_to_walks(g, m),
    ensures
        keyed(bypass_all(m, order)),
        all_forward(bypass_all(m, order)),
        all_conserve_weight(g, bypass_all(m, order)),
        all_expand_to_walks(g, bypass_all(m, order)),
    decreases order.len(),
{
    if order.len() > 0 {
        let before = bypass_all(m, order.drop_last());
        lemma_bypass_all_keeps_provenance(g, m, order.drop_last());
        lemma_bypass_keeps_keys(before, order.last());
        lemma_bypass_keeps_forward(before, order.last());
        lemma_bypass_conserves_weight(g, before, order.last());
        lemma_bypass_expands_to_walks(g, before, order.last());
    }
}

} // verus!
