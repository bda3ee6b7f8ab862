//! The mutable graph of the contraction phase: an edge map keyed by the pair
//! of endpoints, with the neighbours of every node listed both ways.

use vstd::prelude::*;
use std::collections::HashMap;
use crate::direction::EdgeDirection;
use crate::ids::NodeId;
use crate::lists::{drop_value, lemma_drop_value, lemma_list_len, list_ok};
use crate::shortcut::{Provenance, ShortcutState};

verus! {

broadcast use vstd::std_specs::hash::group_hash_axioms;

/// A node of the intermediate graph, named by the node of the level below
/// that it stands for.
#[derive(Debug, Clone, Copy, PartialEq, Eq, Hash, PartialOrd, Ord, Structural)]
pub struct IntermediateNode(pub NodeId);

impl IntermediateNode {
    /// The node of the level below.
    pub fn data(&self) -> (r: NodeId)
        ensures
            r == self.0,
    {
        self.0
    }

    /// The label under which the node is numbered.
    pub fn id(&self) -> (r: u32)
        ensures
            r == self.0.0,
    {
        self.0.0
    }
}

/// An edge of the intermediate graph.
#[derive(Debug, Clone, PartialEq, Eq)]
pub struct IntermediateEdge {
    /// The edges of the level below that this edge stands for, in order.
    pub data: ShortcutState<u32>,
    /// The base road sections that this edge stands for, in order.
    pub road_id: ShortcutState<usize>,
    pub direction: EdgeDirection,
    pub source: NodeId,
    pub target: NodeId,
    pub weight: u64,
}

/// The mathematical value of an intermediate edge.
pub struct EdgeView {
    pub data: Provenance<u32>,
    pub road_id: Provenance<usize>,
    pub direction: EdgeDirection,
    pub source: NodeId,
    pub target: NodeId,
    pub weight: u64,
}

impl View for IntermediateEdge {
    type V = EdgeView;

    open spec fn view(&self) -> EdgeView {
        EdgeView {
            data: self.data@,
            road_id: self.road_id@,
            direction: self.direction,
            source: self.source,
            target: self.target,
            weight: self.weight,
        }
    }
}

impl IntermediateEdge {
    pub fn new(
        source: NodeId,
        target: NodeId,
        weight: u64,
        data: ShortcutState<u32>,
        road_id: ShortcutState<usize>,
        direction: EdgeDirection,
    ) -> (r: Self)
        ensures
            r == (IntermediateEdge { data, road_id, direction, source, target, weight }),
    {
        Self { source, target, weight, data, direction, road_id }
    }

    /// A copy of the provenance in the level below.
    pub fn data(&self) -> (r: ShortcutState<u32>)
        ensures
            r@ == self.data@,
    {
        self.data.duplicate()
    }

    /// A copy of the provenance in the base level.
    pub fn road_id(&self) -> (r: ShortcutState<usize>)
        ensures
            r@ == self.road_id@,
    {
        self.road_id.duplicate()
    }

    pub fn source(&self) -> (r: NodeId)
        ensures
            r == self.source,
    {
        self.source
    }

    pub fn target(&self) -> (r: NodeId)
        ensures
            r == self.target,
    {
        self.target
    }

    pub fn weight(&self) -> (r: u64)
        ensures
            r == self.weight,
    {
        self.weight
    }

    pub fn direction(&self) -> (r: EdgeDirection)
        ensures
            r == self.direction,
    {
        self.direction
    }

    /// A copy of the edge.
    pub fn duplicate(&self) -> (r: Self)
        ensures
            r@ == self@,
    {
        IntermediateEdge {
            data: self.data.duplicate(),
            road_id: self.road_id.duplicate(),
            direction: self.direction,
            source: self.source,
            target: self.target,
            weight: self.weight,
        }
    }
}

/// The key of the edge from `s` to `t` in the edge map.
pub open spec fn edge_key(s: NodeId, t: NodeId) -> u64 {
    (s.0 as int * 0x1_0000_0000 + t.0 as int) as u64
}

/// The source of the edge with key `k`.
pub open spec fn key_source(k: u64) -> NodeId {
    NodeId((k as int / 0x1_0000_0000) as u32)
}

/// The target of the edge with key `k`.
pub open spec fn key_target(k: u64) -> NodeId {
    NodeId((k as int % 0x1_0000_0000) as u32)
}

/// A key names its two endpoints, and two endpoints have one key.
pub proof fn lemma_edge_key(s: NodeId, t: NodeId)
    ensures
        key_source(edge_key(s, t)) == s,
        key_target(edge_key(s, t)) == t,
        edge_key(s, t) == s.0 as int * 0x1_0000_0000 + t.0 as int,
{
}

/// Every key is the key of its endpoints.
pub proof fn lemma_key_decodes(k: u64)
    ensures
        edge_key(key_source(k), key_target(k)) == k,
{
}

fn make_key(s: NodeId, t: NodeId) -> (k: u64)
    ensures
        k == edge_key(s, t),
{
    (s.0 as u64) * 0x1_0000_0000u64 + (t.0 as u64)
}

fn position(list: &Vec<u32>, x: u32) -> (r: Option<usize>)
    ensures
        match r {
            Some(i) => i < list@.len() && list@[i as int] == x,
            None => !list@.contains(x),
        },
{
    let mut i: usize = 0;
    while i < list.len()
        invariant
            i <= list@.len(),
            forall|k: int| 0 <= k < i ==> list@[k] != x,
        decreases list@.len() - i,
    {
        if list[i] == x {
            return Some(i);
        }
        i += 1;
    }
    None
}

/// The edges of `m` that do not touch `v`.
pub open spec fn without_node(m: Map<u64, EdgeView>, v: NodeId) -> Map<u64, EdgeView> {
    Map::new(
        |k: u64| m.contains_key(k) && key_source(k) != v && key_target(k) != v,
        |k: u64| m[k],
    )
}

/// The sum of two weights, held at the largest weight that can be written.
pub open spec fn capped_sum(a: u64, b: u64) -> u64 {
    if a + b > u64::MAX {
        u64::MAX
    } else {
        (a + b) as u64
    }
}

/// The shortcut that stands for edge `a` followed by edge `b`.
pub open spec fn shortcut_of(a: EdgeView, b: EdgeView) -> EdgeView {
    EdgeView {
        data: Provenance::Chain(a.data.chain() + b.data.chain()),
        road_id: Provenance::Chain(a.road_id.chain() + b.road_id.chain()),
        direction: EdgeDirection::Forward,
        source: a.source,
        target: b.target,
        weight: capped_sum(a.weight, b.weight),
    }
}

/// Whether bypassing `v` in `m` proposes a shortcut under key `k`: the
/// endpoints of `k` differ from each other and from `v`, and `m` leads from
/// the first into `v` and from `v` into the second.
pub open spec fn has_shortcut(m: Map<u64, EdgeView>, v: NodeId, k: u64) -> bool {
    let p = key_source(k);
    let q = key_target(k);
    &&& p != v
    &&& q != v
    &&& p != q
    &&& m.contains_key(edge_key(p, v))
    &&& m.contains_key(edge_key(v, q))
}

/// The shortcut that bypassing `v` in `m` proposes under key `k`.
pub open spec fn proposed(m: Map<u64, EdgeView>, v: NodeId, k: u64) -> EdgeView {
    shortcut_of(m[edge_key(key_source(k), v)], m[edge_key(v, key_target(k))])
}

/// The edge that lies under `k` once `v` is bypassed, where a shortcut is
/// proposed there: the edge that was there if it is no longer than the
/// shortcut, else the shortcut.
pub open spec fn settled_edge(m: Map<u64, EdgeView>, v: NodeId, k: u64) -> EdgeView {
    if m.contains_key(k) && m[k].weight <= proposed(m, v, k).weight {
        m[k]
    } else {
        proposed(m, v, k)
    }
}

/// The edge map after `v` is bypassed: the edges that touch `v` are gone, and
/// every pair of an edge into `v` and an edge out of `v` is replaced by a
/// shortcut unless it would begin and end at one node.
pub open spec fn bypass_map(m: Map<u64, EdgeView>, v: NodeId) -> Map<u64, EdgeView> {
    Map::new(
        |k: u64|
            key_source(k) != v && key_target(k) != v && (m.contains_key(k) || has_shortcut(
                m,
                v,
                k,
            )),
        |k: u64|
            if has_shortcut(m, v, k) {
                settled_edge(m, v, k)
            } else {
                m[k]
            },
    )
}

/// The entries of `list` as node ids.
pub open spec fn as_nodes(list: Seq<u32>) -> Seq<NodeId> {
    list.map_values(|x: u32| NodeId(x))
}

fn append_copy<T: Copy>(into: &mut Vec<T>, from: &Vec<T>)
    ensures
        final(into)@ == old(into)@ + from@,
{
    let mut i: usize = 0;
    while i < from.len()
        invariant
            i <= from@.len(),
            into@ == old(into)@ + from@.subrange(0, i as int),
        decreases from@.len() - i,
    {
        into.push(from[i]);
        i += 1;
        assert(into@ =~= old(into)@ + from@.subrange(0, i as int));
    }
    assert(from@.subrange(0, from@.len() as int) =~= from@);
}

/// The two provenance chains of the shortcut that stands for `parent_edge`
/// followed by `child_edge`.
pub fn collect_shortcut_data_edges(
    parent_edge: &IntermediateEdge,
    child_edge: &IntermediateEdge,
) -> (r: (Vec<u32>, Vec<usize>))
    ensures
        r.0@ == parent_edge.data.chain() + child_edge.data.chain(),
        r.1@ == parent_edge.road_id.chain() + child_edge.road_id.chain(),
{
    let mut edge_ids = parent_edge.data.to_vec();
    let mut road_ids = parent_edge.road_id.to_vec();
    let child_edges = child_edge.data.to_vec();
    let child_roads = child_edge.road_id.to_vec();
    append_copy(&mut edge_ids, &child_edges);
    append_copy(&mut road_ids, &child_roads);
    (edge_ids, road_ids)
}

/// The shortcut that stands for `parent_edge` followed by `child_edge`.
pub fn make_shortcut(parent_edge: &IntermediateEdge, child_edge: &IntermediateEdge) -> (r:
    IntermediateEdge)
    ensures
        r@ == shortcut_of(parent_edge@, child_edge@),
{
    let (state, road_ids) = collect_shortcut_data_edges(parent_edge, child_edge);
    IntermediateEdge::new(
        parent_edge.source,
        child_edge.target,
        parent_edge.weight.saturating_add(child_edge.weight),
        ShortcutState::Shortcut(state),
        ShortcutState::Shortcut(road_ids),
        EdgeDirection::Forward,
    )
}

/// The endpoints of the edges of `edges`, in their order.
pub open spec fn endpoints(edges: Seq<IntermediateEdge>) -> Seq<(u32, u32)> {
    edges.map_values(|e: IntermediateEdge| (e.source.0, e.target.0))
}

/// The pairs that `p` forms with the nodes of `children`, in their order;
/// a pair of a node with itself or with `node` is left out.
pub open spec fn row(p: u32, children: Seq<u32>, node: u32) -> Seq<(u32, u32)>
    decreases children.len(),
{
    if children.len() == 0 {
        Seq::empty()
    } else {
        let head = row(p, children.drop_last(), node);
        let q = children.last();
        if p != q && p != node && q != node {
            head.push((p, q))
        } else {
            head
        }
    }
}

/// The pairs of a node of `parents` with a node of `children`, the pairs
/// of the first parent first; these are the ends of the shortcuts that
/// bypassing `node` proposes, in the order in which they are merged.
pub open spec fn pair_list(parents: Seq<u32>, children: Seq<u32>, node: u32) -> Seq<(u32, u32)>
    decreases parents.len(),
{
    if parents.len() == 0 {
        Seq::empty()
    } else {
        pair_list(parents.drop_last(), children, node) + row(parents.last(), children, node)
    }
}

/// A list of targets once the edges between the pairs of `pairs` have
/// been merged, the last pair first: the target of every pair that leaves
/// `u` is added at the end unless the list holds it already.
pub open spec fn grow_out(list: Seq<u32>, pairs: Seq<(u32, u32)>, u: u32) -> Seq<u32>
    decreases pairs.len(),
{
    if pairs.len() == 0 {
        list
    } else {
        let head = grow_out(list, pairs.drop_first(), u);
        if pairs[0].0 == u && !head.contains(pairs[0].1) {
            head.push(pairs[0].1)
        } else {
            head
        }
    }
}

/// A list of sources once the edges between the pairs of `pairs` have
/// been merged, the last pair first: the source of every pair that enters
/// `u` is added at the end unless the list holds it already.
pub open spec fn grow_in(list: Seq<u32>, pairs: Seq<(u32, u32)>, u: u32) -> Seq<u32>
    decreases pairs.len(),
{
    if pairs.len() == 0 {
        list
    } else {
        let head = grow_in(list, pairs.drop_first(), u);
        if pairs[0].1 == u && !head.contains(pairs[0].0) {
            head.push(pairs[0].0)
        } else {
            head
        }
    }
}

/// Whether `edges` holds an edge from `p` to `q`.
pub open spec fn covers(edges: Seq<IntermediateEdge>, p: u32, q: u32) -> bool {
    exists|i: int| 0 <= i < edges.len() && (#[trigger] edges[i]).source.0 == p && edges[i].target.0 == q
}

proof fn lemma_covers_push(edges: Seq<IntermediateEdge>, e: IntermediateEdge)
    ensures
        forall|p: u32, q: u32| covers(edges, p, q) ==> #[trigger] covers(edges.push(e), p, q),
        covers(edges.push(e), e.source.0, e.target.0),
{
    assert forall|p: u32, q: u32| covers(edges, p, q) implies #[trigger] covers(
        edges.push(e),
        p,
        q,
    ) by {
        let i = choose|i: int|
            0 <= i < edges.len() && (#[trigger] edges[i]).source.0 == p && edges[i].target.0 == q;
        assert(edges.push(e)[i] == edges[i]);
    }
    assert(edges.push(e)[edges.len() as int] == e);
}

/// Number of entries of `flags` that are set.
pub open spec fn count_true(flags: Seq<bool>) -> nat
    decreases flags.len(),
{
    if flags.len() == 0 {
        0
    } else {
        count_true(flags.drop_last()) + if flags.last() {
            1nat
        } else {
            0nat
        }
    }
}

proof fn lemma_count_update(flags: Seq<bool>, i: int, b: bool)
    requires
        0 <= i < flags.len(),
    ensures
        count_true(flags.update(i, b)) + (if flags[i] {
            1int
        } else {
            0int
        }) == count_true(flags) + (if b {
            1int
        } else {
            0int
        }),
    decreases flags.len(),
{
    let next = flags.update(i, b);
    if i == flags.len() - 1 {
        assert(next.drop_last() =~= flags.drop_last());
    } else {
        lemma_count_update(flags.drop_last(), i, b);
        assert(next.drop_last() =~= flags.drop_last().update(i, b));
    }
}

proof fn lemma_count_push(flags: Seq<bool>, b: bool)
    ensures
        count_true(flags.push(b)) == count_true(flags) + (if b {
            1nat
        } else {
            0nat
        }),
{
    assert(flags.push(b).drop_last() =~= flags);
}

/// The graph of the contraction phase.
pub struct IntermediateNetwork {
    edges: HashMap<u64, IntermediateEdge>,
    out_adj: Vec<Vec<u32>>,
    in_adj: Vec<Vec<u32>>,
    present: Vec<bool>,
}

impl IntermediateNetwork {
    /// The edges, each under the key of its endpoints.
    pub closed spec fn edge_map(&self) -> Map<u64, EdgeView> {
        self.edges@.map_values(|e: IntermediateEdge| e@)
    }

    /// Whether `v` is a node of the graph.
    pub closed spec fn has_node(&self, v: NodeId) -> bool {
        v.0 < self.present@.len() && self.present@[v.0 as int]
    }

    /// One more than the largest node id that the graph has met.
    pub closed spec fn slots(&self) -> int {
        self.present@.len() as int
    }

    /// Number of nodes of the graph.
    pub closed spec fn live_nodes(&self) -> nat {
        count_true(self.present@)
    }

    /// The targets of the edges that leave `v`, in the order in which
    /// `bypass` and `out_edges` walk them.
    pub closed spec fn out_neighbours(&self, v: NodeId) -> Seq<u32> {
        if v.0 < self.out_adj@.len() {
            self.out_adj@[v.0 as int]@
        } else {
            Seq::empty()
        }
    }

    /// The sources of the edges that enter `v`, in the order in which
    /// `bypass` and `in_edges` walk them.
    pub closed spec fn in_neighbours(&self, v: NodeId) -> Seq<u32> {
        if v.0 < self.in_adj@.len() {
            self.in_adj@[v.0 as int]@
        } else {
            Seq::empty()
        }
    }

    /// The targets of the edges that leave `u` once `node` has been
    /// bypassed, in their order: those of before without `node`, then the
    /// targets of the shortcuts from `u` that are new.
    pub open spec fn out_after_bypass(&self, node: NodeId, u: NodeId) -> Seq<u32> {
        grow_out(
            if u == node {
                Seq::empty()
            } else {
                drop_value(self.out_neighbours(u), node.0)
            },
            pair_list(self.in_neighbours(node), self.out_neighbours(node), node.0),
            u.0,
        )
    }

    /// The sources of the edges that enter `u` once `node` has been
    /// bypassed, in their order: those of before without `node`, then the
    /// sources of the shortcuts into `u` that are new.
    pub open spec fn in_after_bypass(&self, node: NodeId, u: NodeId) -> Seq<u32> {
        grow_in(
            if u == node {
                Seq::empty()
            } else {
                drop_value(self.in_neighbours(u), node.0)
            },
            pair_list(self.in_neighbours(node), self.out_neighbours(node), node.0),
            u.0,
        )
    }

    /// The invariant of the representation: the neighbour lists name exactly
    /// the endpoints of the edges in the map, every edge lies under the key
    /// of its own endpoints, and both endpoints are nodes of the graph.
    pub closed spec fn wf(&self) -> bool {
        let n = self.present@.len() as int;
        &&& n <= u32::MAX
        &&& self.out_adj@.len() == n
        &&& self.in_adj@.len() == n
        &&& forall|u: int| 0 <= u < n ==> list_ok(#[trigger] self.out_adj@[u]@, n)
        &&& forall|u: int| 0 <= u < n ==> list_ok(#[trigger] self.in_adj@[u]@, n)
        &&& forall|k: u64| #[trigger]
            self.edges@.contains_key(k) ==> {
                &&& key_source(k).0 < n
                &&& key_target(k).0 < n
                &&& self.edges@[k].source == key_source(k)
                &&& self.edges@[k].target == key_target(k)
                &&& self.present@[key_source(k).0 as int]
                &&& self.present@[key_target(k).0 as int]
            }
        &&& forall|s: u32, t: u32|
            s < n && t < n ==> (self.out_adj@[s as int]@.contains(t) <==> #[trigger]
                self.edges@.contains_key(edge_key(NodeId(s), NodeId(t))))
        &&& forall|s: u32, t: u32|
            s < n && t < n ==> (self.in_adj@[t as int]@.contains(s) <==> #[trigger]
                self.edges@.contains_key(edge_key(NodeId(s), NodeId(t))))
    }

    /// What the invariant says of the neighbour lists and of the edge map.
    pub proof fn lemma_wf(&self)
        requires
            self.wf(),
        ensures
            self.slots() <= u32::MAX,
            self.edge_map().dom().finite(),
            forall|v: NodeId| self.has_node(v) ==> v.0 < self.slots(),
            forall|v: NodeId| #[trigger] list_ok(self.out_neighbours(v), self.slots()),
            forall|v: NodeId| #[trigger] list_ok(self.in_neighbours(v), self.slots()),
            forall|s: NodeId, t: NodeId|
                self.out_neighbours(s).contains(t.0) <==> #[trigger] self.edge_map().contains_key(
                    edge_key(s, t),
                ),
            forall|s: NodeId, t: NodeId|
                self.in_neighbours(t).contains(s.0) <==> #[trigger] self.edge_map().contains_key(
                    edge_key(s, t),
                ),
            forall|k: u64| #[trigger]
                self.edge_map().contains_key(k) ==> {
                    &&& self.edge_map()[k].source == key_source(k)
                    &&& self.edge_map()[k].target == key_target(k)
                    &&& self.has_node(key_source(k))
                    &&& self.has_node(key_target(k))
                },
    {
        let n = self.present@.len() as int;
        assert(self.edge_map().dom() =~= self.edges@.dom());
        assert forall|v: NodeId| #[trigger] list_ok(self.out_neighbours(v), self.slots()) by {
            if v.0 < n {
                assert(list_ok(self.out_adj@[v.0 as int]@, n));
            }
        }
        assert forall|v: NodeId| #[trigger] list_ok(self.in_neighbours(v), self.slots()) by {
            if v.0 < n {
                assert(list_ok(self.in_adj@[v.0 as int]@, n));
            }
        }
        assert forall|s: NodeId, t: NodeId|
            self.out_neighbours(s).contains(t.0) <==> #[trigger] self.edge_map().contains_key(
                edge_key(s, t),
            ) by {
            lemma_edge_key(s, t);
            if s.0 < n {
                assert(list_ok(self.out_adj@[s.0 as int]@, n));
            }
            if s.0 < n && t.0 < n {
                assert(self.out_adj@[s.0 as int]@.contains(t.0) <==> self.edges@.contains_key(
                    edge_key(NodeId(s.0), NodeId(t.0)),
                ));
            }
        }
        assert forall|s: NodeId, t: NodeId|
            self.in_neighbours(t).contains(s.0) <==> #[trigger] self.edge_map().contains_key(
                edge_key(s, t),
            ) by {
            lemma_edge_key(s, t);
            if t.0 < n {
                assert(list_ok(self.in_adj@[t.0 as int]@, n));
            }
            if s.0 < n && t.0 < n {
                assert(self.in_adj@[t.0 as int]@.contains(s.0) <==> self.edges@.contains_key(
                    edge_key(NodeId(s.0), NodeId(t.0)),
                ));
            }
        }
    }

    /// The graph without nodes and edges.
    pub fn new() -> (r: Self)
        ensures
            r.wf(),
            r.edge_map() == Map::<u64, EdgeView>::empty(),
            forall|v: NodeId| !r.has_node(v),
            forall|v: NodeId| #[trigger] r.out_neighbours(v) == Seq::<u32>::empty(),
            forall|v: NodeId| #[trigger] r.in_neighbours(v) == Seq::<u32>::empty(),
            r.slots() == 0,
    {
        let r = IntermediateNetwork {
            edges: HashMap::new(),
            out_adj: Vec::new(),
            in_adj: Vec::new(),
            present: Vec::new(),
        };
        assert(r.edge_map() =~= Map::<u64, EdgeView>::empty());
        r
    }

    fn grow(&mut self, n: usize)
        requires
            old(self).wf(),
            n <= u32::MAX,
        ensures
            final(self).wf(),
            final(self).slots() == if old(self).slots() >= n {
                old(self).slots()
            } else {
                n as int
            },
            final(self).live_nodes() == old(self).live_nodes(),
            final(self).edges@ == old(self).edges@,
            forall|v: NodeId| final(self).has_node(v) == old(self).has_node(v),
            forall|v: NodeId| final(self).out_neighbours(v) == old(self).out_neighbours(v),
            forall|v: NodeId| final(self).in_neighbours(v) == old(self).in_neighbours(v),
    {
        while self.present.len() < n
            invariant
                self.wf(),
                n <= u32::MAX,
                self.slots() == old(self).slots() || self.slots() <= n,
                self.slots() >= old(self).slots(),
                self.live_nodes() == old(self).live_nodes(),
                self.edges@ == old(self).edges@,
                forall|v: NodeId| self.has_node(v) == old(self).has_node(v),
                forall|v: NodeId| self.out_neighbours(v) == old(self).out_neighbours(v),
                forall|v: NodeId| self.in_neighbours(v) == old(self).in_neighbours(v),
            decreases n - self.present@.len(),
        {
            let ghost before = *self;
            proof {
                lemma_count_push(self.present@, false);
            }
            self.present.push(false);
            self.out_adj.push(Vec::new());
            self.in_adj.push(Vec::new());
            proof {
                let m = self.present@.len() as int;
                assert forall|u: int| 0 <= u < m implies list_ok(
                    #[trigger] self.out_adj@[u]@,
                    m,
                ) by {
                    if u < m - 1 {
                        assert(list_ok(before.out_adj@[u]@, m - 1));
                    }
                }
                assert forall|u: int| 0 <= u < m implies list_ok(#[trigger] self.in_adj@[u]@, m) by {
                    if u < m - 1 {
                        assert(list_ok(before.in_adj@[u]@, m - 1));
                    }
                }
                assert forall|s: u32, t: u32| s < m && t < m implies (self.out_adj@[s as int]@.contains(
                    t,
                ) <==> #[trigger] self.edges@.contains_key(edge_key(NodeId(s), NodeId(t)))) by {
                    lemma_edge_key(NodeId(s), NodeId(t));
                }
                assert forall|s: u32, t: u32| s < m && t < m implies (self.in_adj@[t as int]@.contains(
                    s,
                ) <==> #[trigger] self.edges@.contains_key(edge_key(NodeId(s), NodeId(t)))) by {
                    lemma_edge_key(NodeId(s), NodeId(t));
                }
            }
        }
    }

    /// Puts `edge` under the key of its endpoints, in place of an edge that
    /// lay there, and makes both endpoints nodes of the graph.
    #[verifier::rlimit(40)]
    pub fn add_edge(&mut self, edge: IntermediateEdge)
        requires
            old(self).wf(),
            edge.source.0 < u32::MAX,
            edge.target.0 < u32::MAX,
        ensures
            final(self).wf(),
            final(self).edge_map() == old(self).edge_map().insert(
                edge_key(edge.source, edge.target),
                edge@,
            ),
            forall|v: NodeId|
                final(self).has_node(v) == (old(self).has_node(v) || v == edge.source || v
                    == edge.target),
            forall|v: NodeId|
                v != edge.source ==> final(self).out_neighbours(v) == old(self).out_neighbours(v),
            forall|v: NodeId|
                v != edge.target ==> final(self).in_neighbours(v) == old(self).in_neighbours(v),
            final(self).out_neighbours(edge.source) == if old(self).edge_map().contains_key(
                edge_key(edge.source, edge.target),
            ) {
                old(self).out_neighbours(edge.source)
            } else {
                old(self).out_neighbours(edge.source).push(edge.target.0)
            },
            final(self).in_neighbours(edge.target) == if old(self).edge_map().contains_key(
                edge_key(edge.source, edge.target),
            ) {
                old(self).in_neighbours(edge.target)
            } else {
                old(self).in_neighbours(edge.target).push(edge.source.0)
            },
            final(self).slots() >= old(self).slots(),
            edge.source.0 < old(self).slots() && edge.target.0 < old(self).slots() ==> final(self).slots() == old(self).slots(),
            final(self).live_nodes() >= old(self).live_nodes(),
            old(self).has_node(edge.source) && old(self).has_node(edge.target) ==> final(self).live_nodes() == old(self).live_nodes(),
    {
        let s = edge.source.0;
        let t = edge.target.0;
        let top = if s > t { s } else { t };
        self.grow(top as usize + 1);
        let ghost grown = *self;
        proof {
            lemma_count_update(self.present@, s as int, true);
        }
        self.present.set(s as usize, true);
        proof {
            lemma_count_update(self.present@, t as int, true);
        }
        self.present.set(t as usize, true);
        let k = make_key(edge.source, edge.target);
        let known = self.edges.contains_key(&k);
        if !known {
            self.out_adj[s as usize].push(t);
            self.in_adj[t as usize].push(s);
        }
        let ghost ev = edge@;
        self.edges.insert(k, edge);
        proof {
            let n = self.present@.len() as int;
            lemma_edge_key(NodeId(s), NodeId(t));
            assert(self.edge_map() =~= old(self).edge_map().insert(k, ev));
            assert forall|u: int| 0 <= u < n implies list_ok(#[trigger] self.out_adj@[u]@, n) by {
                assert(list_ok(grown.out_adj@[u]@, n));
                if u == s && !known {
                    assert(!grown.out_adj@[u]@.contains(t));
                }
            }
            assert forall|u: int| 0 <= u < n implies list_ok(#[trigger] self.in_adj@[u]@, n) by {
                assert(list_ok(grown.in_adj@[u]@, n));
                if u == t && !known {
                    assert(!grown.in_adj@[u]@.contains(s));
                }
            }
            assert forall|a: u32, b: u32| a < n && b < n implies (self.out_adj@[a as int]@.contains(
                b,
            ) <==> #[trigger] self.edges@.contains_key(edge_key(NodeId(a), NodeId(b)))) by {
                lemma_edge_key(NodeId(a), NodeId(b));
                assert(grown.out_adj@[a as int]@.contains(b) <==> grown.edges@.contains_key(
                    edge_key(NodeId(a), NodeId(b)),
                ));
                if a == s && !known {
                    let old_list = grown.out_adj@[a as int]@;
                    let new_list = self.out_adj@[a as int]@;
                    assert(new_list == old_list.push(t));
                    if old_list.contains(b) {
                        let i = choose|i: int| 0 <= i < old_list.len() && old_list[i] == b;
                        assert(new_list[i] == b);
                    }
                    if b == t {
                        assert(new_list[new_list.len() - 1] == t);
                    }
                }
            }
            assert forall|a: u32, b: u32| a < n && b < n implies (self.in_adj@[b as int]@.contains(
                a,
            ) <==> #[trigger] self.edges@.contains_key(edge_key(NodeId(a), NodeId(b)))) by {
                lemma_edge_key(NodeId(a), NodeId(b));
                assert(grown.in_adj@[b as int]@.contains(a) <==> grown.edges@.contains_key(
                    edge_key(NodeId(a), NodeId(b)),
                ));
                if b == t && !known {
                    let old_list = grown.in_adj@[b as int]@;
                    let new_list = self.in_adj@[b as int]@;
                    assert(new_list == old_list.push(s));
                    if old_list.contains(a) {
                        let i = choose|i: int| 0 <= i < old_list.len() && old_list[i] == a;
                        assert(new_list[i] == a);
                    }
                    if a == s {
                        assert(new_list[new_list.len() - 1] == s);
                    }
                }
            }
            assert forall|k2: u64| #[trigger] self.edges@.contains_key(k2) implies {
                &&& key_source(k2).0 < n
                &&& key_target(k2).0 < n
                &&& self.edges@[k2].source == key_source(k2)
                &&& self.edges@[k2].target == key_target(k2)
                &&& self.present@[key_source(k2).0 as int]
                &&& self.present@[key_target(k2).0 as int]
            } by {
                if k2 != k {
                    assert(grown.edges@.contains_key(k2));
                }
            }
            assert(old(self).edge_map().contains_key(k) == known);
        }
    }

    /// Takes the edge from `s` to `t` out of the graph.
    fn remove_edge(&mut self, s: NodeId, t: NodeId)
        requires
            old(self).wf(),
            old(self).edges@.contains_key(edge_key(s, t)),
        ensures
            final(self).wf(),
            final(self).edges@ == old(self).edges@.remove(edge_key(s, t)),
            final(self).present@ == old(self).present@,
            forall|v: NodeId| v != s ==> final(self).out_neighbours(v) == old(self).out_neighbours(v),
            forall|v: NodeId| v != t ==> final(self).in_neighbours(v) == old(self).in_neighbours(v),
            final(self).out_neighbours(s) == drop_value(old(self).out_neighbours(s), t.0),
            final(self).in_neighbours(t) == drop_value(old(self).in_neighbours(t), s.0),
    {
        let k = make_key(s, t);
        proof {
            lemma_edge_key(s, t);
            assert(key_source(k).0 < self.present@.len());
            assert(key_target(k).0 < self.present@.len());
            assert(self.out_adj@[s.0 as int]@.contains(t.0) <==> self.edges@.contains_key(
                edge_key(NodeId(s.0), NodeId(t.0)),
            ));
            assert(self.in_adj@[t.0 as int]@.contains(s.0) <==> self.edges@.contains_key(
                edge_key(NodeId(s.0), NodeId(t.0)),
            ));
            assert(list_ok(self.out_adj@[s.0 as int]@, self.present@.len() as int));
            assert(list_ok(self.in_adj@[t.0 as int]@, self.present@.len() as int));
        }
        let i = position(&self.out_adj[s.0 as usize], t.0);
        let j = position(&self.in_adj[t.0 as usize], s.0);
        let i = i.unwrap();
        let j = j.unwrap();
        proof {
            lemma_drop_value(self.out_adj@[s.0 as int]@, t.0, i as int);
            lemma_drop_value(self.in_adj@[t.0 as int]@, s.0, j as int);
        }
        self.out_adj[s.0 as usize].remove(i);
        self.in_adj[t.0 as usize].remove(j);
        self.edges.remove(&k);
        proof {
            let n = self.present@.len() as int;
            assert forall|u: int| 0 <= u < n implies list_ok(#[trigger] self.out_adj@[u]@, n) by {
                assert(list_ok(old(self).out_adj@[u]@, n));
                if u == s.0 {
                    let l = old(self).out_adj@[u]@;
                    let r = self.out_adj@[u]@;
                    assert forall|a: int| 0 <= a < r.len() implies (#[trigger] r[a]) < n by {
                        let a0 = if a < i { a } else { a + 1 };
                        assert(r[a] == l[a0]);
                    }
                }
            }
            assert forall|u: int| 0 <= u < n implies list_ok(#[trigger] self.in_adj@[u]@, n) by {
                assert(list_ok(old(self).in_adj@[u]@, n));
                if u == t.0 {
                    let l = old(self).in_adj@[u]@;
                    let r = self.in_adj@[u]@;
                    assert forall|a: int| 0 <= a < r.len() implies (#[trigger] r[a]) < n by {
                        let a0 = if a < j { a } else { a + 1 };
                        assert(r[a] == l[a0]);
                    }
                }
            }
            assert forall|a: u32, b: u32| a < n && b < n implies (self.out_adj@[a as int]@.contains(
                b,
            ) <==> #[trigger] self.edges@.contains_key(edge_key(NodeId(a), NodeId(b)))) by {
                lemma_edge_key(NodeId(a), NodeId(b));
                assert(old(self).out_adj@[a as int]@.contains(b) <==> old(self).edges@.contains_key(
                    edge_key(NodeId(a), NodeId(b)),
                ));
            }
            assert forall|a: u32, b: u32| a < n && b < n implies (self.in_adj@[b as int]@.contains(
                a,
            ) <==> #[trigger] self.edges@.contains_key(edge_key(NodeId(a), NodeId(b)))) by {
                lemma_edge_key(NodeId(a), NodeId(b));
                assert(old(self).in_adj@[b as int]@.contains(a) <==> old(self).edges@.contains_key(
                    edge_key(NodeId(a), NodeId(b)),
                ));
            }
            assert forall|k2: u64| #[trigger] self.edges@.contains_key(k2) implies {
                &&& key_source(k2).0 < n
                &&& key_target(k2).0 < n
                &&& self.edges@[k2].source == key_source(k2)
                &&& self.edges@[k2].target == key_target(k2)
                &&& self.present@[key_source(k2).0 as int]
                &&& self.present@[key_target(k2).0 as int]
            } by {
                assert(old(self).edges@.contains_key(k2));
            }
        }
    }

    /// Takes every edge that leaves `node` out of the graph.
    #[verifier::rlimit(40)]
    fn detach_out(&mut self, node: NodeId)
        requires
            old(self).wf(),
            node.0 < old(self).present@.len(),
        ensures
            final(self).wf(),
            final(self).present@ == old(self).present@,
            forall|k: u64|
                final(self).edges@.contains_key(k) <==> old(self).edges@.contains_key(k)
                    && key_source(k) != node,
            forall|k: u64|
                final(self).edges@.contains_key(k) ==> final(self).edges@[k] == old(self).edges@[k],
            final(self).out_neighbours(node) == Seq::<u32>::empty(),
            forall|u: NodeId|
                u != node ==> final(self).out_neighbours(u) == old(self).out_neighbours(u),
            forall|u: NodeId|
                final(self).in_neighbours(u) == drop_value(old(self).in_neighbours(u), node.0),
    {
        let v = node.0 as usize;
        let ghost n = self.present@.len() as int;
        proof {
            assert forall|k: u64|
                self.edges@.contains_key(k) && key_source(k) == node implies self.out_adj@[v as int]@.contains(
                key_target(k).0,
            ) by {
                lemma_key_decodes(k);
                assert(self.out_adj@[v as int]@.contains(key_target(k).0) <==> self.edges@.contains_key(
                    edge_key(NodeId(node.0), NodeId(key_target(k).0)),
                ));
            }
            assert forall|u: NodeId|
                self.in_neighbours(u) == if self.out_adj@[v as int]@.contains(u.0) {
                    old(self).in_neighbours(u)
                } else {
                    drop_value(old(self).in_neighbours(u), node.0)
                } by {
                if u.0 < n {
                    lemma_edge_key(node, u);
                    assert(self.out_adj@[v as int]@.contains(u.0) <==> self.edges@.contains_key(
                        edge_key(NodeId(node.0), NodeId(u.0)),
                    ));
                    assert(self.in_adj@[u.0 as int]@.contains(node.0) <==> self.edges@.contains_key(
                        edge_key(NodeId(node.0), NodeId(u.0)),
                    ));
                } else {
                    assert(list_ok(self.out_adj@[v as int]@, n));
                }
            }
        }
        while self.out_adj[v].len() > 0
            invariant
                self.wf(),
                old(self).wf(),
                v == node.0,
                v < n,
                n == self.present@.len(),
                self.present@ == old(self).present@,
                forall|k: u64|
                    self.edges@.contains_key(k) <==> old(self).edges@.contains_key(k) && !(
                    key_source(k) == node && !self.out_adj@[v as int]@.contains(key_target(k).0)),
                forall|k: u64| self.edges@.contains_key(k) ==> self.edges@[k] == old(self).edges@[k],
                forall|u: NodeId|
                    self.in_neighbours(u) == if self.out_adj@[v as int]@.contains(u.0) {
                        old(self).in_neighbours(u)
                    } else {
                        drop_value(old(self).in_neighbours(u), node.0)
                    },
                forall|u: NodeId| u != node ==> self.out_neighbours(u) == old(self).out_neighbours(u),
            decreases self.out_adj@[v as int]@.len(),
        {
            let ghost before = *self;
            let last = self.out_adj[v].len() - 1;
            let t = self.out_adj[v][last];
            proof {
                assert(list_ok(self.out_adj@[v as int]@, n));
                assert(self.out_adj@[v as int]@.contains(t));
                assert(self.out_adj@[v as int]@.contains(t) <==> self.edges@.contains_key(
                    edge_key(NodeId(v as u32), NodeId(t)),
                ));
                lemma_drop_value(self.out_adj@[v as int]@, t, last as int);
                lemma_edge_key(node, NodeId(t));
            }
            self.remove_edge(node, NodeId(t));
            proof {
                assert(self.out_adj@[v as int]@ == before.out_neighbours(node).remove(last as int));
                assert forall|k: u64|
                    self.edges@.contains_key(k) <==> old(self).edges@.contains_key(k) && !(
                    key_source(k) == node && !self.out_adj@[v as int]@.contains(
                        key_target(k).0,
                    )) by {
                    lemma_key_decodes(k);
                }
            }
        }
        proof {
            assert(self.out_adj@[v as int]@ =~= Seq::<u32>::empty());
        }
    }

    /// Takes every edge that enters `node` out of the graph.
    #[verifier::rlimit(40)]
    fn detach_in(&mut self, node: NodeId)
        requires
            old(self).wf(),
            node.0 < old(self).present@.len(),
        ensures
            final(self).wf(),
            final(self).present@ == old(self).present@,
            forall|k: u64|
                final(self).edges@.contains_key(k) <==> old(self).edges@.contains_key(k)
                    && key_target(k) != node,
            forall|k: u64|
                final(self).edges@.contains_key(k) ==> final(self).edges@[k] == old(self).edges@[k],
            final(self).in_neighbours(node) == Seq::<u32>::empty(),
            forall|u: NodeId|
                u != node ==> final(self).in_neighbours(u) == old(self).in_neighbours(u),
            forall|u: NodeId|
                final(self).out_neighbours(u) == drop_value(old(self).out_neighbours(u), node.0),
    {
        let v = node.0 as usize;
        let ghost n = self.present@.len() as int;
        proof {
            assert forall|k: u64|
                self.edges@.contains_key(k) && key_target(k) == node implies self.in_adj@[v as int]@.contains(
                key_source(k).0,
            ) by {
                lemma_key_decodes(k);
                assert(self.in_adj@[v as int]@.contains(key_source(k).0) <==> self.edges@.contains_key(
                    edge_key(NodeId(key_source(k).0), NodeId(node.0)),
                ));
            }
            assert forall|u: NodeId|
                self.out_neighbours(u) == if self.in_adj@[v as int]@.contains(u.0) {
                    old(self).out_neighbours(u)
                } else {
                    drop_value(old(self).out_neighbours(u), node.0)
                } by {
                if u.0 < n {
                    lemma_edge_key(u, node);
                    assert(self.out_adj@[u.0 as int]@.contains(node.0) <==> self.edges@.contains_key(
                        edge_key(NodeId(u.0), NodeId(node.0)),
                    ));
                    assert(self.in_adj@[v as int]@.contains(u.0) <==> self.edges@.contains_key(
                        edge_key(NodeId(u.0), NodeId(node.0)),
                    ));
                } else {
                    assert(list_ok(self.in_adj@[v as int]@, n));
                }
            }
        }
        while self.in_adj[v].len() > 0
            invariant
                self.wf(),
                old(self).wf(),
                v == node.0,
                v < n,
                n == self.present@.len(),
                self.present@ == old(self).present@,
                forall|k: u64|
                    self.edges@.contains_key(k) <==> old(self).edges@.contains_key(k) && !(
                    key_target(k) == node && !self.in_adj@[v as int]@.contains(key_source(k).0)),
                forall|k: u64| self.edges@.contains_key(k) ==> self.edges@[k] == old(self).edges@[k],
                forall|u: NodeId|
                    self.out_neighbours(u) == if self.in_adj@[v as int]@.contains(u.0) {
                        old(self).out_neighbours(u)
                    } else {
                        drop_value(old(self).out_neighbours(u), node.0)
                    },
                forall|u: NodeId| u != node ==> self.in_neighbours(u) == old(self).in_neighbours(u),
            decreases self.in_adj@[v as int]@.len(),
        {
            let ghost before = *self;
            let last = self.in_adj[v].len() - 1;
            let src = self.in_adj[v][last];
            proof {
                assert(list_ok(self.in_adj@[v as int]@, n));
                assert(self.in_adj@[v as int]@.contains(src));
                assert(self.in_adj@[v as int]@.contains(src) <==> self.edges@.contains_key(
                    edge_key(NodeId(src), NodeId(v as u32)),
                ));
                lemma_drop_value(self.in_adj@[v as int]@, src, last as int);
                lemma_edge_key(NodeId(src), node);
            }
            self.remove_edge(NodeId(src), node);
            proof {
                assert(self.in_adj@[v as int]@ == before.in_neighbours(node).remove(last as int));
                assert forall|k: u64|
                    self.edges@.contains_key(k) <==> old(self).edges@.contains_key(k) && !(
                    key_target(k) == node && !self.in_adj@[v as int]@.contains(
                        key_source(k).0,
                    )) by {
                    lemma_key_decodes(k);
                }
            }
        }
        proof {
            assert(self.in_adj@[v as int]@ =~= Seq::<u32>::empty());
        }
    }

    /// Takes `node` and every edge that touches it out of the graph.
    #[verifier::rlimit(40)]
    pub fn remove_node(&mut self, node: NodeId)
        requires
            old(self).wf(),
        ensures
            final(self).wf(),
            final(self).edge_map() == without_node(old(self).edge_map(), node),
            forall|v: NodeId| final(self).has_node(v) == (old(self).has_node(v) && v != node),
            final(self).slots() == old(self).slots(),
            final(self).live_nodes() + (if old(self).has_node(node) {
                1int
            } else {
                0int
            }) == old(self).live_nodes(),
            forall|v: NodeId|
                #[trigger] final(self).out_neighbours(v) == if v == node {
                    Seq::<u32>::empty()
                } else {
                    drop_value(old(self).out_neighbours(v), node.0)
                },
            forall|v: NodeId|
                #[trigger] final(self).in_neighbours(v) == if v == node {
                    Seq::<u32>::empty()
                } else {
                    drop_value(old(self).in_neighbours(v), node.0)
                },
    {
        if node.0 as usize >= self.present.len() {
            proof {
                let n = self.present@.len() as int;
                assert(self.edge_map() =~= without_node(old(self).edge_map(), node));
                assert forall|v: NodeId| v != node implies #[trigger] self.out_neighbours(v)
                    == drop_value(old(self).out_neighbours(v), node.0) by {
                    if v.0 < n {
                        assert(list_ok(self.out_adj@[v.0 as int]@, n));
                    }
                }
                assert forall|v: NodeId| v != node implies #[trigger] self.in_neighbours(v)
                    == drop_value(old(self).in_neighbours(v), node.0) by {
                    if v.0 < n {
                        assert(list_ok(self.in_adj@[v.0 as int]@, n));
                    }
                }
            }
            return ;
        }
        self.detach_out(node);
        let ghost mid = *self;
        self.detach_in(node);
        let ghost n = self.present@.len() as int;
        let ghost cut = *self;
        proof {
            lemma_count_update(self.present@, node.0 as int, false);
        }
        self.present.set(node.0 as usize, false);
        proof {
            assert forall|k: u64| #[trigger] self.edges@.contains_key(k) implies {
                &&& key_source(k).0 < n
                &&& key_target(k).0 < n
                &&& self.edges@[k].source == key_source(k)
                &&& self.edges@[k].target == key_target(k)
                &&& self.present@[key_source(k).0 as int]
                &&& self.present@[key_target(k).0 as int]
            } by {
                assert(cut.edges@.contains_key(k));
            }
            assert(self.edge_map() =~= without_node(old(self).edge_map(), node)) by {
                assert forall|k: u64| #[trigger]
                    self.edge_map().contains_key(k) <==> without_node(
                        old(self).edge_map(),
                        node,
                    ).contains_key(k) by {
                    assert(mid.edges@.contains_key(k) <==> old(self).edges@.contains_key(k)
                        && key_source(k) != node);
                }
            }
            assert(drop_value(Seq::<u32>::empty(), node.0) =~= Seq::<u32>::empty());
            assert forall|v: NodeId|
                #[trigger] self.out_neighbours(v) == if v == node {
                    Seq::<u32>::empty()
                } else {
                    drop_value(old(self).out_neighbours(v), node.0)
                } by {
                assert(self.out_neighbours(v) == cut.out_neighbours(v));
                assert(cut.out_neighbours(v) == drop_value(mid.out_neighbours(v), node.0));
            }
            assert forall|v: NodeId|
                #[trigger] self.in_neighbours(v) == if v == node {
                    Seq::<u32>::empty()
                } else {
                    drop_value(old(self).in_neighbours(v), node.0)
                } by {
                assert(self.in_neighbours(v) == cut.in_neighbours(v));
                assert(mid.in_neighbours(v) == drop_value(old(self).in_neighbours(v), node.0));
            }
        }
    }

    /// Whether `v` is a node of the graph.
    pub fn contains_node(&self, v: NodeId) -> (r: bool)
        ensures
            r == self.has_node(v),
    {
        (v.0 as usize) < self.present.len() && self.present[v.0 as usize]
    }

    /// The edge from `s` to `t`, if there is one.
    pub fn edge(&self, s: NodeId, t: NodeId) -> (r: Option<&IntermediateEdge>)
        ensures
            match r {
                Some(e) => self.edge_map().contains_key(edge_key(s, t)) && e@
                    == self.edge_map()[edge_key(s, t)],
                None => !self.edge_map().contains_key(edge_key(s, t)),
            },
    {
        let k = make_key(s, t);
        self.edges.get(&k)
    }

    /// The targets of the edges that leave `v`.
    pub fn out_targets(&self, v: NodeId) -> (r: Vec<NodeId>)
        requires
            self.wf(),
        ensures
            r@ == as_nodes(self.out_neighbours(v)),
    {
        let mut out: Vec<NodeId> = Vec::new();
        if (v.0 as usize) < self.out_adj.len() {
            let list = &self.out_adj[v.0 as usize];
            let mut i: usize = 0;
            while i < list.len()
                invariant
                    i <= list@.len(),
                    out@ == as_nodes(list@.subrange(0, i as int)),
                decreases list@.len() - i,
            {
                out.push(NodeId(list[i]));
                i += 1;
                assert(out@ =~= as_nodes(list@.subrange(0, i as int)));
            }
            assert(list@.subrange(0, i as int) =~= list@);
        } else {
            assert(out@ =~= as_nodes(self.out_neighbours(v)));
        }
        out
    }

    /// The sources of the edges that enter `v`.
    pub fn in_sources(&self, v: NodeId) -> (r: Vec<NodeId>)
        requires
            self.wf(),
        ensures
            r@ == as_nodes(self.in_neighbours(v)),
    {
        let mut out: Vec<NodeId> = Vec::new();
        if (v.0 as usize) < self.in_adj.len() {
            let list = &self.in_adj[v.0 as usize];
            let mut i: usize = 0;
            while i < list.len()
                invariant
                    i <= list@.len(),
                    out@ == as_nodes(list@.subrange(0, i as int)),
                decreases list@.len() - i,
            {
                out.push(NodeId(list[i]));
                i += 1;
                assert(out@ =~= as_nodes(list@.subrange(0, i as int)));
            }
            assert(list@.subrange(0, i as int) =~= list@);
        } else {
            assert(out@ =~= as_nodes(self.in_neighbours(v)));
        }
        out
    }

    /// Number of edges that leave `v`.
    pub fn out_degree(&self, v: NodeId) -> (r: usize)
        requires
            self.wf(),
        ensures
            r == self.out_neighbours(v).len(),
    {
        if (v.0 as usize) < self.out_adj.len() {
            self.out_adj[v.0 as usize].len()
        } else {
            0
        }
    }

    /// Number of edges that enter `v`.
    pub fn in_degree(&self, v: NodeId) -> (r: usize)
        requires
            self.wf(),
        ensures
            r == self.in_neighbours(v).len(),
    {
        if (v.0 as usize) < self.in_adj.len() {
            self.in_adj[v.0 as usize].len()
        } else {
            0
        }
    }

    /// Number of edges.
    pub fn edge_count(&self) -> (r: usize)
        requires
            self.wf(),
        ensures
            r == self.edge_map().len(),
    {
        proof {
            assert(self.edge_map().dom() =~= self.edges@.dom());
        }
        self.edges.len()
    }

    /// Puts `edge` under the key of its endpoints unless an edge that is no
    /// longer lies there already.
    pub fn merge_edge(&mut self, edge: IntermediateEdge)
        requires
            old(self).wf(),
            edge.source.0 < u32::MAX,
            edge.target.0 < u32::MAX,
        ensures
            final(self).wf(),
            final(self).edge_map() == if old(self).edge_map().contains_key(
                edge_key(edge.source, edge.target),
            ) && old(self).edge_map()[edge_key(edge.source, edge.target)].weight <= edge.weight {
                old(self).edge_map()
            } else {
                old(self).edge_map().insert(edge_key(edge.source, edge.target), edge@)
            },
            forall|v: NodeId|
                final(self).has_node(v) == (old(self).has_node(v) || v == edge.source || v
                    == edge.target),
            forall|v: NodeId|
                v != edge.source ==> final(self).out_neighbours(v) == old(self).out_neighbours(v),
            forall|v: NodeId|
                v != edge.target ==> final(self).in_neighbours(v) == old(self).in_neighbours(v),
            final(self).out_neighbours(edge.source) == if old(self).edge_map().contains_key(
                edge_key(edge.source, edge.target),
            ) {
                old(self).out_neighbours(edge.source)
            } else {
                old(self).out_neighbours(edge.source).push(edge.target.0)
            },
            final(self).in_neighbours(edge.target) == if old(self).edge_map().contains_key(
                edge_key(edge.source, edge.target),
            ) {
                old(self).in_neighbours(edge.target)
            } else {
                old(self).in_neighbours(edge.target).push(edge.source.0)
            },
            final(self).slots() >= old(self).slots(),
            edge.source.0 < old(self).slots() && edge.target.0 < old(self).slots() ==> final(self).slots() == old(self).slots(),
            final(self).live_nodes() >= old(self).live_nodes(),
            old(self).has_node(edge.source) && old(self).has_node(edge.target) ==> final(self).live_nodes() == old(self).live_nodes(),
    {
        let k = make_key(edge.source, edge.target);
        let keep = match self.edges.get(&k) {
            Some(e) => e.weight <= edge.weight,
            None => false,
        };
        if keep {
            proof {
                lemma_edge_key(edge.source, edge.target);
                assert(self.edges@.contains_key(k));
            }
        } else {
            self.add_edge(edge);
        }
    }

    /// The shortcuts that bypassing `node` proposes, one for every pair of an
    /// edge into `node` and an edge out of it.
    #[verifier::rlimit(40)]
    fn collect_shortcuts(&self, node: NodeId) -> (r: Vec<IntermediateEdge>)
        requires
            self.wf(),
            node.0 < self.present@.len(),
        ensures
            forall|i: int|
                0 <= i < r@.len() ==> {
                    let k = edge_key((#[trigger] r@[i]).source, r@[i].target);
                    &&& has_shortcut(self.edge_map(), node, k)
                    &&& r@[i]@ == proposed(self.edge_map(), node, k)
                    &&& r@[i].source.0 < self.present@.len()
                    &&& r@[i].target.0 < self.present@.len()
                },
            forall|k: u64|
                has_shortcut(self.edge_map(), node, k) ==> covers(
                    r@,
                    key_source(k).0,
                    key_target(k).0,
                ),
            endpoints(r@) == pair_list(
                self.in_neighbours(node),
                self.out_neighbours(node),
                node.0,
            ),
    {
        let v = node.0 as usize;
        let ghost n = self.present@.len() as int;
        let ghost m = self.edge_map();
        let ghost parents = self.in_adj@[v as int]@;
        let ghost children = self.out_adj@[v as int]@;
        let mut out: Vec<IntermediateEdge> = Vec::new();
        let mut i: usize = 0;
        proof {
            assert(endpoints(out@) =~= Seq::<(u32, u32)>::empty());
            assert(parents.subrange(0, 0) =~= Seq::<u32>::empty());
        }
        while i < self.in_adj[v].len()
            invariant
                endpoints(out@) == pair_list(parents.subrange(0, i as int), children, node.0),
                self.wf(),
                v == node.0,
                v < n,
                n == self.present@.len(),
                m == self.edge_map(),
                parents == self.in_adj@[v as int]@,
                children == self.out_adj@[v as int]@,
                i <= parents.len(),
                forall|x: int|
                    0 <= x < out@.len() ==> {
                        let k = edge_key((#[trigger] out@[x]).source, out@[x].target);
                        &&& has_shortcut(m, node, k)
                        &&& out@[x]@ == proposed(m, node, k)
                        &&& out@[x].source.0 < n
                        &&& out@[x].target.0 < n
                    },
                forall|a: int, b: int|
                    0 <= a < i && 0 <= b < children.len() && parents[a] != children[b] && parents[a]
                        != node.0 && children[b] != node.0 ==> covers(
                        out@,
                        #[trigger] parents[a],
                        #[trigger] children[b],
                    ),
            decreases parents.len() - i,
        {
            let p = self.in_adj[v][i];
            let mut j: usize = 0;
            let ghost done = pair_list(parents.subrange(0, i as int), children, node.0);
            proof {
                assert(children.subrange(0, 0) =~= Seq::<u32>::empty());
                assert(done + Seq::<(u32, u32)>::empty() =~= done);
            }
            while j < self.out_adj[v].len()
                invariant
                    done == pair_list(parents.subrange(0, i as int), children, node.0),
                    endpoints(out@) == done + row(p, children.subrange(0, j as int), node.0),
                    self.wf(),
                    v == node.0,
                    v < n,
                    n == self.present@.len(),
                    m == self.edge_map(),
                    parents == self.in_adj@[v as int]@,
                    children == self.out_adj@[v as int]@,
                    i < parents.len(),
                    p == parents[i as int],
                    j <= children.len(),
                    forall|x: int|
                        0 <= x < out@.len() ==> {
                            let k = edge_key((#[trigger] out@[x]).source, out@[x].target);
                            &&& has_shortcut(m, node, k)
                            &&& out@[x]@ == proposed(m, node, k)
                            &&& out@[x].source.0 < n
                            &&& out@[x].target.0 < n
                        },
                    forall|a: int, b: int|
                        0 <= a < i && 0 <= b < children.len() && parents[a] != children[b]
                            && parents[a] != node.0 && children[b] != node.0 ==> covers(
                            out@,
                            #[trigger] parents[a],
                            #[trigger] children[b],
                        ),
                    forall|b: int|
                        0 <= b < j && p != children[b] && p != node.0 && children[b] != node.0
                            ==> covers(out@, p, #[trigger] children[b]),
                decreases children.len() - j,
            {
                let q = self.out_adj[v][j];
                proof {
                    assert(children.subrange(0, j + 1).drop_last() =~= children.subrange(0, j as int));
                    assert(children.subrange(0, j + 1).last() == q);
                }
                if p != q && p != node.0 && q != node.0 {
                    let ka = make_key(NodeId(p), node);
                    let kb = make_key(node, NodeId(q));
                    proof {
                        assert(list_ok(parents, n));
                        assert(list_ok(children, n));
                        assert(parents.contains(p));
                        assert(children.contains(q));
                        assert(self.in_adj@[v as int]@.contains(p) <==> self.edges@.contains_key(
                            edge_key(NodeId(p), NodeId(v as u32)),
                        ));
                        assert(self.out_adj@[v as int]@.contains(q) <==> self.edges@.contains_key(
                            edge_key(NodeId(v as u32), NodeId(q)),
                        ));
                        lemma_edge_key(NodeId(p), NodeId(q));
                    }
                    let a = self.edges.get(&ka);
                    let b = self.edges.get(&kb);
                    match (a, b) {
                        (Some(a), Some(b)) => {
                            let shortcut = make_shortcut(a, b);
                            proof {
                                lemma_covers_push(out@, shortcut);
                                let before = row(p, children.subrange(0, j as int), node.0);
                                assert(shortcut.source.0 == p && shortcut.target.0 == q);
                                assert(endpoints(out@.push(shortcut)) =~= endpoints(out@).push((p, q)));
                                assert((done + before).push((p, q)) =~= done + before.push((p, q)));
                            }
                            out.push(shortcut);
                        },
                        _ => {
                            assert(false);
                        },
                    }
                }
                j += 1;
            }
            proof {
                assert(children.subrange(0, j as int) =~= children);
                assert(parents.subrange(0, i + 1).drop_last() =~= parents.subrange(0, i as int));
                assert(parents.subrange(0, i + 1).last() == p);
            }
            i += 1;
        }
        proof {
            assert(parents.subrange(0, i as int) =~= parents);
            assert forall|k: u64| has_shortcut(m, node, k) implies covers(
                out@,
                key_source(k).0,
                key_target(k).0,
            ) by {
                let p = key_source(k);
                let q = key_target(k);
                self.lemma_wf();
                assert(self.in_neighbours(node).contains(p.0));
                assert(self.out_neighbours(node).contains(q.0));
                let a = choose|a: int| 0 <= a < parents.len() && parents[a] == p.0;
                let b = choose|b: int| 0 <= b < children.len() && children[b] == q.0;
                assert(covers(out@, parents[a], children[b]));
            }
        }
        out
    }

    /// Merges the shortcuts that bypassing `node` proposed into the graph
    /// from which `node` has been taken.
    #[verifier::rlimit(40)]
    fn apply_shortcuts(
        &mut self,
        shortcuts: Vec<IntermediateEdge>,
        node: NodeId,
        Ghost(m0): Ghost<Map<u64, EdgeView>>,
    )
        requires
            old(self).wf(),
            old(self).edge_map() == without_node(m0, node),
            forall|i: int|
                0 <= i < shortcuts@.len() ==> {
                    let k = edge_key((#[trigger] shortcuts@[i]).source, shortcuts@[i].target);
                    &&& has_shortcut(m0, node, k)
                    &&& shortcuts@[i]@ == proposed(m0, node, k)
                    &&& old(self).has_node(shortcuts@[i].source)
                    &&& old(self).has_node(shortcuts@[i].target)
                },
            forall|k: u64|
                has_shortcut(m0, node, k) ==> covers(shortcuts@, key_source(k).0, key_target(k).0),
        ensures
            final(self).wf(),
            final(self).edge_map() == bypass_map(m0, node),
            final(self).slots() == old(self).slots(),
            final(self).live_nodes() == old(self).live_nodes(),
            forall|x: NodeId| final(self).has_node(x) == old(self).has_node(x),
            forall|u: NodeId|
                (forall|i: int| 0 <= i < shortcuts@.len() ==> (#[trigger] shortcuts@[i]).source != u)
                    ==> final(self).out_neighbours(u) == old(self).out_neighbours(u),
            forall|u: NodeId|
                (forall|i: int| 0 <= i < shortcuts@.len() ==> (#[trigger] shortcuts@[i]).target != u)
                    ==> final(self).in_neighbours(u) == old(self).in_neighbours(u),
            forall|u: NodeId|
                #[trigger] final(self).out_neighbours(u) == grow_out(
                    old(self).out_neighbours(u),
                    endpoints(shortcuts@),
                    u.0,
                ),
            forall|u: NodeId|
                #[trigger] final(self).in_neighbours(u) == grow_in(
                    old(self).in_neighbours(u),
                    endpoints(shortcuts@),
                    u.0,
                ),
    {
        let mut shortcuts = shortcuts;
        let ghost m1 = self.edge_map();
        let ghost all = shortcuts@;
        let ghost mut done: Set<u64> = Set::empty();
        proof {
            self.lemma_wf();
            assert(all.subrange(all.len() as int, all.len() as int) =~= Seq::<IntermediateEdge>::empty());
            assert(endpoints(Seq::<IntermediateEdge>::empty()) =~= Seq::<(u32, u32)>::empty());
        }
        while shortcuts.len() > 0
            invariant
                forall|u: NodeId|
                    #[trigger] self.out_neighbours(u) == grow_out(
                        old(self).out_neighbours(u),
                        endpoints(all.subrange(shortcuts@.len() as int, all.len() as int)),
                        u.0,
                    ),
                forall|u: NodeId|
                    #[trigger] self.in_neighbours(u) == grow_in(
                        old(self).in_neighbours(u),
                        endpoints(all.subrange(shortcuts@.len() as int, all.len() as int)),
                        u.0,
                    ),
                self.wf(),
                old(self).wf(),
                m1 == without_node(m0, node),
                self.slots() == old(self).slots(),
                self.live_nodes() == old(self).live_nodes(),
                forall|x: NodeId| self.has_node(x) == old(self).has_node(x),
                forall|i: int|
                    0 <= i < all.len() ==> {
                        let k = edge_key((#[trigger] all[i]).source, all[i].target);
                        &&& has_shortcut(m0, node, k)
                        &&& all[i]@ == proposed(m0, node, k)
                        &&& old(self).has_node(all[i].source)
                        &&& old(self).has_node(all[i].target)
                    },
                shortcuts@.len() <= all.len(),
                shortcuts@ == all.subrange(0, shortcuts@.len() as int),
                forall|i: int|
                    shortcuts@.len() <= i < all.len() ==> done.contains(
                        edge_key((#[trigger] all[i]).source, all[i].target),
                    ),
                forall|k: u64| done.contains(k) ==> has_shortcut(m0, node, k),
                forall|k: u64|
                    #![trigger self.edge_map().contains_key(k)]
                    #![trigger m1.contains_key(k)]
                    #![trigger done.contains(k)]
                    (self.edge_map().contains_key(k) <==> (m1.contains_key(k) || done.contains(k))),
                forall|k: u64|
                    self.edge_map().contains_key(k) ==> self.edge_map()[k] == if done.contains(k) {
                        settled_edge(m0, node, k)
                    } else {
                        m1[k]
                    },
                forall|u: NodeId|
                    (forall|i: int| 0 <= i < all.len() ==> (#[trigger] all[i]).source != u)
                        ==> self.out_neighbours(u) == old(self).out_neighbours(u),
                forall|u: NodeId|
                    (forall|i: int| 0 <= i < all.len() ==> (#[trigger] all[i]).target != u)
                        ==> self.in_neighbours(u) == old(self).in_neighbours(u),
            decreases shortcuts@.len(),
        {
            let ghost before = self.edge_map();
            let ghost rest = shortcuts@.len() - 1;
            let shortcut = shortcuts.pop().unwrap();
            let ghost k = edge_key(shortcut.source, shortcut.target);
            proof {
                assert(shortcut == all[rest]);
                lemma_edge_key(shortcut.source, shortcut.target);
                self.lemma_wf();
                assert(self.has_node(shortcut.source));
                assert(self.has_node(shortcut.target));
            }
            let ghost sv = shortcut@;
            let ghost earlier = *self;
            self.merge_edge(shortcut);
            proof {
                let tail = endpoints(all.subrange(rest + 1, all.len() as int));
                let now = endpoints(all.subrange(rest, all.len() as int));
                assert(now.drop_first() =~= tail);
                assert(now[0] == (shortcut.source.0, shortcut.target.0));
                earlier.lemma_wf();
                assert forall|u: NodeId|
                    #[trigger] self.out_neighbours(u) == grow_out(
                        old(self).out_neighbours(u),
                        now,
                        u.0,
                    ) by {
                    assert(earlier.out_neighbours(u) == grow_out(old(self).out_neighbours(u), tail, u.0));
                    if u == shortcut.source {
                        assert(earlier.out_neighbours(shortcut.source).contains(shortcut.target.0)
                            <==> earlier.edge_map().contains_key(k));
                    } else {
                        assert(u.0 != shortcut.source.0);
                    }
                }
                assert forall|u: NodeId|
                    #[trigger] self.in_neighbours(u) == grow_in(old(self).in_neighbours(u), now, u.0) by {
                    assert(earlier.in_neighbours(u) == grow_in(old(self).in_neighbours(u), tail, u.0));
                    if u == shortcut.target {
                        assert(earlier.in_neighbours(shortcut.target).contains(shortcut.source.0)
                            <==> earlier.edge_map().contains_key(k));
                    } else {
                        assert(u.0 != shortcut.target.0);
                    }
                }
                let done0 = done;
                done = done.insert(k);
                assert(shortcuts@ =~= all.subrange(0, shortcuts@.len() as int));
                assert(key_source(k) != node && key_target(k) != node);
                assert(m1.contains_key(k) <==> m0.contains_key(k));
                assert(m1.contains_key(k) ==> m1[k] == m0[k]);
                assert(sv == proposed(m0, node, k));
                let kept = before.contains_key(k) && before[k].weight <= sv.weight;
                assert(self.edge_map() == if kept {
                    before
                } else {
                    before.insert(k, sv)
                });
                if done0.contains(k) {
                    assert(before[k] == settled_edge(m0, node, k));
                    assert(kept);
                } else {
                    assert(before.contains_key(k) <==> m0.contains_key(k));
                    assert(before.contains_key(k) ==> before[k] == m0[k]);
                }
                assert(self.edge_map()[k] == settled_edge(m0, node, k));
                assert forall|k2: u64|
                    #![trigger self.edge_map().contains_key(k2)]
                    #![trigger m1.contains_key(k2)]
                    #![trigger done.contains(k2)]
                    (self.edge_map().contains_key(k2) <==> (m1.contains_key(k2) || done.contains(
                        k2,
                    ))) by {
                    if k2 != k {
                        assert(done.contains(k2) == done0.contains(k2));
                        assert(self.edge_map().contains_key(k2) == before.contains_key(k2));
                        assert(before.contains_key(k2) <==> (m1.contains_key(k2) || done0.contains(k2)));
                    } else {
                        assert(self.edge_map().contains_key(k));
                        assert(done.contains(k));
                    }
                }
                assert forall|k2: u64|
                    self.edge_map().contains_key(k2) implies self.edge_map()[k2] == if done.contains(
                    k2,
                ) {
                    settled_edge(m0, node, k2)
                } else {
                    m1[k2]
                } by {
                    if k2 != k {
                        assert(before.contains_key(k2));
                        assert(self.edge_map()[k2] == before[k2]);
                        assert(done.contains(k2) == done0.contains(k2));
                    }
                }
            }
        }
        proof {
            assert forall|k: u64| has_shortcut(m0, node, k) implies done.contains(k) by {
                assert(covers(all, key_source(k).0, key_target(k).0));
                let i = choose|i: int|
                    0 <= i < all.len() && (#[trigger] all[i]).source.0 == key_source(k).0
                        && all[i].target.0 == key_target(k).0;
                lemma_key_decodes(k);
                assert(all[i].source == key_source(k));
                assert(all[i].target == key_target(k));
            }
            assert(all.subrange(0, all.len() as int) =~= all);
            let fin = self.edge_map();
            let want = bypass_map(m0, node);
            assert forall|k: u64| fin.contains_key(k) <==> want.contains_key(k) by {
                if done.contains(k) {
                    assert(has_shortcut(m0, node, k));
                }
            }
            assert forall|k: u64| fin.contains_key(k) implies fin[k] == want[k] by {
                if has_shortcut(m0, node, k) {
                    assert(done.contains(k));
                } else {
                    assert(!done.contains(k));
                    assert(m1.contains_key(k));
                }
            }
            assert(fin =~= want);
        }
    }

    /// Takes `node` out of the graph and joins every edge into it with every
    /// edge out of it by a shortcut, unless the shortcut would begin and end
    /// at one node. Where an edge lies between the two ends already, the
    /// shorter of the two stays, and the old one if they are equally long.
    /// Returns the nodes that had an edge into `node`, then those that had an
    /// edge from it.
    #[verifier::rlimit(40)]
    pub fn bypass(&mut self, node: NodeId) -> (touched: Vec<NodeId>)
        requires
            old(self).wf(),
        ensures
            final(self).wf(),
            final(self).edge_map() == bypass_map(old(self).edge_map(), node),
            forall|v: NodeId| final(self).has_node(v) == (old(self).has_node(v) && v != node),
            touched@ == as_nodes(old(self).in_neighbours(node) + old(self).out_neighbours(node)),
            final(self).slots() == old(self).slots(),
            final(self).live_nodes() + (if old(self).has_node(node) {
                1int
            } else {
                0int
            }) == old(self).live_nodes(),
            forall|u: NodeId|
                u != node && !old(self).in_neighbours(node).contains(u.0) && !old(self).out_neighbours(node).contains(u.0) ==> #[trigger] final(self).out_neighbours(u)
                    == old(self).out_neighbours(u),
            forall|u: NodeId|
                u != node && !old(self).in_neighbours(node).contains(u.0) && !old(self).out_neighbours(node).contains(u.0) ==> #[trigger] final(self).in_neighbours(u)
                    == old(self).in_neighbours(u),
            forall|u: NodeId|
                #[trigger] final(self).out_neighbours(u) == old(self).out_after_bypass(node, u),
            forall|u: NodeId|
                #[trigger] final(self).in_neighbours(u) == old(self).in_after_bypass(node, u),
    {
        let ghost m0 = self.edge_map();
        proof {
            self.lemma_wf();
        }
        if node.0 as usize >= self.present.len() {
            proof {
                assert(pair_list(self.in_neighbours(node), self.out_neighbours(node), node.0)
                    =~= Seq::<(u32, u32)>::empty());
                assert forall|u: NodeId|
                    #[trigger] self.out_neighbours(u) == self.out_after_bypass(node, u) by {
                    assert(list_ok(self.out_neighbours(u), self.slots()));
                    if self.out_neighbours(u).contains(node.0) {
                        let a = choose|a: int|
                            0 <= a < self.out_neighbours(u).len() && self.out_neighbours(u)[a]
                                == node.0;
                        assert(self.out_neighbours(u)[a] < self.slots());
                    }
                }
                assert forall|u: NodeId|
                    #[trigger] self.in_neighbours(u) == self.in_after_bypass(node, u) by {
                    assert(list_ok(self.in_neighbours(u), self.slots()));
                    if self.in_neighbours(u).contains(node.0) {
                        let a = choose|a: int|
                            0 <= a < self.in_neighbours(u).len() && self.in_neighbours(u)[a]
                                == node.0;
                        assert(self.in_neighbours(u)[a] < self.slots());
                    }
                }
                assert(self.in_neighbours(node) + self.out_neighbours(node) =~= Seq::<u32>::empty());
                assert(as_nodes(Seq::<u32>::empty()) =~= Seq::<NodeId>::empty());
                assert forall|k: u64| !has_shortcut(m0, node, k) by {
                    if m0.contains_key(edge_key(key_source(k), node)) {
                        lemma_edge_key(key_source(k), node);
                    }
                }
                assert forall|k: u64| m0.contains_key(k) implies key_source(k) != node
                    && key_target(k) != node by {}
                assert(bypass_map(m0, node) =~= m0);
            }
            return Vec::new();
        }
        let v = node.0 as usize;
        let mut touched: Vec<NodeId> = Vec::new();
        let mut i: usize = 0;
        while i < self.in_adj[v].len()
            invariant
                v < self.in_adj@.len(),
                i <= self.in_adj@[v as int]@.len(),
                touched@ == as_nodes(self.in_adj@[v as int]@.subrange(0, i as int)),
            decreases self.in_adj@[v as int]@.len() - i,
        {
            touched.push(NodeId(self.in_adj[v][i]));
            i += 1;
            assert(touched@ =~= as_nodes(self.in_adj@[v as int]@.subrange(0, i as int)));
        }
        let mut j: usize = 0;
        assert(self.in_adj@[v as int]@.subrange(0, i as int) =~= self.in_adj@[v as int]@);
        while j < self.out_adj[v].len()
            invariant
                v < self.out_adj@.len(),
                v < self.in_adj@.len(),
                j <= self.out_adj@[v as int]@.len(),
                touched@ == as_nodes(
                    self.in_adj@[v as int]@ + self.out_adj@[v as int]@.subrange(0, j as int),
                ),
            decreases self.out_adj@[v as int]@.len() - j,
        {
            touched.push(NodeId(self.out_adj[v][j]));
            j += 1;
            assert(touched@ =~= as_nodes(
                self.in_adj@[v as int]@ + self.out_adj@[v as int]@.subrange(0, j as int),
            ));
        }
        assert(self.out_adj@[v as int]@.subrange(0, j as int) =~= self.out_adj@[v as int]@);
        let shortcuts = self.collect_shortcuts(node);
        self.remove_node(node);
        let ghost cut = *self;
        proof {
            self.lemma_wf();
            old(self).lemma_wf();
            assert forall|i: int| 0 <= i < shortcuts@.len() implies self.has_node(
                (#[trigger] shortcuts@[i]).source,
            ) && self.has_node(shortcuts@[i].target) by {
                let e = shortcuts@[i];
                lemma_edge_key(e.source, e.target);
                lemma_edge_key(e.source, node);
                lemma_edge_key(node, e.target);
                assert(old(self).has_node(key_source(edge_key(e.source, node))));
                assert(old(self).has_node(key_target(edge_key(node, e.target))));
            }
        }
        self.apply_shortcuts(shortcuts, node, Ghost(m0));
        proof {
            assert forall|u: NodeId|
                u != node && !old(self).in_neighbours(node).contains(u.0) && !old(self).out_neighbours(node).contains(u.0) implies #[trigger] self.out_neighbours(u)
                == old(self).out_neighbours(u) by {
                assert(old(self).out_neighbours(u).contains(node.0) <==> m0.contains_key(
                    edge_key(u, node),
                ));
                assert(old(self).in_neighbours(node).contains(u.0) <==> m0.contains_key(
                    edge_key(u, node),
                ));
                assert(cut.out_neighbours(u) == drop_value(old(self).out_neighbours(u), node.0));
                assert forall|i: int| 0 <= i < shortcuts@.len() implies (
                #[trigger] shortcuts@[i]).source != u by {
                    let e = shortcuts@[i];
                    lemma_edge_key(e.source, e.target);
                }
            }
            assert forall|u: NodeId|
                u != node && !old(self).in_neighbours(node).contains(u.0) && !old(self).out_neighbours(node).contains(u.0) implies #[trigger] self.in_neighbours(u)
                == old(self).in_neighbours(u) by {
                assert(old(self).in_neighbours(u).contains(node.0) <==> m0.contains_key(
                    edge_key(node, u),
                ));
                assert(old(self).out_neighbours(node).contains(u.0) <==> m0.contains_key(
                    edge_key(node, u),
                ));
                assert(cut.in_neighbours(u) == drop_value(old(self).in_neighbours(u), node.0));
                assert forall|i: int| 0 <= i < shortcuts@.len() implies (
                #[trigger] shortcuts@[i]).target != u by {
                    let e = shortcuts@[i];
                    lemma_edge_key(e.source, e.target);
                }
            }
        }
        touched
    }

    /// The nodes of the graph, in ascending order.
    pub fn nodes(&self) -> (r: Vec<NodeId>)
        requires
            self.wf(),
        ensures
            forall|v: NodeId| r@.contains(v) <==> self.has_node(v),
            forall|i: int, j: int| 0 <= i < j < r@.len() ==> r@[i].0 < r@[j].0,
            r@.no_duplicates(),
    {
        let mut r: Vec<NodeId> = Vec::new();
        let mut i: usize = 0;
        while i < self.present.len()
            invariant
                self.wf(),
                i <= self.present@.len(),
                forall|v: NodeId| r@.contains(v) <==> (self.has_node(v) && v.0 < i),
                forall|a: int, b: int| 0 <= a < b < r@.len() ==> r@[a].0 < r@[b].0,
                forall|a: int| 0 <= a < r@.len() ==> (#[trigger] r@[a]).0 < i,
            decreases self.present@.len() - i,
        {
            if self.present[i] {
                let ghost before = r@;
                r.push(NodeId(i as u32));
                proof {
                    assert forall|v: NodeId| r@.contains(v) <==> (self.has_node(v) && v.0 < i + 1) by {
                        if before.contains(v) {
                            let a = choose|a: int| 0 <= a < before.len() && before[a] == v;
                            assert(r@[a] == v);
                        }
                        if v.0 == i {
                            assert(r@[r@.len() - 1] == v);
                        }
                    }
                }
            }
            i += 1;
        }
        r
    }

    /// No node has more neighbours on either side than the graph has met
    /// node ids.
    pub proof fn lemma_degree_bound(&self, v: NodeId)
        requires
            self.wf(),
        ensures
            self.out_neighbours(v).len() <= self.slots(),
            self.in_neighbours(v).len() <= self.slots(),
            self.slots() <= u32::MAX,
    {
        self.lemma_wf();
        assert(list_ok(self.out_neighbours(v), self.slots()));
        assert(list_ok(self.in_neighbours(v), self.slots()));
        lemma_list_len(self.out_neighbours(v), self.slots());
        lemma_list_len(self.in_neighbours(v), self.slots());
    }
}

} // verus!
