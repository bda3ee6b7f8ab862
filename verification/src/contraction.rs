//! Contraction of the intermediate graph to its core: nodes with few edges
//! are bypassed until none is left that qualifies.

use vstd::prelude::*;
use std::collections::HashSet;
use std::collections::VecDeque;
use crate::ids::NodeId;
use crate::intermediate::{as_nodes, bypass_map, IntermediateNetwork};
use crate::provenance::bypass_all;

verus! {

broadcast use vstd::std_specs::hash::group_hash_axioms;

/// The contraction factor, as the ratio of two whole numbers.
#[derive(Debug, Clone, Copy, PartialEq, Eq, Structural)]
pub struct ContractionFactor {
    pub numerator: u32,
    pub denominator: u32,
}

impl ContractionFactor {
    /// The ratio is defined and at least one.
    pub open spec fn wf(self) -> bool {
        0 < self.denominator <= self.numerator
    }

    /// The factor `numerator / denominator`, if that is a number and at
    /// least one.
    pub fn new(numerator: u32, denominator: u32) -> (r: Option<Self>)
        ensures
            r is Some <==> 0 < denominator <= numerator,
            r is Some ==> r->0 == (ContractionFactor { numerator, denominator }),
    {
        if denominator == 0 || numerator < denominator {
            None
        } else {
            Some(ContractionFactor { numerator, denominator })
        }
    }
}

/// The test of the contraction: a node with `out_degree` edges out and
/// `in_degree` edges in is bypassed when the number of shortcuts that this
/// may create is at most the factor times the number of edges that it
/// removes.
pub open spec fn should_bypass(out_degree: int, in_degree: int, c: ContractionFactor) -> bool {
    out_degree * in_degree * c.denominator <= c.numerator * (out_degree + in_degree)
}

/// Decides the test of the contraction.
pub fn test_bypass(out_degree: usize, in_degree: usize, c: ContractionFactor) -> (r: bool)
    requires
        out_degree <= u32::MAX,
        in_degree <= u32::MAX,
    ensures
        r == should_bypass(out_degree as int, in_degree as int, c),
{
    let o = out_degree as u128;
    let i = in_degree as u128;
    assert(o * i <= 0xFFFF_FFFF * 0xFFFF_FFFF) by (nonlinear_arith)
        requires
            o <= 0xFFFF_FFFF,
            i <= 0xFFFF_FFFF,
    ;
    let pairs = o * i;
    assert(pairs * (c.denominator as u128) <= 0xFFFF_FFFF * 0xFFFF_FFFF * 0xFFFF_FFFF)
        by (nonlinear_arith)
        requires
            pairs <= 0xFFFF_FFFF * 0xFFFF_FFFF,
            c.denominator <= 0xFFFF_FFFF,
    ;
    let short = pairs * (c.denominator as u128);
    assert((c.numerator as u128) * (o + i) <= 0xFFFF_FFFF * 0x1_FFFF_FFFE) by (nonlinear_arith)
        requires
            o + i <= 0x1_FFFF_FFFE,
            c.numerator <= 0xFFFF_FFFF,
    ;
    let cost = (c.numerator as u128) * (o + i);
    short <= cost
}

/// Whether the contraction bypasses `v` in `network`.
pub open spec fn bypassable(network: &IntermediateNetwork, v: NodeId, c: ContractionFactor) -> bool {
    should_bypass(
        network.out_neighbours(v).len() as int,
        network.in_neighbours(v).len() as int,
        c,
    )
}

/// Whether the contraction finds no node of `network` to bypass.
pub open spec fn is_contracted(network: &IntermediateNetwork, c: ContractionFactor) -> bool {
    forall|v: NodeId| network.has_node(v) ==> !bypassable(network, v, c)
}

/// `queue` with `x` at its end, unless it holds `x` already.
pub open spec fn push_new(queue: Seq<NodeId>, x: NodeId) -> Seq<NodeId> {
    if queue.contains(x) {
        queue
    } else {
        queue.push(x)
    }
}

/// `queue` after the items have been offered to its end one by one.
pub open spec fn push_all_new(queue: Seq<NodeId>, items: Seq<NodeId>) -> Seq<NodeId>
    decreases items.len(),
{
    if items.len() == 0 {
        queue
    } else {
        push_new(push_all_new(queue, items.drop_last()), items.last())
    }
}

/// A queue that holds no node twice.
pub struct HashNodeQueue {
    queue: VecDeque<NodeId>,
    seen: HashSet<u32>,
}

impl View for HashNodeQueue {
    type V = Seq<NodeId>;

    closed spec fn view(&self) -> Seq<NodeId> {
        self.queue@
    }
}

impl HashNodeQueue {
    /// The set of the waiting nodes agrees with the queue.
    pub closed spec fn wf(&self) -> bool {
        &&& self.queue@.no_duplicates()
        &&& forall|x: u32| self.seen@.contains(x) <==> self.queue@.contains(NodeId(x))
    }

    /// A queue never holds a node twice.
    pub proof fn lemma_distinct(&self)
        requires
            self.wf(),
        ensures
            self@.no_duplicates(),
    {
    }

    /// The empty queue.
    pub fn new() -> (r: Self)
        ensures
            r.wf(),
            r@ == Seq::<NodeId>::empty(),
    {
        HashNodeQueue { queue: VecDeque::new(), seen: HashSet::new() }
    }

    /// The queue of `items` in their order, each at its first place.
    pub fn from_vec(items: &Vec<NodeId>) -> (r: Self)
        ensures
            r.wf(),
            r@ == push_all_new(Seq::<NodeId>::empty(), items@),
    {
        let mut r = HashNodeQueue::new();
        let mut i: usize = 0;
        while i < items.len()
            invariant
                r.wf(),
                i <= items@.len(),
                r@ == push_all_new(Seq::<NodeId>::empty(), items@.subrange(0, i as int)),
            decreases items@.len() - i,
        {
            r.push_back(items[i]);
            proof {
                assert(items@.subrange(0, i + 1).drop_last() =~= items@.subrange(0, i as int));
            }
            i += 1;
        }
        assert(items@.subrange(0, i as int) =~= items@);
        r
    }

    /// The queue of `items` in their order, each at its first place.
    pub fn from_iter(items: Vec<NodeId>) -> (r: Self)
        ensures
            r.wf(),
            r@ == push_all_new(Seq::<NodeId>::empty(), items@),
    {
        HashNodeQueue::from_vec(&items)
    }

    /// Whether `value` waits in the queue.
    pub fn contains(&self, value: &NodeId) -> (r: bool)
        requires
            self.wf(),
        ensures
            r == self@.contains(*value),
    {
        self.seen.contains(&value.0)
    }

    /// Number of waiting nodes.
    pub fn len(&self) -> (r: usize)
        ensures
            r == self@.len(),
    {
        self.queue.len()
    }

    /// Takes the node at the front.
    pub fn pop_front(&mut self) -> (r: Option<NodeId>)
        requires
            old(self).wf(),
        ensures
            final(self).wf(),
            match r {
                Some(x) => old(self)@.len() > 0 && x == old(self)@[0] && final(self)@ == old(self)@.subrange(1, old(self)@.len() as int),
                None => old(self)@.len() == 0 && final(self)@ == old(self)@,
            },
    {
        let value = self.queue.pop_front();
        match value {
            Some(x) => {
                self.seen.remove(&x.0);
                proof {
                    let before = old(self).queue@;
                    let after = self.queue@;
                    assert forall|y: u32| self.seen@.contains(y) <==> after.contains(NodeId(y)) by {
                        if after.contains(NodeId(y)) {
                            let i = choose|i: int| 0 <= i < after.len() && after[i] == NodeId(y);
                            assert(before[i + 1] == NodeId(y));
                        }
                        if before.contains(NodeId(y)) && y != x.0 {
                            let i = choose|i: int| 0 <= i < before.len() && before[i] == NodeId(y);
                            assert(after[i - 1] == NodeId(y));
                        }
                    }
                }
                Some(x)
            },
            None => None,
        }
    }

    /// Puts `value` at the end unless it waits in the queue already.
    pub fn push_back(&mut self, value: NodeId)
        requires
            old(self).wf(),
        ensures
            final(self).wf(),
            final(self)@ == push_new(old(self)@, value),
    {
        if self.seen.insert(value.0) {
            self.queue.push_back(value);
            proof {
                let before = old(self).queue@;
                let after = self.queue@;
                assert forall|y: u32| self.seen@.contains(y) <==> after.contains(NodeId(y)) by {
                    if before.contains(NodeId(y)) {
                        let i = choose|i: int| 0 <= i < before.len() && before[i] == NodeId(y);
                        assert(after[i] == NodeId(y));
                    }
                    if y == value.0 {
                        assert(after[after.len() - 1] == NodeId(y));
                    }
                }
            }
        }
    }
}

/// Whether `outcome` is what bypassing the nodes of `order`, one after
/// another, makes of `origin`.
pub open spec fn contracts_to(
    origin: &IntermediateNetwork,
    order: Seq<NodeId>,
    outcome: &IntermediateNetwork,
) -> bool {
    &&& outcome.edge_map() == bypass_all(origin.edge_map(), order)
    &&& forall|x: NodeId| outcome.has_node(x) == (origin.has_node(x) && !order.contains(x))
    &&& forall|i: int| 0 <= i < order.len() ==> origin.has_node(#[trigger] order[i])
    &&& order.no_duplicates()
}

/// Whether `after` is `before` with the node `v` bypassed: its edges, its
/// nodes, and the order of its neighbour lists.
pub open spec fn bypass_step(
    before: &IntermediateNetwork,
    v: NodeId,
    after: &IntermediateNetwork,
) -> bool {
    &&& before.wf()
    &&& after.wf()
    &&& before.has_node(v)
    &&& after.edge_map() == bypass_map(before.edge_map(), v)
    &&& forall|x: NodeId| after.has_node(x) == (before.has_node(x) && x != v)
    &&& forall|u: NodeId| #[trigger] after.out_neighbours(u) == before.out_after_bypass(v, u)
    &&& forall|u: NodeId| #[trigger] after.in_neighbours(u) == before.in_after_bypass(v, u)
}

/// Whether the contraction bypasses the node at the front of `queue`.
pub open spec fn front_is_bypassed(
    net: &IntermediateNetwork,
    queue: Seq<NodeId>,
    c: ContractionFactor,
) -> bool {
    net.has_node(queue[0]) && bypassable(net, queue[0], c)
}

/// The queue once its front has been handled: the front leaves, and if it
/// was bypassed, the nodes that had an edge into it and then those that
/// had an edge from it join at the end, unless they wait already.
pub open spec fn queue_after(
    net: &IntermediateNetwork,
    queue: Seq<NodeId>,
    c: ContractionFactor,
) -> Seq<NodeId> {
    let rest = queue.subrange(1, queue.len() as int);
    if front_is_bypassed(net, queue, c) {
        push_all_new(rest, as_nodes(net.in_neighbours(queue[0]) + net.out_neighbours(queue[0])))
    } else {
        rest
    }
}

/// Whether handling the front of `queue` makes `after` of `before`.
pub open spec fn queue_step(
    before: &IntermediateNetwork,
    queue: Seq<NodeId>,
    c: ContractionFactor,
    after: &IntermediateNetwork,
) -> bool {
    if front_is_bypassed(before, queue, c) {
        bypass_step(before, queue[0], after)
    } else {
        *after == *before
    }
}

/// Whether `stages` and `queues` are the graphs and the queues that the
/// contraction goes through, one node after another, as far as they go.
pub open spec fn queue_trace(
    stages: Seq<IntermediateNetwork>,
    queues: Seq<Seq<NodeId>>,
    c: ContractionFactor,
) -> bool {
    &&& stages.len() == queues.len()
    &&& stages.len() >= 1
    &&& forall|i: int|
        #![trigger stages[i]]
        0 <= i < stages.len() - 1 ==> queues[i].len() > 0 && queue_step(
            &stages[i],
            queues[i],
            c,
            &stages[i + 1],
        ) && queues[i + 1] == queue_after(&stages[i], queues[i], c)
}

/// Whether `queue` lists the nodes of `net` in ascending order.
pub open spec fn lists_nodes(net: &IntermediateNetwork, queue: Seq<NodeId>) -> bool {
    &&& forall|v: NodeId| queue.contains(v) <==> net.has_node(v)
    &&& forall|i: int, j: int| 0 <= i < j < queue.len() ==> queue[i].0 < queue[j].0
}

/// Whether `core` is what is left of `origin` when its nodes have been
/// handled first in, first out, beginning with all of them in ascending
/// order, until none waits.
pub open spec fn queued_core_of(
    origin: &IntermediateNetwork,
    c: ContractionFactor,
    core: &IntermediateNetwork,
) -> bool {
    exists|stages: Seq<IntermediateNetwork>, queues: Seq<Seq<NodeId>>| #[trigger]
        queue_trace(stages, queues, c) && stages[0] == *origin && lists_nodes(origin, queues[0])
            && queues.last().len() == 0 && stages.last() == *core
}

/// Whether `states` are the graphs that a contraction went through while it
/// bypassed the nodes of `order`: every one of them passed the test of the
/// contraction in the graph that it was taken out of.
pub open spec fn contraction_trace(
    states: Seq<IntermediateNetwork>,
    order: Seq<NodeId>,
    c: ContractionFactor,
) -> bool {
    &&& states.len() == order.len() + 1
    &&& forall|i: int|
        0 <= i < order.len() ==> bypassable(&#[trigger] states[i], order[i], c) && bypass_step(
            &states[i],
            order[i],
            &states[i + 1],
        )
}

/// Whether `core` is what a contraction with the factor `c` makes of
/// `origin`: nodes are bypassed one after another, each while it passes the
/// test, until no node of the graph passes it; and they are taken first
/// in, first out.
pub open spec fn core_of(
    origin: &IntermediateNetwork,
    c: ContractionFactor,
    core: &IntermediateNetwork,
) -> bool {
    &&& is_contracted(core, c)
    &&& queued_core_of(origin, c, core)
    &&& exists|order: Seq<NodeId>, states: Seq<IntermediateNetwork>|
        {
            &&& contracts_to(origin, order, core)
            &&& #[trigger] contraction_trace(states, order, c)
            &&& states[0] == *origin
            &&& states[order.len() as int] == *core
        }
}

/// The nodes that a contraction bypassed, in their order.
pub proof fn lemma_core_order(
    origin: &IntermediateNetwork,
    c: ContractionFactor,
    core: &IntermediateNetwork,
) -> (order: Seq<NodeId>)
    requires
        core_of(origin, c, core),
    ensures
        contracts_to(origin, order, core),
{
    let (order, states) = choose|order: Seq<NodeId>, states: Seq<IntermediateNetwork>|
        {
            &&& contracts_to(origin, order, core)
            &&& #[trigger] contraction_trace(states, order, c)
            &&& states[0] == *origin
            &&& states[order.len() as int] == *core
        };
    order
}

/// A contraction leaves a graph alone in which no node passes the test.
pub proof fn lemma_contracted_stays(
    origin: &IntermediateNetwork,
    c: ContractionFactor,
    core: &IntermediateNetwork,
)
    requires
        is_contracted(origin, c),
        core_of(origin, c, core),
    ensures
        *core == *origin,
{
    let (order, states) = choose|order: Seq<NodeId>, states: Seq<IntermediateNetwork>|
        {
            &&& contracts_to(origin, order, core)
            &&& #[trigger] contraction_trace(states, order, c)
            &&& states[0] == *origin
            &&& states[order.len() as int] == *core
        };
    if order.len() > 0 {
        assert(bypassable(&states[0], order[0], c) && bypass_step(&states[0], order[0], &states[1]));
        assert(origin.has_node(order[0]));
    }
}

/// Contracting twice is contracting once: the second contraction of a
/// graph gives back the core that the first one made.
pub proof fn lemma_second_contraction_is_idle(
    origin: &IntermediateNetwork,
    c: ContractionFactor,
    first: &IntermediateNetwork,
    second: &IntermediateNetwork,
)
    requires
        core_of(origin, c, first),
        core_of(first, c, second),
    ensures
        *second == *first,
{
    lemma_contracted_stays(first, c, second);
}

/// A trace goes on by one step.
proof fn lemma_trace_grows(
    stages: Seq<IntermediateNetwork>,
    queues: Seq<Seq<NodeId>>,
    c: ContractionFactor,
    next: IntermediateNetwork,
    waiting: Seq<NodeId>,
)
    requires
        queue_trace(stages, queues, c),
        queues.last().len() > 0,
        queue_step(&stages.last(), queues.last(), c, &next),
        waiting == queue_after(&stages.last(), queues.last(), c),
    ensures
        queue_trace(stages.push(next), queues.push(waiting), c),
        stages.push(next)[0] == stages[0],
        queues.push(waiting)[0] == queues[0],
        stages.push(next).last() == next,
        queues.push(waiting).last() == waiting,
{
    let longer = stages.push(next);
    let lined = queues.push(waiting);
    assert forall|i: int|
        #![trigger longer[i]]
        #![trigger lined[i]]
        0 <= i < longer.len() - 1 implies lined[i].len() > 0 && queue_step(
        &longer[i],
        lined[i],
        c,
        &longer[i + 1],
    ) && lined[i + 1] == queue_after(&longer[i], lined[i], c) by {
        assert(longer[i] == stages[i]);
        assert(lined[i] == queues[i]);
        if i < stages.len() - 1 {
            assert(longer[i + 1] == stages[i + 1]);
            assert(lined[i + 1] == queues[i + 1]);
        } else {
            assert(stages[i] == stages.last());
            assert(queues[i] == queues.last());
            assert(longer[i + 1] == next);
            assert(lined[i + 1] == waiting);
        }
    }
    assert(longer.len() == lined.len());
}

/// Offering distinct nodes to an empty queue lines them up as they are.
proof fn lemma_push_all_distinct(items: Seq<NodeId>)
    requires
        items.no_duplicates(),
    ensures
        push_all_new(Seq::<NodeId>::empty(), items) == items,
    decreases items.len(),
{
    if items.len() > 0 {
        let head = items.drop_last();
        lemma_push_all_distinct(head);
        if head.contains(items.last()) {
            let a = choose|a: int| 0 <= a < head.len() && head[a] == items.last();
            assert(items[a] == items[items.len() - 1]);
        }
        assert(head.push(items.last()) =~= items);
    } else {
        assert(items =~= Seq::<NodeId>::empty());
    }
}

proof fn lemma_as_nodes_contains(list: Seq<u32>, v: NodeId)
    ensures
        as_nodes(list).contains(v) <==> list.contains(v.0),
{
    if list.contains(v.0) {
        let i = choose|i: int| 0 <= i < list.len() && list[i] == v.0;
        assert(as_nodes(list)[i] == v);
    }
    if as_nodes(list).contains(v) {
        let i = choose|i: int| 0 <= i < as_nodes(list).len() && as_nodes(list)[i] == v;
        assert(list[i] == v.0);
    }
}

fn enqueue_all(queue: &mut HashNodeQueue, items: &Vec<NodeId>)
    requires
        old(queue).wf(),
    ensures
        final(queue).wf(),
        final(queue)@ == push_all_new(old(queue)@, items@),
        forall|x: NodeId| final(queue)@.contains(x) <==> old(queue)@.contains(x) || items@.contains(x),
{
    let mut i: usize = 0;
    while i < items.len()
        invariant
            queue.wf(),
            i <= items@.len(),
            queue@ == push_all_new(old(queue)@, items@.subrange(0, i as int)),
        decreases items@.len() - i,
    {
        queue.push_back(items[i]);
        proof {
            assert(items@.subrange(0, i + 1).drop_last() =~= items@.subrange(0, i as int));
        }
        i += 1;
    }
    proof {
        assert(items@.subrange(0, i as int) =~= items@);
        lemma_push_all_new(old(queue)@, items@);
    }
}

/// Whether two graphs look alike: they have the same edges, the same
/// nodes, and the same neighbour lists in the same order.
pub open spec fn same_shape(a: &IntermediateNetwork, b: &IntermediateNetwork) -> bool {
    &&& a.edge_map() == b.edge_map()
    &&& forall|v: NodeId| a.has_node(v) == b.has_node(v)
    &&& forall|v: NodeId| #[trigger] a.out_neighbours(v) == b.out_neighbours(v)
    &&& forall|v: NodeId| #[trigger] a.in_neighbours(v) == b.in_neighbours(v)
}

/// Two ascending lists of the same nodes are one list.
proof fn lemma_ascending_lists_agree(p: Seq<NodeId>, q: Seq<NodeId>)
    requires
        forall|i: int, j: int| 0 <= i < j < p.len() ==> p[i].0 < p[j].0,
        forall|i: int, j: int| 0 <= i < j < q.len() ==> q[i].0 < q[j].0,
        forall|v: NodeId| p.contains(v) <==> q.contains(v),
    ensures
        p == q,
    decreases p.len(),
{
    if p.len() == 0 {
        if q.len() > 0 {
            assert(q.contains(q[0]));
        }
        assert(p =~= q);
    } else {
        let x = p.last();
        assert(p.contains(p[p.len() - 1]));
        let j = choose|j: int| 0 <= j < q.len() && q[j] == x;
        if j < q.len() - 1 {
            assert(q.contains(q[q.len() - 1]));
            let k = choose|k: int| 0 <= k < p.len() && p[k] == q.last();
            assert(q[j].0 < q[q.len() - 1].0);
            if k < p.len() - 1 {
                assert(p[k].0 < p[p.len() - 1].0);
            }
        }
        let ph = p.drop_last();
        let qh = q.drop_last();
        assert forall|v: NodeId| ph.contains(v) <==> qh.contains(v) by {
            if ph.contains(v) {
                let a = choose|a: int| 0 <= a < ph.len() && ph[a] == v;
                assert(p[a] == v);
                assert(p[a].0 < p[p.len() - 1].0);
                assert(p.contains(v));
                let b = choose|b: int| 0 <= b < q.len() && q[b] == v;
                assert(b < q.len() - 1);
                assert(qh[b] == v);
            }
            if qh.contains(v) {
                let b = choose|b: int| 0 <= b < qh.len() && qh[b] == v;
                assert(q[b] == v);
                assert(q[b].0 < q[q.len() - 1].0);
                assert(q.contains(v));
                let a = choose|a: int| 0 <= a < p.len() && p[a] == v;
                assert(a < p.len() - 1);
                assert(ph[a] == v);
            }
        }
        assert forall|i: int, j: int| 0 <= i < j < ph.len() implies ph[i].0 < ph[j].0 by {
            assert(ph[i] == p[i] && ph[j] == p[j]);
        }
        assert forall|i: int, j: int| 0 <= i < j < qh.len() implies qh[i].0 < qh[j].0 by {
            assert(qh[i] == q[i] && qh[j] == q[j]);
        }
        lemma_ascending_lists_agree(ph, qh);
        assert(p =~= ph.push(x));
        assert(q =~= qh.push(x));
    }
}

/// Handling the front of one queue in two graphs that look alike leaves
/// graphs that look alike, and one queue.
proof fn lemma_step_is_determined(
    a: &IntermediateNetwork,
    b: &IntermediateNetwork,
    queue: Seq<NodeId>,
    c: ContractionFactor,
    a_next: &IntermediateNetwork,
    b_next: &IntermediateNetwork,
)
    requires
        same_shape(a, b),
        queue.len() > 0,
        queue_step(a, queue, c, a_next),
        queue_step(b, queue, c, b_next),
    ensures
        same_shape(a_next, b_next),
        queue_after(a, queue, c) == queue_after(b, queue, c),
{
    let v = queue[0];
    assert(a.out_neighbours(v) == b.out_neighbours(v));
    assert(a.in_neighbours(v) == b.in_neighbours(v));
    assert(front_is_bypassed(a, queue, c) == front_is_bypassed(b, queue, c));
    if front_is_bypassed(a, queue, c) {
        assert forall|u: NodeId| #[trigger] a_next.out_neighbours(u) == b_next.out_neighbours(u) by {
            assert(a.out_neighbours(u) == b.out_neighbours(u));
            assert(a_next.out_neighbours(u) == a.out_after_bypass(v, u));
            assert(b_next.out_neighbours(u) == b.out_after_bypass(v, u));
        }
        assert forall|u: NodeId| #[trigger] a_next.in_neighbours(u) == b_next.in_neighbours(u) by {
            assert(a.in_neighbours(u) == b.in_neighbours(u));
            assert(a_next.in_neighbours(u) == a.in_after_bypass(v, u));
            assert(b_next.in_neighbours(u) == b.in_after_bypass(v, u));
        }
    }
}

/// Two contractions that begin with graphs that look alike and with one
/// queue agree as far as both go.
proof fn lemma_traces_agree(
    stages_a: Seq<IntermediateNetwork>,
    queues_a: Seq<Seq<NodeId>>,
    stages_b: Seq<IntermediateNetwork>,
    queues_b: Seq<Seq<NodeId>>,
    c: ContractionFactor,
    i: int,
)
    requires
        queue_trace(stages_a, queues_a, c),
        queue_trace(stages_b, queues_b, c),
        same_shape(&stages_a[0], &stages_b[0]),
        queues_a[0] == queues_b[0],
        0 <= i < stages_a.len(),
        i < stages_b.len(),
    ensures
        same_shape(&stages_a[i], &stages_b[i]),
        queues_a[i] == queues_b[i],
    decreases i,
{
    if i > 0 {
        lemma_traces_agree(stages_a, queues_a, stages_b, queues_b, c, i - 1);
        let a = stages_a[i - 1];
        let b = stages_b[i - 1];
        assert(stages_a[i - 1 + 1] == stages_a[i]);
        assert(stages_b[i - 1 + 1] == stages_b[i]);
        lemma_step_is_determined(&a, &b, queues_a[i - 1], c, &stages_a[i], &stages_b[i]);
    }
}

/// The contraction is determined: two contractions of graphs that look
/// alike, with the same factor, make cores that look alike.
pub proof fn lemma_core_is_determined(
    a: &IntermediateNetwork,
    b: &IntermediateNetwork,
    c: ContractionFactor,
    core_a: &IntermediateNetwork,
    core_b: &IntermediateNetwork,
)
    requires
        same_shape(a, b),
        core_of(a, c, core_a),
        core_of(b, c, core_b),
    ensures
        same_shape(core_a, core_b),
{
    let (stages_a, queues_a) = choose|stages: Seq<IntermediateNetwork>, queues: Seq<Seq<NodeId>>| #[trigger]
        queue_trace(stages, queues, c) && stages[0] == *a && lists_nodes(a, queues[0])
            && queues.last().len() == 0 && stages.last() == *core_a;
    let (stages_b, queues_b) = choose|stages: Seq<IntermediateNetwork>, queues: Seq<Seq<NodeId>>| #[trigger]
        queue_trace(stages, queues, c) && stages[0] == *b && lists_nodes(b, queues[0])
            && queues.last().len() == 0 && stages.last() == *core_b;
    lemma_ascending_lists_agree(queues_a[0], queues_b[0]);
    let n = stages_a.len() as int;
    let m = stages_b.len() as int;
    if n < m {
        lemma_traces_agree(stages_a, queues_a, stages_b, queues_b, c, n - 1);
        assert(stages_b[n - 1] == stages_b[n - 1]);
        assert(queues_b[n - 1].len() > 0);
    } else if m < n {
        lemma_traces_agree(stages_a, queues_a, stages_b, queues_b, c, m - 1);
        assert(stages_a[m - 1] == stages_a[m - 1]);
        assert(queues_a[m - 1].len() > 0);
    } else {
        lemma_traces_agree(stages_a, queues_a, stages_b, queues_b, c, n - 1);
    }
}

/// What the contraction knows while it works on `network` with the nodes
/// of `waiting` in its queue: how it came here from `origin`, and that no
/// node outside the queue passes the test.
#[verifier::opaque]
pub open spec fn progress(
    origin: &IntermediateNetwork,
    c: ContractionFactor,
    network: &IntermediateNetwork,
    waiting: Seq<NodeId>,
    order: Seq<NodeId>,
    states: Seq<IntermediateNetwork>,
    stages: Seq<IntermediateNetwork>,
    queues: Seq<Seq<NodeId>>,
) -> bool {
    &&& queue_trace(stages, queues, c)
    &&& stages[0] == *origin
    &&& lists_nodes(origin, queues[0])
    &&& stages.last() == *network
    &&& queues.last() == waiting
    &&& waiting.no_duplicates()
    &&& network.wf()
    &&& origin.wf()
    &&& contracts_to(origin, order, network)
    &&& contraction_trace(states, order, c)
    &&& states[0] == *origin
    &&& states[order.len() as int] == *network
    &&& idle_outside(network, waiting, c)
    &&& is_contracted(origin, c) ==> *network == *origin
}

/// The contraction begins with all nodes in its queue.
proof fn lemma_progress_begins(origin: &IntermediateNetwork, c: ContractionFactor, waiting: Seq<NodeId>)
    requires
        origin.wf(),
        lists_nodes(origin, waiting),
        waiting.no_duplicates(),
    ensures
        progress(
            origin,
            c,
            origin,
            waiting,
            Seq::<NodeId>::empty(),
            seq![*origin],
            seq![*origin],
            seq![waiting],
        ),
{
    reveal(progress);
    let none = Seq::<NodeId>::empty();
    assert(bypass_all(origin.edge_map(), none) == origin.edge_map());
}

/// The queue without its front holds what the queue held, but the front.
proof fn lemma_rest(waiting: Seq<NodeId>)
    requires
        waiting.len() > 0,
        waiting.no_duplicates(),
    ensures
        waiting.subrange(1, waiting.len() as int).no_duplicates(),
        forall|x: NodeId|
            waiting.subrange(1, waiting.len() as int).contains(x) <==> (waiting.contains(x) && x
                != waiting[0]),
{
    let rest = waiting.subrange(1, waiting.len() as int);
    assert forall|x: NodeId| rest.contains(x) <==> (waiting.contains(x) && x != waiting[0]) by {
        if rest.contains(x) {
            let a = choose|a: int| 0 <= a < rest.len() && rest[a] == x;
            assert(waiting[a + 1] == x);
        }
        if waiting.contains(x) && x != waiting[0] {
            let a = choose|a: int| 0 <= a < waiting.len() && waiting[a] == x;
            assert(rest[a - 1] == x);
        }
    }
}

/// The contraction passes over the front of its queue.
proof fn lemma_progress_passes(
    origin: &IntermediateNetwork,
    c: ContractionFactor,
    network: &IntermediateNetwork,
    waiting: Seq<NodeId>,
    order: Seq<NodeId>,
    states: Seq<IntermediateNetwork>,
    stages: Seq<IntermediateNetwork>,
    queues: Seq<Seq<NodeId>>,
)
    requires
        progress(origin, c, network, waiting, order, states, stages, queues),
        waiting.len() > 0,
        !front_is_bypassed(network, waiting, c),
    ensures
        progress(
            origin,
            c,
            network,
            waiting.subrange(1, waiting.len() as int),
            order,
            states,
            stages.push(*network),
            queues.push(waiting.subrange(1, waiting.len() as int)),
        ),
{
    reveal(progress);
    lemma_rest(waiting);
    lemma_trace_grows(stages, queues, c, *network, waiting.subrange(1, waiting.len() as int));
}

/// Whether no node of `network` outside `waiting` passes the test.
pub open spec fn idle_outside(
    network: &IntermediateNetwork,
    waiting: Seq<NodeId>,
    c: ContractionFactor,
) -> bool {
    forall|v: NodeId| network.has_node(v) && !waiting.contains(v) ==> !bypassable(network, v, c)
}

/// One more bypass lengthens the list of the bypassed nodes.
proof fn lemma_order_grows(
    origin: &IntermediateNetwork,
    before: &IntermediateNetwork,
    after: &IntermediateNetwork,
    node: NodeId,
    order: Seq<NodeId>,
)
    requires
        contracts_to(origin, order, before),
        before.has_node(node),
        after.edge_map() == bypass_map(before.edge_map(), node),
        forall|x: NodeId| after.has_node(x) == (before.has_node(x) && x != node),
    ensures
        contracts_to(origin, order.push(node), after),
{
    let next = order.push(node);
    assert(next.drop_last() =~= order);
    assert(next.last() == node);
    assert forall|x: NodeId| after.has_node(x) == (origin.has_node(x) && !next.contains(x)) by {
        if order.contains(x) {
            let a = choose|a: int| 0 <= a < order.len() && order[a] == x;
            assert(next[a] == x);
        }
        if next.contains(x) && x != node {
            let a = choose|a: int| 0 <= a < next.len() && next[a] == x;
            assert(order[a] == x);
        }
        assert(next[next.len() - 1] == node);
    }
    assert(!order.contains(node));
    assert forall|i: int| 0 <= i < next.len() implies origin.has_node(#[trigger] next[i]) by {
        if i < order.len() {
            assert(next[i] == order[i]);
        }
    }
    assert forall|i: int, j: int| 0 <= i < next.len() && 0 <= j < next.len() && i != j implies next[i]
        != next[j] by {
        if i < order.len() && j < order.len() {
            assert(next[i] == order[i] && next[j] == order[j]);
        } else if i < order.len() {
            assert(next[i] == order[i]);
            assert(order.contains(order[i]));
        } else {
            assert(next[j] == order[j]);
            assert(order.contains(order[j]));
        }
    }
}

/// One more bypass of a node that passes the test lengthens the list of
/// the graphs that the contraction went through.
proof fn lemma_states_grow(
    states: Seq<IntermediateNetwork>,
    order: Seq<NodeId>,
    c: ContractionFactor,
    after: IntermediateNetwork,
    node: NodeId,
)
    requires
        contraction_trace(states, order, c),
        bypassable(&states[order.len() as int], node, c),
        bypass_step(&states[order.len() as int], node, &after),
    ensures
        contraction_trace(states.push(after), order.push(node), c),
        states.push(after)[0] == states[0],
        states.push(after)[order.push(node).len() as int] == after,
{
    let next = order.push(node);
    let grown = states.push(after);
    assert forall|i: int| 0 <= i < next.len() implies bypassable(&#[trigger] grown[i], next[i], c)
        && bypass_step(&grown[i], next[i], &grown[i + 1]) by {
        assert(grown[i] == states[i]);
        if i < order.len() {
            assert(grown[i + 1] == states[i + 1]);
            assert(next[i] == order[i]);
        } else {
            assert(grown[i + 1] == after);
            assert(next[i] == node);
        }
    }
}

/// After a bypass, no node outside the new queue passes the test: the
/// nodes whose edges changed have joined the queue.
proof fn lemma_idle_after(
    before: &IntermediateNetwork,
    after: &IntermediateNetwork,
    waiting: Seq<NodeId>,
    c: ContractionFactor,
)
    requires
        waiting.len() > 0,
        waiting.no_duplicates(),
        idle_outside(before, waiting, c),
        front_is_bypassed(before, waiting, c),
        forall|x: NodeId| after.has_node(x) == (before.has_node(x) && x != waiting[0]),
        forall|u: NodeId|
            u != waiting[0] && !before.in_neighbours(waiting[0]).contains(u.0)
                && !before.out_neighbours(waiting[0]).contains(u.0) ==> #[trigger] after.out_neighbours(
                u,
            ) == before.out_neighbours(u),
        forall|u: NodeId|
            u != waiting[0] && !before.in_neighbours(waiting[0]).contains(u.0)
                && !before.out_neighbours(waiting[0]).contains(u.0) ==> #[trigger] after.in_neighbours(
                u,
            ) == before.in_neighbours(u),
    ensures
        idle_outside(after, queue_after(before, waiting, c), c),
        queue_after(before, waiting, c).no_duplicates(),
{
    let node = waiting[0];
    let rest = waiting.subrange(1, waiting.len() as int);
    let joined = before.in_neighbours(node) + before.out_neighbours(node);
    let lined = queue_after(before, waiting, c);
    lemma_rest(waiting);
    lemma_push_all_new(rest, as_nodes(joined));
    lemma_push_all_distinct_more(rest, as_nodes(joined));
    assert forall|v: NodeId| after.has_node(v) && !lined.contains(v) implies !bypassable(
        after,
        v,
        c,
    ) by {
        lemma_as_nodes_contains(joined, v);
        if before.in_neighbours(node).contains(v.0) {
            let a = choose|a: int|
                0 <= a < before.in_neighbours(node).len() && before.in_neighbours(node)[a] == v.0;
            assert(joined[a] == v.0);
        }
        if before.out_neighbours(node).contains(v.0) {
            let a = choose|a: int|
                0 <= a < before.out_neighbours(node).len() && before.out_neighbours(node)[a] == v.0;
            assert(joined[before.in_neighbours(node).len() + a] == v.0);
        }
        assert(after.out_neighbours(v) == before.out_neighbours(v));
        assert(after.in_neighbours(v) == before.in_neighbours(v));
        assert(!waiting.contains(v));
        assert(!bypassable(before, v, c));
    }
}

/// The contraction bypasses the front of its queue.
proof fn lemma_progress_bypasses(
    origin: &IntermediateNetwork,
    c: ContractionFactor,
    before: &IntermediateNetwork,
    after: &IntermediateNetwork,
    waiting: Seq<NodeId>,
    order: Seq<NodeId>,
    states: Seq<IntermediateNetwork>,
    stages: Seq<IntermediateNetwork>,
    queues: Seq<Seq<NodeId>>,
)
    requires
        progress(origin, c, before, waiting, order, states, stages, queues),
        waiting.len() > 0,
        front_is_bypassed(before, waiting, c),
        bypass_step(before, waiting[0], after),
        forall|u: NodeId|
            u != waiting[0] && !before.in_neighbours(waiting[0]).contains(u.0)
                && !before.out_neighbours(waiting[0]).contains(u.0) ==> #[trigger] after.out_neighbours(
                u,
            ) == before.out_neighbours(u),
        forall|u: NodeId|
            u != waiting[0] && !before.in_neighbours(waiting[0]).contains(u.0)
                && !before.out_neighbours(waiting[0]).contains(u.0) ==> #[trigger] after.in_neighbours(
                u,
            ) == before.in_neighbours(u),
    ensures
        progress(
            origin,
            c,
            after,
            queue_after(before, waiting, c),
            order.push(waiting[0]),
            states.push(*after),
            stages.push(*after),
            queues.push(queue_after(before, waiting, c)),
        ),
{
    reveal(progress);
    let node = waiting[0];
    let lined = queue_after(before, waiting, c);
    lemma_trace_grows(stages, queues, c, *after, lined);
    lemma_order_grows(origin, before, after, node, order);
    lemma_states_grow(states, order, c, *after, node);
    lemma_idle_after(before, after, waiting, c);
    if is_contracted(origin, c) {
        assert(*before == *origin);
        assert(origin.has_node(node) && bypassable(origin, node, c));
    }
}

/// Once the queue is empty, the contraction has made the core.
proof fn lemma_progress_ends(
    origin: &IntermediateNetwork,
    c: ContractionFactor,
    network: &IntermediateNetwork,
    waiting: Seq<NodeId>,
    order: Seq<NodeId>,
    states: Seq<IntermediateNetwork>,
    stages: Seq<IntermediateNetwork>,
    queues: Seq<Seq<NodeId>>,
)
    requires
        progress(origin, c, network, waiting, order, states, stages, queues),
        waiting.len() == 0,
    ensures
        core_of(origin, c, network),
        is_contracted(origin, c) ==> *network == *origin,
{
    reveal(progress);
    assert forall|v: NodeId| network.has_node(v) implies !bypassable(network, v, c) by {
        assert(!waiting.contains(v));
    }
    assert(queue_trace(stages, queues, c) && stages[0] == *origin && lists_nodes(origin, queues[0])
        && queues.last().len() == 0 && stages.last() == *network);
    assert(contracts_to(origin, order, network) && contraction_trace(states, order, c) && states[0]
        == *origin && states[order.len() as int] == *network);
}

/// Contracts `intermediate_network` to its core. Every node waits in a
/// queue, in ascending order at first. The node at the front is bypassed if
/// it passes the test of the contraction, and the nodes that its bypass
/// touched are queued again. The work ends when the queue is empty: then no
/// node of the graph passes the test.
pub fn core_network_with_patch(
    intermediate_network: IntermediateNetwork,
    contraction_factor: ContractionFactor,
) -> (r: IntermediateNetwork)
    requires
        intermediate_network.wf(),
    ensures
        r.wf(),
        core_of(&intermediate_network, contraction_factor, &r),
        is_contracted(&intermediate_network, contraction_factor) ==> r == intermediate_network,
{
    let ghost origin = intermediate_network;
    let mut network = intermediate_network;
    let nodes = network.nodes();
    let mut queue = HashNodeQueue::from_vec(&nodes);
    let ghost mut order: Seq<NodeId> = Seq::empty();
    let ghost mut states: Seq<IntermediateNetwork> = seq![origin];
    let ghost mut stages: Seq<IntermediateNetwork> = seq![origin];
    let ghost mut queues: Seq<Seq<NodeId>> = seq![queue@];
    proof {
        lemma_push_all_distinct(nodes@);
        lemma_progress_begins(&origin, contraction_factor, queue@);
    }
    while queue.len() > 0
        invariant
            progress(&origin, contraction_factor, &network, queue@, order, states, stages, queues),
            network.wf(),
            queue.wf(),
        decreases network.live_nodes(), queue@.len(),
    {
        let ghost waiting = queue@;
        let node = queue.pop_front().unwrap();
        let mut bypassed = false;
        if network.contains_node(node) {
            let out_edges = network.out_degree(node);
            let in_edges = network.in_degree(node);
            proof {
                network.lemma_degree_bound(node);
            }
            bypassed = test_bypass(out_edges, in_edges, contraction_factor);
        }
        if bypassed {
            let ghost before = network;
            let touched = network.bypass(node);
            enqueue_all(&mut queue, &touched);
            proof {
                lemma_progress_bypasses(
                    &origin,
                    contraction_factor,
                    &before,
                    &network,
                    waiting,
                    order,
                    states,
                    stages,
                    queues,
                );
                order = order.push(node);
                states = states.push(network);
                stages = stages.push(network);
                queues = queues.push(queue@);
            }
        } else {
            proof {
                lemma_progress_passes(
                    &origin,
                    contraction_factor,
                    &network,
                    waiting,
                    order,
                    states,
                    stages,
                    queues,
                );
                stages = stages.push(network);
                queues = queues.push(queue@);
            }
        }
    }
    proof {
        lemma_progress_ends(
            &origin,
            contraction_factor,
            &network,
            queue@,
            order,
            states,
            stages,
            queues,
        );
    }
    network
}

/// Offering nodes to a queue of distinct nodes leaves its nodes distinct.
proof fn lemma_push_all_distinct_more(queue: Seq<NodeId>, items: Seq<NodeId>)
    requires
        queue.no_duplicates(),
    ensures
        push_all_new(queue, items).no_duplicates(),
    decreases items.len(),
{
    if items.len() > 0 {
        lemma_push_all_distinct_more(queue, items.drop_last());
        let mid = push_all_new(queue, items.drop_last());
        if !mid.contains(items.last()) {
            let out = mid.push(items.last());
            assert forall|i: int, j: int| 0 <= i < out.len() && 0 <= j < out.len() && i != j implies out[i]
                != out[j] by {
                if i < mid.len() && j < mid.len() {
                    assert(out[i] == mid[i] && out[j] == mid[j]);
                } else if i < mid.len() {
                    assert(out[i] == mid[i]);
                    assert(mid.contains(mid[i]));
                } else {
                    assert(out[j] == mid[j]);
                    assert(mid.contains(mid[j]));
                }
            }
        }
    }
}

proof fn lemma_push_all_new(queue: Seq<NodeId>, items: Seq<NodeId>)
    ensures
        forall|x: NodeId|
            push_all_new(queue, items).contains(x) <==> queue.contains(x) || items.contains(x),
    decreases items.len(),
{
    if items.len() > 0 {
        let head = items.drop_last();
        lemma_push_all_new(queue, head);
        let mid = push_all_new(queue, head);
        assert forall|x: NodeId|
            push_all_new(queue, items).contains(x) <==> queue.contains(x) || items.contains(x) by {
            if head.contains(x) {
                let a = choose|a: int| 0 <= a < head.len() && head[a] == x;
                assert(items[a] == x);
            }
            if items.contains(x) {
                let a = choose|a: int| 0 <= a < items.len() && items[a] == x;
                if a < head.len() {
                    assert(head[a] == x);
                }
            }
            if mid.contains(x) {
                let a = choose|a: int| 0 <= a < mid.len() && mid[a] == x;
                assert(push_new(mid, items.last())[a] == x);
            }
            if x == items.last() {
                assert(items[items.len() - 1] == x);
                if !mid.contains(x) {
                    assert(mid.push(x)[mid.len() as int] == x);
                }
            }
        }
    }
}

} // verus!
