//! The queue of the restricted search: entries wait by distance and node,
//! and all entries that reach one node at one distance leave together.

use vstd::prelude::*;
use std::collections::HashMap;
use crate::ids::{EdgeId, NodeId};

verus! {

broadcast use vstd::std_specs::hash::group_hash_axioms;

/// The edge over which an entry reached its node.
#[derive(Debug, Clone, Copy, PartialEq, Eq, Structural)]
pub struct ParentEntry {
    pub parent: NodeId,
    pub parent_edge: EdgeId,
    pub parent_edge_distance: u32,
    /// Whether the search was still active at the parent.
    pub active: bool,
}

/// An entry of the queue: a node, the distance at which it was reached, and
/// the edge over which it was reached.
#[derive(Debug, Clone, Copy, PartialEq, Eq, Structural)]
pub struct DijkstraNodeState {
    pub distance: u64,
    pub current: NodeId,
    pub parent: ParentEntry,
}

/// One parent of a settled node: the parent, the edge from it, and the
/// weight of that edge. The source of the search is its own parent, over no
/// edge.
#[derive(Debug, Clone, Copy, PartialEq, Eq, Structural)]
pub struct ParentLink {
    pub parent: NodeId,
    pub edge: Option<EdgeId>,
    pub weight: u32,
}

/// What the search knows of a settled node. A reference distance of `None`
/// is not yet fixed and counts as larger than any number.
#[derive(Debug, Clone, PartialEq, Eq)]
pub struct VisitedState {
    pub border_distance: u64,
    pub reference_distance: Option<u64>,
    pub distance: u64,
    pub parents: Vec<ParentLink>,
}

/// What leaves the queue in one step: the entries that reach one node at
/// one distance, merged.
#[derive(Debug, Clone, PartialEq, Eq)]
pub struct HighwayQueueEntry {
    /// The last of the merged entries.
    pub state: DijkstraNodeState,
    /// One link for every parent among the merged entries.
    pub parents: Vec<ParentLink>,
    /// The largest border distance of a parent.
    pub border_distance: u64,
    /// The largest reference distance of a parent.
    pub reference_distance: Option<u64>,
    /// Whether one of the merged entries was active.
    pub parent_active: bool,
}

/// The key by which entries wait: distance first, node second.
pub open spec fn key_of(e: DijkstraNodeState) -> (u64, u32) {
    (e.distance, e.current.0)
}

/// Whether key `a` comes before key `b`.
pub open spec fn key_less(a: (u64, u32), b: (u64, u32)) -> bool {
    a.0 < b.0 || (a.0 == b.0 && a.1 < b.1)
}

/// Whether the node of `e` is not settled yet.
pub open spec fn is_live(visited: Map<u32, VisitedState>, e: DijkstraNodeState) -> bool {
    !visited.contains_key(e.current.0)
}

/// Whether `k` is the least key of an entry whose node is not settled.
pub open spec fn least_live(
    heap: Seq<DijkstraNodeState>,
    visited: Map<u32, VisitedState>,
    k: (u64, u32),
) -> bool {
    &&& exists|i: int| 0 <= i < heap.len() && is_live(visited, #[trigger] heap[i]) && key_of(heap[i]) == k
    &&& forall|i: int|
        0 <= i < heap.len() && is_live(visited, #[trigger] heap[i]) ==> !key_less(key_of(heap[i]), k)
}

/// Whether some entry waits for a node that is not settled.
pub open spec fn has_live(heap: Seq<DijkstraNodeState>, visited: Map<u32, VisitedState>) -> bool {
    exists|i: int| 0 <= i < heap.len() && is_live(visited, #[trigger] heap[i])
}

/// The entries whose key comes after `k`, in their order.
pub open spec fn kept(heap: Seq<DijkstraNodeState>, k: (u64, u32)) -> Seq<DijkstraNodeState>
    decreases heap.len(),
{
    if heap.len() == 0 {
        Seq::empty()
    } else if key_less(k, key_of(heap.last())) {
        kept(heap.drop_last(), k).push(heap.last())
    } else {
        kept(heap.drop_last(), k)
    }
}

/// The entries with key `k`, in their order.
pub open spec fn group(heap: Seq<DijkstraNodeState>, k: (u64, u32)) -> Seq<DijkstraNodeState>
    decreases heap.len(),
{
    if heap.len() == 0 {
        Seq::empty()
    } else if key_of(heap.last()) == k {
        group(heap.drop_last(), k).push(heap.last())
    } else {
        group(heap.drop_last(), k)
    }
}

/// Number of entries that are active.
pub open spec fn count_active(heap: Seq<DijkstraNodeState>) -> nat
    decreases heap.len(),
{
    if heap.len() == 0 {
        0
    } else {
        count_active(heap.drop_last()) + if heap.last().parent.active {
            1nat
        } else {
            0nat
        }
    }
}

/// The link that an entry stands for.
pub open spec fn link_of(e: DijkstraNodeState) -> ParentLink {
    ParentLink {
        parent: e.parent.parent,
        edge: Some(e.parent.parent_edge),
        weight: e.parent.parent_edge_distance,
    }
}

/// The place of the link from `parent` in `links`, or the length of
/// `links` if there is none.
pub open spec fn link_index(links: Seq<ParentLink>, parent: NodeId) -> int
    decreases links.len(),
{
    if links.len() == 0 {
        0
    } else if links[0].parent == parent {
        0
    } else {
        1 + link_index(links.subrange(1, links.len() as int), parent)
    }
}

/// `links` with `link` in the place of the link from the same parent, or
/// at the end if there is none.
pub open spec fn put_link(links: Seq<ParentLink>, link: ParentLink) -> Seq<ParentLink> {
    let i = link_index(links, link.parent);
    if i < links.len() {
        links.update(i, link)
    } else {
        links.push(link)
    }
}

/// The links of the merged entries: one for every parent, the last entry
/// of a parent deciding.
pub open spec fn merge_links(entries: Seq<DijkstraNodeState>) -> Seq<ParentLink>
    decreases entries.len(),
{
    if entries.len() == 0 {
        Seq::empty()
    } else {
        put_link(merge_links(entries.drop_last()), link_of(entries.last()))
    }
}

/// The larger of two reference distances.
pub open spec fn join_reference(a: Option<u64>, b: Option<u64>) -> Option<u64> {
    match (a, b) {
        (Some(x), Some(y)) => Some(
            if x >= y {
                x
            } else {
                y
            },
        ),
        _ => None,
    }
}

/// The largest border distance of a parent of the merged entries.
pub open spec fn max_border(entries: Seq<DijkstraNodeState>, visited: Map<u32, VisitedState>) -> u64
    decreases entries.len(),
{
    if entries.len() == 0 {
        0
    } else {
        let head = max_border(entries.drop_last(), visited);
        let last = visited[entries.last().parent.parent.0].border_distance;
        if head >= last {
            head
        } else {
            last
        }
    }
}

/// The largest reference distance of a parent of the merged entries.
pub open spec fn max_reference(
    entries: Seq<DijkstraNodeState>,
    visited: Map<u32, VisitedState>,
) -> Option<u64>
    decreases entries.len(),
{
    if entries.len() == 0 {
        Some(0)
    } else {
        join_reference(
            max_reference(entries.drop_last(), visited),
            visited[entries.last().parent.parent.0].reference_distance,
        )
    }
}

/// Whether one of the entries is active.
pub open spec fn any_active(entries: Seq<DijkstraNodeState>) -> bool
    decreases entries.len(),
{
    entries.len() > 0 && (any_active(entries.drop_last()) || entries.last().parent.active)
}

/// The larger of two reference distances.
pub fn larger_reference(a: Option<u64>, b: Option<u64>) -> (r: Option<u64>)
    ensures
        r == join_reference(a, b),
{
    match (a, b) {
        (Some(x), Some(y)) => Some(
            if x >= y {
                x
            } else {
                y
            },
        ),
        _ => None,
    }
}

pub proof fn lemma_link_index(links: Seq<ParentLink>, parent: NodeId)
    ensures
        0 <= link_index(links, parent) <= links.len(),
        link_index(links, parent) < links.len() ==> links[link_index(links, parent)].parent == parent,
        forall|i: int| 0 <= i < link_index(links, parent) ==> (#[trigger] links[i]).parent != parent,
    decreases links.len(),
{
    if links.len() > 0 && links[0].parent != parent {
        let rest = links.subrange(1, links.len() as int);
        lemma_link_index(rest, parent);
        assert forall|i: int| 0 <= i < link_index(links, parent) implies (#[trigger] links[i]).parent
            != parent by {
            if i > 0 {
                assert(rest[i - 1] == links[i]);
            }
        }
    }
}

/// Puts `link` into `links` in the place of the link from the same parent,
/// or at the end if there is none.
pub fn insert_link(links: &mut Vec<ParentLink>, link: ParentLink)
    ensures
        final(links)@ == put_link(old(links)@, link),
{
    let mut i: usize = 0;
    proof {
        lemma_link_index(links@, link.parent);
    }
    while i < links.len()
        invariant
            links@ == old(links)@,
            i <= links@.len(),
            forall|k: int| 0 <= k < i ==> (#[trigger] links@[k]).parent != link.parent,
            i <= link_index(links@, link.parent),
        decreases links@.len() - i,
    {
        if links[i].parent.0 == link.parent.0 {
            proof {
                lemma_link_index(links@, link.parent);
                let at = link_index(links@, link.parent);
                if i < at {
                    assert(links@[i as int].parent != link.parent);
                }
            }
            links.set(i, link);
            return ;
        }
        i += 1;
        proof {
            lemma_link_index(links@, link.parent);
            let at = link_index(links@, link.parent);
            if at < i {
                assert(links@[at].parent != link.parent);
            }
        }
    }
    proof {
        lemma_link_index(links@, link.parent);
    }
    links.push(link);
}

proof fn lemma_group_nonempty(heap: Seq<DijkstraNodeState>, k: (u64, u32), i: int)
    requires
        0 <= i < heap.len(),
        key_of(heap[i]) == k,
    ensures
        group(heap, k).len() > 0,
    decreases heap.len(),
{
    if i < heap.len() - 1 {
        lemma_group_nonempty(heap.drop_last(), k, i);
    }
}

proof fn lemma_count_active_bound(heap: Seq<DijkstraNodeState>)
    ensures
        count_active(heap) <= heap.len(),
    decreases heap.len(),
{
    if heap.len() > 0 {
        lemma_count_active_bound(heap.drop_last());
    }
}

/// Every kept entry is an entry of the heap whose key comes after `k`, and
/// every such entry of the heap is kept.
pub proof fn lemma_kept(heap: Seq<DijkstraNodeState>, k: (u64, u32))
    ensures
        forall|a: int|
            0 <= a < kept(heap, k).len() ==> key_less(k, key_of(#[trigger] kept(heap, k)[a])) && exists|
                i: int,
            | 0 <= i < heap.len() && heap[i] == kept(heap, k)[a],
        forall|i: int|
            0 <= i < heap.len() && key_less(k, key_of(#[trigger] heap[i])) ==> exists|a: int|
                0 <= a < kept(heap, k).len() && kept(heap, k)[a] == heap[i],
    decreases heap.len(),
{
    if heap.len() > 0 {
        let head = heap.drop_last();
        lemma_kept(head, k);
        let r = kept(heap, k);
        let r0 = kept(head, k);
        assert forall|a: int| 0 <= a < r.len() implies key_less(k, key_of(#[trigger] r[a])) && exists|
            i: int,
        | 0 <= i < heap.len() && heap[i] == r[a] by {
            if a < r0.len() {
                assert(r[a] == r0[a]);
                let i = choose|i: int| 0 <= i < head.len() && head[i] == r0[a];
                assert(heap[i] == r[a]);
            } else {
                assert(heap[heap.len() - 1] == r[a]);
            }
        }
        assert forall|i: int|
            0 <= i < heap.len() && key_less(k, key_of(#[trigger] heap[i])) implies exists|a: int|
            0 <= a < r.len() && r[a] == heap[i] by {
            if i < head.len() {
                assert(head[i] == heap[i]);
                let a = choose|a: int| 0 <= a < r0.len() && r0[a] == head[i];
                assert(r[a] == heap[i]);
            } else {
                assert(r[r.len() - 1] == heap[i]);
            }
        }
    }
}

/// Every entry of the group is an entry of the heap with key `k`.
pub proof fn lemma_group(heap: Seq<DijkstraNodeState>, k: (u64, u32))
    ensures
        forall|a: int|
            0 <= a < group(heap, k).len() ==> key_of(#[trigger] group(heap, k)[a]) == k && exists|
                i: int,
            | 0 <= i < heap.len() && heap[i] == group(heap, k)[a],
    decreases heap.len(),
{
    if heap.len() > 0 {
        let head = heap.drop_last();
        lemma_group(head, k);
        let r = group(heap, k);
        let r0 = group(head, k);
        assert forall|a: int| 0 <= a < r.len() implies key_of(#[trigger] r[a]) == k && exists|i: int|
            0 <= i < heap.len() && heap[i] == r[a] by {
            if a < r0.len() {
                assert(r[a] == r0[a]);
                let i = choose|i: int| 0 <= i < head.len() && head[i] == r0[a];
                assert(heap[i] == r[a]);
            } else {
                assert(heap[heap.len() - 1] == r[a]);
            }
        }
    }
}

/// The queue of the restricted search, with what is known of the settled
/// nodes.
pub struct HighwayNodeQueue {
    heap: Vec<DijkstraNodeState>,
    visited: HashMap<u32, VisitedState>,
    active: usize,
}

impl HighwayNodeQueue {
    /// The waiting entries.
    pub closed spec fn entries(&self) -> Seq<DijkstraNodeState> {
        self.heap@
    }

    /// What is known of the settled nodes, by node id.
    pub closed spec fn visited_map(&self) -> Map<u32, VisitedState> {
        self.visited@
    }

    /// The parent of every waiting entry is settled, and the count of
    /// active entries is kept.
    pub closed spec fn wf(&self) -> bool {
        &&& self.active == count_active(self.heap@)
        &&& forall|i: int|
            0 <= i < self.heap@.len() ==> self.visited@.contains_key(
                (#[trigger] self.heap@[i]).parent.parent.0,
            )
    }

    /// What the invariant says of the waiting entries.
    pub proof fn lemma_wf(&self)
        requires
            self.wf(),
        ensures
            forall|i: int|
                0 <= i < self.entries().len() ==> self.visited_map().contains_key(
                    (#[trigger] self.entries()[i]).parent.parent.0,
                ),
    {
    }

    /// The empty queue. The sizes are hints for the storage to set aside.
    pub fn new(heap_size: usize, visited_size: usize) -> (r: Self)
        ensures
            r.wf(),
            r.entries() == Seq::<DijkstraNodeState>::empty(),
            r.visited_map() == Map::<u32, VisitedState>::empty(),
    {
        Self {
            heap: Vec::with_capacity(heap_size),
            visited: HashMap::with_capacity(visited_size),
            active: 0,
        }
    }

    /// Lets `state` wait. Its parent must be settled.
    pub fn push(&mut self, state: DijkstraNodeState)
        requires
            old(self).wf(),
            old(self).visited_map().contains_key(state.parent.parent.0),
        ensures
            final(self).wf(),
            final(self).entries() == old(self).entries().push(state),
            final(self).visited_map() == old(self).visited_map(),
    {
        proof {
            lemma_count_active_bound(self.heap@);
            assert(self.heap@.push(state).drop_last() =~= self.heap@);
        }
        self.heap.push(state);
        let total = self.heap.len();
        if state.parent.active {
            assert(self.active < total);
            self.active += 1;
        }
    }

    /// Records `state` as what is known of `node` and returns what was
    /// known of it before.
    pub fn visited(&mut self, node: NodeId, state: VisitedState) -> (r: Option<VisitedState>)
        requires
            old(self).wf(),
        ensures
            final(self).wf(),
            final(self).entries() == old(self).entries(),
            final(self).visited_map() == old(self).visited_map().insert(node.0, state),
            r == if old(self).visited_map().contains_key(node.0) {
                Some(old(self).visited_map()[node.0])
            } else {
                None
            },
    {
        self.visited.insert(node.0, state)
    }

    /// What is known of `node`, if it is settled.
    pub fn visited_state(&self, node: NodeId) -> (r: Option<&VisitedState>)
        ensures
            match r {
                Some(state) => self.visited_map().contains_key(node.0) && *state
                    == self.visited_map()[node.0],
                None => !self.visited_map().contains_key(node.0),
            },
    {
        self.visited.get(&node.0)
    }

    /// What is known of the settled nodes, by node id.
    pub fn visited_ref(&self) -> (r: &HashMap<u32, VisitedState>)
        ensures
            r@ == self.visited_map(),
    {
        &self.visited
    }

    /// Gives up the queue for what is known of the settled nodes.
    pub fn into_visited(self) -> (r: HashMap<u32, VisitedState>)
        ensures
            r@ == self.visited_map(),
    {
        self.visited
    }

    /// Whether an active entry waits.
    pub fn is_active(&self) -> (r: bool)
        requires
            self.wf(),
        ensures
            r == (count_active(self.entries()) > 0),
    {
        self.active > 0
    }

    /// The least key of a waiting entry whose node is not settled.
    fn least_live_key(&self) -> (r: Option<(u64, u32)>)
        ensures
            match r {
                Some(k) => least_live(self.heap@, self.visited@, k),
                None => !has_live(self.heap@, self.visited@),
            },
    {
        let mut best: Option<(u64, u32)> = None;
        let mut i: usize = 0;
        while i < self.heap.len()
            invariant
                i <= self.heap@.len(),
                match best {
                    Some(k) => {
                        &&& exists|a: int|
                            0 <= a < i && is_live(self.visited@, #[trigger] self.heap@[a]) && key_of(
                                self.heap@[a],
                            ) == k
                        &&& forall|a: int|
                            0 <= a < i && is_live(self.visited@, #[trigger] self.heap@[a])
                                ==> !key_less(key_of(self.heap@[a]), k)
                    },
                    None => forall|a: int| 0 <= a < i ==> !is_live(self.visited@, #[trigger] self.heap@[a]),
                },
            decreases self.heap@.len() - i,
        {
            let e = self.heap[i];
            if !self.visited.contains_key(&e.current.0) {
                let better = match best {
                    Some(k) => e.distance < k.0 || (e.distance == k.0 && e.current.0 < k.1),
                    None => true,
                };
                if better {
                    best = Some((e.distance, e.current.0));
                }
            }
            i += 1;
        }
        best
    }

    /// Takes the entries of the nearest node that is not settled out of the
    /// queue, all that reach it at its distance, and returns them merged.
    /// Entries of settled nodes that come before them are dropped. Returns
    /// `None` when no active entry waits, or when every waiting entry is of
    /// a settled node; then all entries are dropped.
    #[verifier::rlimit(40)]
    pub fn pop(&mut self) -> (r: Option<HighwayQueueEntry>)
        requires
            old(self).wf(),
        ensures
            final(self).wf(),
            final(self).visited_map() == old(self).visited_map(),
            match r {
                Some(entry) => {
                    let k = key_of(entry.state);
                    let merged = group(old(self).entries(), k);
                    &&& count_active(old(self).entries()) > 0
                    &&& least_live(old(self).entries(), old(self).visited_map(), k)
                    &&& final(self).entries() == kept(old(self).entries(), k)
                    &&& merged.len() > 0
                    &&& entry.state == merged.last()
                    &&& entry.parents@ == merge_links(merged)
                    &&& entry.border_distance == max_border(merged, old(self).visited_map())
                    &&& entry.reference_distance == max_reference(merged, old(self).visited_map())
                    &&& entry.parent_active == any_active(merged)
                },
                None => {
                    ||| count_active(old(self).entries()) == 0 && final(self).entries() == old(self).entries()
                    ||| !has_live(old(self).entries(), old(self).visited_map()) && final(self).entries() == Seq::<DijkstraNodeState>::empty()
                },
            },
    {
        if !self.is_active() {
            return None;
        }
        let k = match self.least_live_key() {
            Some(k) => k,
            None => {
                self.heap.clear();
                self.active = 0;
                return None;
            },
        };
        let ghost all = self.heap@;
        let ghost known = self.visited@;
        let mut rest: Vec<DijkstraNodeState> = Vec::new();
        let mut parents: Vec<ParentLink> = Vec::new();
        let mut border: u64 = 0;
        let mut reference: Option<u64> = Some(0);
        let mut parent_active = false;
        let mut state: Option<DijkstraNodeState> = None;
        let mut still_active: usize = 0;
        let mut j: usize = 0;
        while j < self.heap.len()
            invariant
                self.heap@ == all,
                self.visited@ == known,
                j <= all.len(),
                forall|i: int| 0 <= i < all.len() ==> known.contains_key((#[trigger] all[i]).parent.parent.0),
                rest@ == kept(all.subrange(0, j as int), k),
                parents@ == merge_links(group(all.subrange(0, j as int), k)),
                border == max_border(group(all.subrange(0, j as int), k), known),
                reference == max_reference(group(all.subrange(0, j as int), k), known),
                parent_active == any_active(group(all.subrange(0, j as int), k)),
                match state {
                    Some(e) => group(all.subrange(0, j as int), k).len() > 0 && e == group(
                        all.subrange(0, j as int),
                        k,
                    ).last(),
                    None => group(all.subrange(0, j as int), k).len() == 0,
                },
                still_active == count_active(rest@),
                still_active <= rest@.len(),
                rest@.len() <= j,
            decreases all.len() - j,
        {
            let e = self.heap[j];
            proof {
                let before = all.subrange(0, j as int);
                let now = all.subrange(0, j + 1);
                assert(now.drop_last() =~= before);
                assert(now.last() == e);
                assert(key_of(e) == k <==> (e.distance == k.0 && e.current.0 == k.1));
                if key_of(e) == k {
                    assert(group(now, k) == group(before, k).push(e));
                    assert(group(now, k).drop_last() =~= group(before, k));
                    assert(kept(now, k) == kept(before, k));
                } else {
                    assert(group(now, k) == group(before, k));
                }
            }
            if e.distance == k.0 && e.current.0 == k.1 {
                let seen = self.visited.get(&e.parent.parent.0);
                proof {
                    assert(known.contains_key(all[j as int].parent.parent.0));
                }
                let seen = seen.unwrap();
                if seen.border_distance > border {
                    border = seen.border_distance;
                }
                reference = larger_reference(reference, seen.reference_distance);
                insert_link(
                    &mut parents,
                    ParentLink {
                        parent: e.parent.parent,
                        edge: Some(e.parent.parent_edge),
                        weight: e.parent.parent_edge_distance,
                    },
                );
                parent_active = parent_active || e.parent.active;
                state = Some(e);
            } else if k.0 < e.distance || (k.0 == e.distance && k.1 < e.current.0) {
                proof {
                    assert(rest@.push(e).drop_last() =~= rest@);
                }
                rest.push(e);
                if e.parent.active {
                    still_active += 1;
                }
            }
            j += 1;
        }
        proof {
            assert(all.subrange(0, j as int) =~= all);
            let i = choose|i: int| 0 <= i < all.len() && is_live(known, #[trigger] all[i]) && key_of(all[i]) == k;
            lemma_group_nonempty(all, k, i);
            lemma_kept(all, k);
            lemma_group(all, k);
            let merged = group(all, k);
            assert(key_of(merged[merged.len() - 1]) == k);
            assert(key_of(state->0) == k);
            assert forall|a: int| 0 <= a < rest@.len() implies known.contains_key(
                (#[trigger] rest@[a]).parent.parent.0,
            ) by {
                let i2 = choose|i2: int| 0 <= i2 < all.len() && all[i2] == rest@[a];
                assert(known.contains_key(all[i2].parent.parent.0));
            }
        }
        self.heap = rest;
        self.active = still_active;
        Some(
            HighwayQueueEntry {
                state: state.unwrap(),
                parents,
                border_distance: border,
                reference_distance: reference,
                parent_active,
            },
        )
    }
}

/// Every link of `put_link` is `link` or a link of `links`, `link` is one
/// of them, and the parents of `links` stay.
pub proof fn lemma_put_link(links: Seq<ParentLink>, link: ParentLink)
    ensures
        put_link(links, link).len() >= links.len(),
        put_link(links, link).len() > 0,
        forall|a: int|
            0 <= a < put_link(links, link).len() ==> (#[trigger] put_link(links, link)[a]) == link
                || (a < links.len() && put_link(links, link)[a] == links[a]),
        exists|a: int| 0 <= a < put_link(links, link).len() && put_link(links, link)[a] == link,
{
    lemma_link_index(links, link.parent);
    let i = link_index(links, link.parent);
    let r = put_link(links, link);
    if i < links.len() {
        assert(r[i] == link);
    } else {
        assert(r[links.len() as int] == link);
    }
}

/// Every merged link stands for one of the merged entries.
pub proof fn lemma_merge_links(entries: Seq<DijkstraNodeState>)
    ensures
        entries.len() > 0 ==> merge_links(entries).len() > 0,
        forall|a: int|
            0 <= a < merge_links(entries).len() ==> exists|b: int|
                0 <= b < entries.len() && #[trigger] merge_links(entries)[a] == link_of(entries[b]),
    decreases entries.len(),
{
    if entries.len() > 0 {
        let head = entries.drop_last();
        lemma_merge_links(head);
        lemma_put_link(merge_links(head), link_of(entries.last()));
        let r = merge_links(entries);
        let r0 = merge_links(head);
        assert forall|a: int| 0 <= a < r.len() implies exists|b: int|
            0 <= b < entries.len() && #[trigger] r[a] == link_of(entries[b]) by {
            if r[a] == link_of(entries.last()) {
                assert(r[a] == link_of(entries[entries.len() - 1]));
            } else {
                assert(r[a] == r0[a]);
                let b = choose|b: int| 0 <= b < head.len() && r0[a] == link_of(head[b]);
                assert(r[a] == link_of(entries[b]));
            }
        }
    }
}

/// Every entry of the heap with key `k` is in the group of `k`, and the
/// merged links name the parent of every merged entry.
pub proof fn lemma_group_holds(heap: Seq<DijkstraNodeState>, k: (u64, u32), i: int)
    requires
        0 <= i < heap.len(),
        key_of(heap[i]) == k,
    ensures
        exists|b: int| 0 <= b < group(heap, k).len() && group(heap, k)[b] == heap[i],
    decreases heap.len(),
{
    let head = heap.drop_last();
    if i < heap.len() - 1 {
        lemma_group_holds(head, k, i);
        let b = choose|b: int| 0 <= b < group(head, k).len() && group(head, k)[b] == head[i];
        assert(group(heap, k)[b] == heap[i]);
    } else {
        assert(group(heap, k)[group(heap, k).len() - 1] == heap[i]);
    }
}

/// The merged links name the parent of every merged entry.
pub proof fn lemma_merge_links_cover(entries: Seq<DijkstraNodeState>, b: int)
    requires
        0 <= b < entries.len(),
    ensures
        exists|a: int|
            0 <= a < merge_links(entries).len() && (#[trigger] merge_links(entries)[a]).parent
                == entries[b].parent.parent,
    decreases entries.len(),
{
    let head = entries.drop_last();
    let links = merge_links(head);
    let link = link_of(entries.last());
    let out = merge_links(entries);
    lemma_link_index(links, link.parent);
    let i = link_index(links, link.parent);
    if b < entries.len() - 1 {
        lemma_merge_links_cover(head, b);
        let a = choose|a: int| 0 <= a < links.len() && (#[trigger] links[a]).parent == head[b].parent.parent;
        assert(out[a].parent == entries[b].parent.parent);
    } else if i < links.len() {
        assert(out[i].parent == entries[b].parent.parent);
    } else {
        assert(out[links.len() as int].parent == entries[b].parent.parent);
    }
}

/// An active entry is counted.
pub proof fn lemma_active_counted(heap: Seq<DijkstraNodeState>, i: int)
    requires
        0 <= i < heap.len(),
        heap[i].parent.active,
    ensures
        count_active(heap) > 0,
        any_active(heap),
    decreases heap.len(),
{
    if i < heap.len() - 1 {
        lemma_active_counted(heap.drop_last(), i);
    }
}

/// Where entries are counted as active, one of them is.
pub proof fn lemma_counted_is_active(heap: Seq<DijkstraNodeState>)
    requires
        count_active(heap) > 0 || any_active(heap),
    ensures
        exists|i: int| 0 <= i < heap.len() && (#[trigger] heap[i]).parent.active,
    decreases heap.len(),
{
    if heap.len() > 0 {
        if heap.last().parent.active {
            assert(heap[heap.len() - 1].parent.active);
        } else {
            lemma_counted_is_active(heap.drop_last());
            let i = choose|i: int| 0 <= i < heap.drop_last().len() && (#[trigger] heap.drop_last()[i]).parent.active;
            assert(heap[i].parent.active);
        }
    }
}

} // verus!
