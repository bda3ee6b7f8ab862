//! Neighbourhood radii: for every node the distance to the nearest nodes
//! that make up a neighbourhood of a given size.

use vstd::prelude::*;
use crate::dijkstra::{trail_has, trail_ok, DijkstraIterator};
use crate::direction::{Backward, EdgeDirection, Forward};
use crate::graph::DirectedNetworkGraph;
use crate::ids::NodeId;
use crate::lists::{lemma_drop_value, list_ok};
use crate::paths::{beyond, connects, is_distance, reachable, walk_weight, within};

verus! {

/// Number of nodes below `n` from which `s` lies within `bound`.
pub open spec fn count_within<D>(
    g: &DirectedNetworkGraph<D>,
    dir: EdgeDirection,
    s: int,
    bound: int,
    n: nat,
) -> nat
    decreases n,
{
    if n == 0 {
        0
    } else {
        count_within(g, dir, s, bound, (n - 1) as nat) + if within(g, dir, s, n - 1, bound) {
            1nat
        } else {
            0nat
        }
    }
}

/// Whether `r` is the radius of the neighbourhood of `size` nodes around
/// `s`: the distance of the nearest node such that `size` nodes, `s` among
/// them, lie no farther, or the distance of the farthest node that can be
/// reached if there are fewer than `size`.
pub open spec fn is_radius<D>(
    g: &DirectedNetworkGraph<D>,
    dir: EdgeDirection,
    s: int,
    size: int,
    r: int,
) -> bool {
    &&& exists|u: int| is_distance(g, dir, s, u, r)
    &&& count_within(g, dir, s, r - 1, g.node_total() as nat) < size
    &&& (count_within(g, dir, s, r, g.node_total() as nat) >= size || forall|t: int|
        reachable(g, dir, s, t) ==> within(g, dir, s, t, r))
}

/// A larger bound holds at least as many nodes.
pub proof fn lemma_count_monotone<D>(
    g: &DirectedNetworkGraph<D>,
    dir: EdgeDirection,
    s: int,
    low: int,
    high: int,
    n: nat,
)
    requires
        low <= high,
    ensures
        count_within(g, dir, s, low, n) <= count_within(g, dir, s, high, n),
    decreases n,
{
    if n > 0 {
        lemma_count_monotone(g, dir, s, low, high, (n - 1) as nat);
        if within(g, dir, s, n - 1, low) {
            let walk = choose|walk: Seq<int>|
                connects(g, dir, s, n - 1, walk) && walk_weight(g, walk) <= low;
            assert(connects(g, dir, s, n - 1, walk) && walk_weight(g, walk) <= high);
        }
    }
}

/// If every node within `bound` is on a list of distinct nodes, the list is
/// at least as long as the number of those nodes.
proof fn lemma_count_at_most<D>(
    g: &DirectedNetworkGraph<D>,
    dir: EdgeDirection,
    s: int,
    bound: int,
    n: nat,
    list: Seq<u32>,
)
    requires
        list.no_duplicates(),
        n <= u32::MAX,
        forall|u: int|
            0 <= u < n && #[trigger] within(g, dir, s, u, bound) ==> list.contains(u as u32),
    ensures
        count_within(g, dir, s, bound, n) <= list.len(),
    decreases n,
{
    if n > 0 {
        let top = (n - 1) as u32;
        if within(g, dir, s, n - 1, bound) {
            let i = choose|i: int| 0 <= i < list.len() && list[i] == top;
            lemma_drop_value(list, top, i);
            let rest = list.remove(i);
            assert forall|u: int|
                0 <= u < n - 1 && #[trigger] within(g, dir, s, u, bound) implies rest.contains(
                u as u32,
            ) by {
                assert(list.contains(u as u32));
            }
            lemma_count_at_most(g, dir, s, bound, (n - 1) as nat, rest);
        } else {
            lemma_count_at_most(g, dir, s, bound, (n - 1) as nat, list);
        }
    }
}

/// If every node on a list of distinct nodes lies within `bound`, at least
/// as many nodes lie within `bound` as the list is long.
proof fn lemma_count_at_least<D>(
    g: &DirectedNetworkGraph<D>,
    dir: EdgeDirection,
    s: int,
    bound: int,
    n: nat,
    list: Seq<u32>,
)
    requires
        list_ok(list, n as int),
        n <= u32::MAX,
        forall|i: int| 0 <= i < list.len() ==> within(g, dir, s, (#[trigger] list[i]) as int, bound),
    ensures
        count_within(g, dir, s, bound, n) >= list.len(),
    decreases n,
{
    if n == 0 {
        if list.len() > 0 {
            assert(list[0] < 0);
        }
    } else {
        let top = (n - 1) as u32;
        if list.contains(top) {
            let i = choose|i: int| 0 <= i < list.len() && list[i] == top;
            lemma_drop_value(list, top, i);
            let rest = list.remove(i);
            assert forall|a: int| 0 <= a < rest.len() implies (#[trigger] rest[a]) < n - 1 && within(
                g,
                dir,
                s,
                rest[a] as int,
                bound,
            ) by {
                let a0 = if a < i {
                    a
                } else {
                    a + 1
                };
                assert(rest[a] == list[a0]);
                assert(rest.contains(rest[a]));
            }
            lemma_count_at_least(g, dir, s, bound, (n - 1) as nat, rest);
            assert(within(g, dir, s, list[i] as int, bound));
        } else {
            assert forall|a: int| 0 <= a < list.len() implies (#[trigger] list[a]) < n - 1 by {
                assert(list.contains(list[a]));
            }
            lemma_count_at_least(g, dir, s, bound, (n - 1) as nat, list);
        }
    }
}

/// Radii grow with the size of the neighbourhood: the radius for a smaller
/// size is at most the radius for a larger one. With equal sizes this says
/// that a node has one radius.
pub proof fn lemma_radius_monotone<D>(
    g: &DirectedNetworkGraph<D>,
    dir: EdgeDirection,
    s: int,
    size1: int,
    size2: int,
    r1: int,
    r2: int,
)
    requires
        size1 <= size2,
        is_radius(g, dir, s, size1, r1),
        is_radius(g, dir, s, size2, r2),
    ensures
        r1 <= r2,
{
    if r1 > r2 {
        let n = g.node_total() as nat;
        lemma_count_monotone(g, dir, s, r2, r1 - 1, n);
        let u = choose|u: int| is_distance(g, dir, s, u, r1);
        let walk = choose|walk: Seq<int>|
            connects(g, dir, s, u, walk) && walk_weight(g, walk) <= r1;
        assert(reachable(g, dir, s, u));
        assert(within(g, dir, s, u, r2));
        let short = choose|walk: Seq<int>|
            connects(g, dir, s, u, walk) && walk_weight(g, walk) <= r2;
        assert(walk_weight(g, short) >= r1);
    }
}

/// The nodes of a trail, as a list.
pub open spec fn trail_nodes(trail: Seq<(NodeId, u64)>) -> Seq<u32> {
    trail.map_values(|e: (NodeId, u64)| e.0.0)
}

/// The distance of the last of `trail` is the radius for the size of
/// `trail`, or for any larger size if `trail` holds every node that can be
/// reached.
proof fn lemma_trail_radius<D>(
    g: &DirectedNetworkGraph<D>,
    dir: EdgeDirection,
    s: int,
    trail: Seq<(NodeId, u64)>,
    size: int,
)
    requires
        g.wf(),
        trail.len() > 0,
        trail_ok(g, dir, s, trail),
        forall|t: int| !trail_has(trail.drop_last(), t) ==> beyond(g, dir, s, t, trail.last().1 as int),
        trail.len() <= size,
        trail.len() < size ==> forall|t: int| reachable(g, dir, s, t) ==> trail_has(trail, t),
    ensures
        is_radius(g, dir, s, size, trail.last().1 as int),
{
    let r = trail.last().1 as int;
    let n = g.node_total() as nat;
    let all = trail_nodes(trail);
    let head = trail_nodes(trail.drop_last());
    assert(is_distance(g, dir, s, trail[trail.len() - 1].0.0 as int, r));
    // fewer than `size` nodes lie nearer than `r`
    assert forall|i: int, j: int| 0 <= i < head.len() && 0 <= j < head.len() && i != j implies head[i]
        != head[j] by {
        if i < j {
            assert(trail[i].0 != trail[j].0);
        } else {
            assert(trail[j].0 != trail[i].0);
        }
    }
    assert forall|u: int| 0 <= u < n && #[trigger] within(g, dir, s, u, r - 1) implies head.contains(
        u as u32,
    ) by {
        if !trail_has(trail.drop_last(), u) {
            let walk = choose|walk: Seq<int>|
                connects(g, dir, s, u, walk) && walk_weight(g, walk) <= r - 1;
            assert(walk_weight(g, walk) >= r);
        }
        let i = choose|i: int|
            0 <= i < trail.drop_last().len() && (#[trigger] trail.drop_last()[i]).0.0 == u;
        assert(head[i] == u as u32);
    }
    lemma_count_at_most(g, dir, s, r - 1, n, head);
    // the nodes of the trail lie no farther than `r`
    assert forall|i: int, j: int| 0 <= i < all.len() && 0 <= j < all.len() && i != j implies all[i]
        != all[j] by {
        if i < j {
            assert(trail[i].0 != trail[j].0);
        } else {
            assert(trail[j].0 != trail[i].0);
        }
    }
    assert forall|i: int| 0 <= i < all.len() implies (#[trigger] all[i]) < n && within(
        g,
        dir,
        s,
        all[i] as int,
        r,
    ) by {
        assert(trail[i].0.0 < g.node_total());
        assert(is_distance(g, dir, s, trail[i].0.0 as int, trail[i].1 as int));
        if i < trail.len() - 1 {
            assert(trail[i].1 <= trail[trail.len() - 1].1);
        }
        let walk = choose|walk: Seq<int>|
            connects(g, dir, s, trail[i].0.0 as int, walk) && walk_weight(g, walk) <= trail[i].1;
        assert(connects(g, dir, s, all[i] as int, walk) && walk_weight(g, walk) <= r);
    }
    assert(list_ok(all, n as int));
    lemma_count_at_least(g, dir, s, r, n, all);
    if trail.len() < size {
        assert forall|t: int| reachable(g, dir, s, t) implies within(g, dir, s, t, r) by {
            assert(trail_has(trail, t));
            let i = choose|i: int| 0 <= i < trail.len() && (#[trigger] trail[i]).0.0 == t;
            assert(all[i] == t);
            assert(within(g, dir, s, all[i] as int, r));
        }
    }
}

/// A direction in which neighbourhoods are measured.
pub trait NeighbourhoodDirection {
    /// The direction tag.
    spec fn heading() -> EdgeDirection;

    /// The direction tag.
    fn direction() -> (r: EdgeDirection)
        ensures
            r == Self::heading(),
    ;
}

impl NeighbourhoodDirection for Forward {
    open spec fn heading() -> EdgeDirection {
        EdgeDirection::Forward
    }

    fn direction() -> (r: EdgeDirection) {
        EdgeDirection::Forward
    }
}

impl NeighbourhoodDirection for Backward {
    open spec fn heading() -> EdgeDirection {
        EdgeDirection::Backward
    }

    fn direction() -> (r: EdgeDirection) {
        EdgeDirection::Backward
    }
}

/// The radius of the neighbourhood of `size` nodes around `node`, measured
/// in direction `direction`; `None` if `size` is zero.
pub fn find_neighbourhood_radius<D>(
    node: NodeId,
    size: usize,
    network: &DirectedNetworkGraph<D>,
    direction: EdgeDirection,
) -> (r: Option<u64>)
    requires
        network.wf(),
        node.0 < network.node_total(),
    ensures
        r is None <==> size == 0,
        r is Some ==> is_radius(network, direction, node.0 as int, size as int, r->0 as int),
{
    if size == 0 {
        return None;
    }
    let mut search = DijkstraIterator::new(network, node, direction);
    let mut last: Option<u64> = None;
    let mut taken: usize = 0;
    let ghost mut complete = false;
    while taken < size
        invariant_except_break
            taken == search@.len(),
        invariant
            search.wf(),
            search.graph() == network,
            search.heading() == direction,
            search.source() == node,
            taken <= size,
            search@.len() <= taken,
            last is None <==> search@.len() == 0,
            last is Some ==> last->0 == search@.last().1,
            search@.len() > 0 ==> forall|t: int|
                !trail_has(search@.drop_last(), t) ==> beyond(
                    network,
                    direction,
                    node.0 as int,
                    t,
                    search@.last().1 as int,
                ),
            complete ==> forall|t: int|
                reachable(network, direction, node.0 as int, t) ==> trail_has(search@, t),
        ensures
            search@.len() < size ==> complete,
        decreases size - taken,
    {
        let ghost before = search@;
        match search.next() {
            Some(item) => {
                last = Some(item.1);
                proof {
                    assert(search@.drop_last() =~= before);
                }
            },
            None => {
                proof {
                    complete = true;
                }
                break ;
            },
        }
        taken += 1;
    }
    proof {
        search.lemma_wf();
        if search@.len() == 0 {
            let empty = Seq::<int>::empty();
            assert(connects(network, direction, node.0 as int, node.0 as int, empty));
            assert(reachable(network, direction, node.0 as int, node.0 as int));
            assert(trail_has(search@, node.0 as int));
            assert(false);
        }
        lemma_trail_radius(network, direction, node.0 as int, search@, size as int);
    }
    last
}

/// The radii of all nodes of a graph, measured in one direction.
#[derive(Debug)]
pub struct Neighbourhood<T: NeighbourhoodDirection> {
    radius: Vec<u64>,
    _marker: std::marker::PhantomData<T>,
}

/// Radii measured along outgoing edges.
pub type ForwardNeighbourhood = Neighbourhood<Forward>;

/// Radii measured along incoming edges.
pub type BackwardNeighbourhood = Neighbourhood<Backward>;

impl<T: NeighbourhoodDirection> View for Neighbourhood<T> {
    type V = Seq<u64>;

    /// The radius of every node, by node id.
    closed spec fn view(&self) -> Seq<u64> {
        self.radius@
    }
}

impl<T: NeighbourhoodDirection> Neighbourhood<T> {
    /// Whether the table holds, for every node of `network`, the radius of
    /// its neighbourhood of `size` nodes.
    pub open spec fn describes<D>(&self, size: int, network: &DirectedNetworkGraph<D>) -> bool {
        &&& self@.len() == network.node_total()
        &&& forall|v: int|
            0 <= v < self@.len() ==> is_radius(network, T::heading(), v, size, #[trigger] self@[v] as int)
    }

    /// The radius of `node`.
    pub fn radius(&self, node: NodeId) -> (r: u64)
        requires
            node.0 < self@.len(),
        ensures
            r == self@[node.0 as int],
    {
        self.radius[node.0 as usize]
    }

    /// Number of nodes that the table covers.
    pub fn len(&self) -> (r: usize)
        ensures
            r == self@.len(),
    {
        self.radius.len()
    }

    /// The table of the given radii, one for every node in the order of
    /// the node ids.
    pub fn from_radii(radius: Vec<u64>) -> (r: Self)
        ensures
            r@ == radius@,
    {
        Neighbourhood { radius, _marker: std::marker::PhantomData }
    }

    /// The radii of the neighbourhoods of `size` nodes in `network`.
    pub fn from_network<D>(size: usize, network: &DirectedNetworkGraph<D>) -> (r: Self)
        requires
            network.wf(),
            size >= 1,
        ensures
            r.describes(size as int, network),
    {
        let n = network.node_count();
        let mut radius: Vec<u64> = Vec::new();
        let mut id: usize = 0;
        while id < n
            invariant
                network.wf(),
                size >= 1,
                n == network.node_total(),
                id <= n,
                radius@.len() == id,
                forall|v: int|
                    0 <= v < id ==> is_radius(
                        network,
                        T::heading(),
                        v,
                        size as int,
                        #[trigger] radius@[v] as int,
                    ),
            decreases n - id,
        {
            let found = find_neighbourhood_radius(NodeId(id as u32), size, network, T::direction());
            radius.push(found.unwrap());
            id += 1;
        }
        Neighbourhood { radius, _marker: std::marker::PhantomData }
    }
}

impl<D> DirectedNetworkGraph<D> {
    /// The forward radii of the neighbourhoods of `size` nodes.
    pub fn forward_neighbourhood(&self, size: usize) -> (r: Neighbourhood<Forward>)
        requires
            self.wf(),
            size >= 1,
        ensures
            r.describes(size as int, self),
    {
        Neighbourhood::from_network(size, self)
    }

    /// The backward radii of the neighbourhoods of `size` nodes.
    pub fn backward_neighbourhood(&self, size: usize) -> (r: Neighbourhood<Backward>)
        requires
            self.wf(),
            size >= 1,
        ensures
            r.describes(size as int, self),
    {
        Neighbourhood::from_network(size, self)
    }
}

/// The forward and backward radii of one graph for one neighbourhood size.
#[derive(Debug)]
pub struct ComputedState {
    pub forward: ForwardNeighbourhood,
    pub backward: BackwardNeighbourhood,
}

impl ComputedState {
    /// Whether both tables cover `n` nodes.
    pub open spec fn covers(&self, n: int) -> bool {
        self.forward@.len() == n && self.backward@.len() == n
    }

    /// The radii of the neighbourhoods of `size` nodes in `network`.
    pub fn new<D>(size: usize, network: &DirectedNetworkGraph<D>) -> (r: Self)
        requires
            network.wf(),
            size >= 1,
        ensures
            r.forward.describes(size as int, network),
            r.backward.describes(size as int, network),
    {
        let forward = ForwardNeighbourhood::from_network(size, network);
        let backward = BackwardNeighbourhood::from_network(size, network);
        ComputedState { forward, backward }
    }
}

} // verus!
